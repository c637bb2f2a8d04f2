//! The crate's version string.

#[test]
fn version_is_semver_ish() {
    let version = rustille::VERSION;
    assert_eq!(version.split('.').count(), 3, "{version}");
    assert!(version.split('.').all(|p| p.chars().any(|c| c.is_ascii_digit())));
}
