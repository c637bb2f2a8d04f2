//! Decimal formatting without `format!`.

use vstd::prelude::*;
use vstd::string::StrSliceExecFns;

verus! {

/// The ASCII digit for `d` in `0..=9`.
pub open spec fn digit_char(d: int) -> char {
    (48 + d) as char
}

/// The decimal representation of `n`, without leading zeros.
pub open spec fn decimal(n: nat) -> Seq<char>
    decreases n,
{
    if n < 10 {
        seq![digit_char(n as int)]
    } else {
        decimal(n / 10) + seq![digit_char((n % 10) as int)]
    }
}

/// The character of a decimal digit.
pub fn digit(d: u8) -> (c: char)
    requires
        d < 10,
    ensures
        c == digit_char(d as int),
{
    let code: u8 = 48 + d;
    let c = code as char;
    proof {
        crate::braille::lemma_char_code(c);
    }
    c
}

/// Appends the decimal form of `value`.
pub fn push_decimal(out: &mut String, value: u64)
    ensures
        final(out)@ == old(out)@ + decimal(value as nat),
    decreases value,
{
    if value >= 10 {
        push_decimal(out, value / 10);
    }
    out.push(digit((value % 10) as u8));
}


/// Whether two strings hold the same characters.
pub fn same_text(a: &str, b: &str) -> (same: bool)
    ensures
        same == (a@ == b@),
{
    let n = a.unicode_len();
    let m = b.unicode_len();
    if n != m {
        return false;
    }
    let mut i: usize = 0;
    while i < n
        invariant
            i <= n,
            n == a@.len(),
            m == b@.len(),
            n == m,
            forall|k: int| 0 <= k < i ==> a@[k] == b@[k],
        decreases n - i,
    {
        if a.get_char(i) != b.get_char(i) {
            return false;
        }
        i = i + 1;
    }
    assert(a@ =~= b@);
    true
}

/// Whether a sequence of characters spells `text`.
pub fn chars_are(chars: &Vec<char>, text: &str) -> (same: bool)
    ensures
        same == (chars@ == text@),
{
    let n = chars.len();
    let m = text.unicode_len();
    if n != m {
        return false;
    }
    let mut i: usize = 0;
    while i < n
        invariant
            i <= n,
            n == chars@.len(),
            m == text@.len(),
            n == m,
            forall|k: int| 0 <= k < i ==> chars@[k] == text@[k],
        decreases n - i,
    {
        if chars[i] != text.get_char(i) {
            return false;
        }
        i = i + 1;
    }
    assert(chars@ =~= text@);
    true
}


/// The characters of a string, in order.
pub fn chars_of(s: &str) -> (chars: Vec<char>)
    ensures
        chars@ == s@,
{
    let n = s.unicode_len();
    let mut chars: Vec<char> = Vec::new();
    let mut i: usize = 0;
    while i < n
        invariant
            i <= n,
            n == s@.len(),
            chars@ == s@.subrange(0, i as int),
        decreases n - i,
    {
        chars.push(s.get_char(i));
        assert(s@.subrange(0, i as int + 1) =~= s@.subrange(0, i as int).push(s@[i as int]));
        i = i + 1;
    }
    assert(s@.subrange(0, n as int) =~= s@);
    chars
}

/// A string holding exactly the given characters.
pub fn string_of(chars: &Vec<char>) -> (text: String)
    ensures
        text@ == chars@,
{
    let mut text = String::new();
    let mut i: usize = 0;
    while i < chars.len()
        invariant
            i <= chars@.len(),
            text@ == chars@.subrange(0, i as int),
        decreases chars@.len() - i,
    {
        text.push(chars[i]);
        assert(chars@.subrange(0, i as int + 1) =~= chars@.subrange(0, i as int).push(chars@[i as int]));
        i = i + 1;
    }
    assert(chars@.subrange(0, chars@.len() as int) =~= chars@);
    text
}

/// Whether `c` has the Unicode `White_Space` property, as `char::is_whitespace`
/// documents it.
pub open spec fn is_space(c: char) -> bool {
    let u = c as u32;
    (0x09 <= u <= 0x0D) || u == 0x20 || u == 0x85 || u == 0xA0 || u == 0x1680 || (0x2000 <= u <= 0x200A)
        || u == 0x2028 || u == 0x2029 || u == 0x202F || u == 0x205F || u == 0x3000
}

/// `s` without its leading whitespace.
pub open spec fn trim_start(s: Seq<char>) -> Seq<char>
    decreases s.len(),
{
    if s.len() > 0 && is_space(s[0]) {
        trim_start(s.drop_first())
    } else {
        s
    }
}

/// `s` without its trailing whitespace.
pub open spec fn trim_end(s: Seq<char>) -> Seq<char>
    decreases s.len(),
{
    if s.len() > 0 && is_space(s.last()) {
        trim_end(s.drop_last())
    } else {
        s
    }
}

/// `s` without leading and trailing whitespace, as `str::trim` gives it.
pub open spec fn trimmed(s: Seq<char>) -> Seq<char> {
    trim_end(trim_start(s))
}

fn space(c: char) -> (is: bool)
    ensures
        is == is_space(c),
{
    let u: u32 = c as u32;
    (0x09 <= u && u <= 0x0D) || u == 0x20 || u == 0x85 || u == 0xA0 || u == 0x1680 || (0x2000 <= u && u <= 0x200A)
        || u == 0x2028 || u == 0x2029 || u == 0x202F || u == 0x205F || u == 0x3000
}

/// The bounds of `chars[lo..hi]` without its leading and trailing whitespace.
pub fn trim_bounds(chars: &Vec<char>, lo: usize, hi: usize) -> (bounds: (usize, usize))
    requires
        lo <= hi <= chars@.len(),
    ensures
        lo <= bounds.0 <= bounds.1 <= hi,
        chars@.subrange(bounds.0 as int, bounds.1 as int) == trimmed(chars@.subrange(lo as int, hi as int)),
{
    let mut a: usize = lo;
    while a < hi && space(chars[a])
        invariant
            lo <= a <= hi <= chars@.len(),
            trim_start(chars@.subrange(lo as int, hi as int)) == trim_start(chars@.subrange(a as int, hi as int)),
        decreases hi - a,
    {
        assert(chars@.subrange(a as int, hi as int).drop_first() =~= chars@.subrange(a as int + 1, hi as int));
        a = a + 1;
    }
    let mut b: usize = hi;
    while b > a && space(chars[b - 1])
        invariant
            lo <= a <= b <= hi <= chars@.len(),
            trim_end(chars@.subrange(a as int, hi as int)) == trim_end(chars@.subrange(a as int, b as int)),
        decreases b - a,
    {
        assert(chars@.subrange(a as int, b as int).drop_last() =~= chars@.subrange(a as int, b as int - 1));
        b = b - 1;
    }
    (a, b)
}

/// `c` with ASCII capitals lowered.
pub open spec fn ascii_lower(c: char) -> char {
    if 'A' <= c <= 'Z' {
        ((c as u32) + 32) as char
    } else {
        c
    }
}

/// The lowercase form of an ASCII capital; any other character unchanged.
pub fn to_ascii_lower(c: char) -> (lower: char)
    ensures
        lower == ascii_lower(c),
{
    if c >= 'A' && c <= 'Z' {
        let code: u8 = c as u8 + 32;
        let lower = code as char;
        proof {
            crate::braille::lemma_char_code(lower);
        }
        lower
    } else {
        c
    }
}

/// The value of digit `c` in base `radix`, as `char::to_digit` gives it.
pub open spec fn digit_value(c: char, radix: nat) -> Option<nat> {
    let u = c as u32;
    let d: int = if 0x30 <= u <= 0x39 {
        u - 0x30
    } else if 0x61 <= u <= 0x7A {
        u - 0x61 + 10
    } else if 0x41 <= u <= 0x5A {
        u - 0x41 + 10
    } else {
        -1
    };
    if 0 <= d < radix { Some(d as nat) } else { None }
}

/// The number spelled by the digits `s` in base `radix`; `None` when a
/// character is not a digit.
pub open spec fn digits_value(s: Seq<char>, radix: nat) -> Option<nat>
    decreases s.len(),
{
    if s.len() == 0 {
        Some(0)
    } else {
        match (digits_value(s.drop_last(), radix), digit_value(s.last(), radix)) {
            (Some(a), Some(d)) => Some(a * radix + d),
            _ => None,
        }
    }
}

/// A byte parsed from text as `u8::from_str_radix` does: an optional `+`,
/// then at least one digit, with a value of at most 255.
pub open spec fn parse_byte(s: Seq<char>, radix: nat) -> Option<u8> {
    if s.len() == 0 || s == seq!['+'] || s == seq!['-'] {
        None
    } else {
        let body = if s[0] == '+' { s.drop_first() } else { s };
        match digits_value(body, radix) {
            Some(v) => if v <= 255 { Some(v as u8) } else { None },
            None => None,
        }
    }
}

proof fn lemma_digits_grow(s: Seq<char>, radix: nat, k: int)
    requires
        0 <= k <= s.len(),
        radix >= 1,
        digits_value(s.subrange(0, k), radix) matches Some(a) && a > 255,
    ensures
        digits_value(s, radix) matches Some(v) ==> v > 255,
    decreases s.len() - k,
{
    if k < s.len() {
        let t = s.subrange(0, k + 1);
        assert(t.drop_last() =~= s.subrange(0, k));
        if digits_value(t, radix) is Some {
            let a = digits_value(s.subrange(0, k), radix)->0;
            assert(a * radix >= a) by (nonlinear_arith)
                requires radix >= 1, a >= 0;
            lemma_digits_grow(s, radix, k + 1);
        } else {
            lemma_digits_none(s, radix, k + 1);
        }
    } else {
        assert(s.subrange(0, k) =~= s);
    }
}

proof fn lemma_digits_none(s: Seq<char>, radix: nat, k: int)
    requires
        0 <= k <= s.len(),
        digits_value(s.subrange(0, k), radix) is None,
    ensures
        digits_value(s, radix) is None,
    decreases s.len() - k,
{
    if k < s.len() {
        assert(s.subrange(0, k + 1).drop_last() =~= s.subrange(0, k));
        lemma_digits_none(s, radix, k + 1);
    } else {
        assert(s.subrange(0, k) =~= s);
    }
}

/// Parses `chars[lo..hi]` as a byte in base `radix` (10 or 16).
pub fn parse_byte_at(chars: &Vec<char>, lo: usize, hi: usize, radix: u32) -> (byte: Option<u8>)
    requires
        lo <= hi <= chars@.len(),
        2 <= radix <= 16,
    ensures
        byte == parse_byte(chars@.subrange(lo as int, hi as int), radix as nat),
{
    let ghost s = chars@.subrange(lo as int, hi as int);
    if lo == hi {
        return None;
    }
    if hi - lo == 1 && (chars[lo] == '+' || chars[lo] == '-') {
        assert(s =~= seq![chars@[lo as int]]);
        return None;
    }
    assert(s != seq!['+'] && s != seq!['-']) by {
        if s.len() == 1 {
            assert(s[0] == chars@[lo as int]);
        }
    }
    let start: usize = if chars[lo] == '+' { lo + 1 } else { lo };
    let ghost body = chars@.subrange(start as int, hi as int);
    assert(body =~= (if s[0] == '+' { s.drop_first() } else { s }));
    let mut value: u32 = 0;
    let mut i: usize = start;
    while i < hi
        invariant
            start <= i <= hi <= chars@.len(),
            2 <= radix <= 16,
            body == chars@.subrange(start as int, hi as int),
            s == chars@.subrange(lo as int, hi as int),
            s.len() > 0,
            s != seq!['+'] && s != seq!['-'],
            body == (if s[0] == '+' { s.drop_first() } else { s }),
            digits_value(body.subrange(0, i - start), radix as nat) == Some(value as nat),
            value <= 255,
        decreases hi - i,
    {
        let c = chars[i];
        let u: u32 = c as u32;
        let d: u32 = if 0x30 <= u && u <= 0x39 {
            u - 0x30
        } else if 0x61 <= u && u <= 0x7A {
            u - 0x61 + 10
        } else if 0x41 <= u && u <= 0x5A {
            u - 0x41 + 10
        } else {
            radix
        };
        let ghost prefix = body.subrange(0, i - start + 1);
        assert(prefix.drop_last() =~= body.subrange(0, i - start));
        assert(prefix.last() == c);
        if d >= radix {
            proof {
                assert(digit_value(c, radix as nat) is None);
                assert(digits_value(prefix, radix as nat) is None);
                lemma_digits_none(body, radix as nat, i - start + 1);
            }
            return None;
        }
        assert(digit_value(c, radix as nat) == Some(d as nat));
        assert(value * radix + d <= 255 * 16 + 16) by (nonlinear_arith)
            requires value <= 255, radix <= 16, d < 16;
        let next: u32 = value * radix + d;
        assert(digits_value(prefix, radix as nat) == Some(next as nat));
        if next > 255 {
            proof {
                assert(prefix == body.subrange(0, i - start + 1));
                lemma_digits_grow(body, radix as nat, i - start + 1);
            }
            return None;
        }
        value = next;
        i = i + 1;
    }
    assert(body.subrange(0, hi - start) =~= body);
    Some(value as u8)
}

} // verus!
