//! Character-level helpers shared by the preprocessor, the parser and the VM:
//! character classes, ASCII lowercasing, decimal formatting and parsing, and
//! conversion between `&str`/`String` and vectors of characters.

use vstd::prelude::*;

verus! {

// ---------------------------------------------------------------------------
// Character classes
// ---------------------------------------------------------------------------

pub open spec fn is_ascii_digit(c: char) -> bool {
    '0' <= c && c <= '9'
}

pub open spec fn is_ascii_alpha(c: char) -> bool {
    ('a' <= c && c <= 'z') || ('A' <= c && c <= 'Z')
}

/// Space or tab: the `[[:blank:]]` class.
pub open spec fn is_blank(c: char) -> bool {
    c == ' ' || c == '\t'
}

/// The Unicode `White_Space` property: the `\s` class.
pub open spec fn is_white_space(c: char) -> bool {
    ||| ('\u{9}' <= c && c <= '\u{d}')
    ||| c == ' '
    ||| c == '\u{85}'
    ||| c == '\u{a0}'
    ||| c == '\u{1680}'
    ||| ('\u{2000}' <= c && c <= '\u{200a}')
    ||| c == '\u{2028}'
    ||| c == '\u{2029}'
    ||| c == '\u{202f}'
    ||| c == '\u{205f}'
    ||| c == '\u{3000}'
}

pub open spec fn lower_char(c: char) -> char {
    if 'A' <= c && c <= 'Z' {
        ((c as u32) + 32) as char
    } else {
        c
    }
}

pub open spec fn lower_chars(s: Seq<char>) -> Seq<char> {
    s.map_values(|c: char| lower_char(c))
}

pub fn char_is_digit(c: char) -> (r: bool)
    ensures
        r == is_ascii_digit(c),
{
    '0' <= c && c <= '9'
}

pub fn char_is_alpha(c: char) -> (r: bool)
    ensures
        r == is_ascii_alpha(c),
{
    ('a' <= c && c <= 'z') || ('A' <= c && c <= 'Z')
}

pub fn char_is_blank(c: char) -> (r: bool)
    ensures
        r == is_blank(c),
{
    c == ' ' || c == '\t'
}

pub fn char_is_white_space(c: char) -> (r: bool)
    ensures
        r == is_white_space(c),
{
    ('\u{9}' <= c && c <= '\u{d}') || c == ' ' || c == '\u{85}' || c == '\u{a0}' || c
        == '\u{1680}' || ('\u{2000}' <= c && c <= '\u{200a}') || c == '\u{2028}' || c
        == '\u{2029}' || c == '\u{202f}' || c == '\u{205f}' || c == '\u{3000}'
}

pub fn char_to_lower(c: char) -> (r: char)
    ensures
        r == lower_char(c),
{
    if 'A' <= c && c <= 'Z' {
        let b: u8 = c as u8;
        assert(b as u32 == c as u32);
        let l: u8 = b + 32;
        l as char
    } else {
        c
    }
}

pub fn chars_to_lower(s: &Vec<char>) -> (r: Vec<char>)
    ensures
        r@ == lower_chars(s@),
{
    let mut r: Vec<char> = Vec::new();
    let mut i: usize = 0;
    while i < s.len()
        invariant
            i <= s.len(),
            r@ == lower_chars(s@.subrange(0, i as int)),
        decreases s.len() - i,
    {
        r.push(char_to_lower(s[i]));
        assert(lower_chars(s@.subrange(0, i + 1)) =~= lower_chars(s@.subrange(0, i as int)).push(
            lower_char(s@[i as int]),
        ));
        i = i + 1;
    }
    assert(s@.subrange(0, s.len() as int) =~= s@);
    r
}

// ---------------------------------------------------------------------------
// Strings and vectors of characters
// ---------------------------------------------------------------------------

/// The characters of a string slice, in order.
pub fn str_chars(s: &str) -> (v: Vec<char>)
    ensures
        v@ == s@,
{
    let mut v: Vec<char> = Vec::new();
    let n = s.unicode_len();
    let mut i: usize = 0;
    while i < n
        invariant
            n == s@.len(),
            i <= n,
            v@ == s@.subrange(0, i as int),
        decreases n - i,
    {
        v.push(s.get_char(i));
        i = i + 1;
    }
    v
}

/// Appends one character to a `String` (`String::push`).
#[verifier::external_body]
pub(crate) fn string_push(s: &mut String, c: char)
    ensures
        final(s)@ == old(s)@.push(c),
{
    s.push(c)
}

/// A `String` holding exactly the given characters.
pub fn string_from_chars(v: &Vec<char>) -> (s: String)
    ensures
        s@ == v@,
{
    let mut s = String::new();
    let mut i: usize = 0;
    while i < v.len()
        invariant
            i <= v.len(),
            s@ == v@.subrange(0, i as int),
        decreases v.len() - i,
    {
        string_push(&mut s, v[i]);
        assert(v@.subrange(0, i + 1) =~= v@.subrange(0, i as int).push(v@[i as int]));
        i = i + 1;
    }
    assert(v@.subrange(0, v.len() as int) =~= v@);
    s
}

/// Compares a string with a string slice, character by character.
pub fn string_eq_str(s: &String, t: &str) -> (r: bool)
    ensures
        r == (s@ == t@),
{
    let a = str_chars(s.as_str());
    let b = str_chars(t);
    chars_eq(&a, &b)
}

pub fn chars_eq(a: &Vec<char>, b: &Vec<char>) -> (r: bool)
    ensures
        r == (a@ == b@),
{
    if a.len() != b.len() {
        return false;
    }
    let mut i: usize = 0;
    while i < a.len()
        invariant
            a.len() == b.len(),
            i <= a.len(),
            a@.subrange(0, i as int) == b@.subrange(0, i as int),
        decreases a.len() - i,
    {
        if a[i] != b[i] {
            assert(a@[i as int] != b@[i as int]);
            return false;
        }
        assert(a@.subrange(0, i + 1) =~= a@.subrange(0, i as int).push(a@[i as int]));
        assert(b@.subrange(0, i + 1) =~= b@.subrange(0, i as int).push(b@[i as int]));
        i = i + 1;
    }
    assert(a@ =~= a@.subrange(0, i as int));
    assert(b@ =~= b@.subrange(0, i as int));
    true
}

pub fn copy_string(s: &String) -> (r: String)
    ensures
        r@ == s@,
{
    s.clone()
}

// ---------------------------------------------------------------------------
// Decimal notation
// ---------------------------------------------------------------------------

pub open spec fn digit_char(d: nat) -> char {
    (('0' as u32) + d) as char
}

pub open spec fn digit_value(c: char) -> nat {
    ((c as u32) - ('0' as u32)) as nat
}

/// The decimal digits of `n`, most significant first, without leading zeros.
pub open spec fn nat_decimal(n: nat) -> Seq<char>
    decreases n,
{
    if n < 10 {
        seq![digit_char(n)]
    } else {
        nat_decimal(n / 10).push(digit_char(n % 10))
    }
}

/// Decimal notation of an integer, with a leading `-` when negative.
pub open spec fn int_decimal(i: int) -> Seq<char> {
    if i < 0 {
        seq!['-'] + nat_decimal((-i) as nat)
    } else {
        nat_decimal(i as nat)
    }
}

/// Value of a sequence of decimal digits, most significant first.
pub open spec fn digits_value(s: Seq<char>) -> nat
    decreases s.len(),
{
    if s.len() == 0 {
        0
    } else {
        digits_value(s.drop_last()) * 10 + digit_value(s.last())
    }
}

pub open spec fn all_digits(s: Seq<char>) -> bool {
    forall|i: int| 0 <= i < s.len() ==> is_ascii_digit(#[trigger] s[i])
}

/// The rules of `i32::from_str`: an optional `+` or `-`, then at least one
/// ASCII digit, and a value that fits in an `i32`.
pub open spec fn parse_i32(s: Seq<char>) -> Option<i32> {
    let neg = s.len() > 0 && s[0] == '-';
    let signed = s.len() > 0 && (s[0] == '-' || s[0] == '+');
    let ds = if signed { s.drop_first() } else { s };
    if ds.len() == 0 || !all_digits(ds) {
        None
    } else {
        let v: int = if neg { -(digits_value(ds) as int) } else { digits_value(ds) as int };
        if i32::MIN <= v <= i32::MAX {
            Some(v as i32)
        } else {
            None
        }
    }
}

/// The rules of `i16::from_str` on a run of ASCII digits.
pub open spec fn parse_i16_digits(s: Seq<char>) -> Option<i16> {
    if s.len() == 0 || !all_digits(s) || digits_value(s) > i16::MAX {
        None
    } else {
        Some(digits_value(s) as i16)
    }
}

proof fn lemma_digits_value_prefix_le(s: Seq<char>, i: int)
    requires
        0 <= i <= s.len(),
    ensures
        digits_value(s.subrange(0, i)) <= digits_value(s),
    decreases s.len() - i,
{
    if i < s.len() {
        lemma_digits_value_prefix_le(s, i + 1);
        assert(s.subrange(0, i + 1).drop_last() =~= s.subrange(0, i));
    } else {
        assert(s.subrange(0, i) =~= s);
    }
}

/// Parses `s[start..end]` as a run of ASCII digits: its value, or `None` when it is
/// larger than `limit`.
pub fn digits_up_to(s: &Vec<char>, start: usize, end: usize, limit: u64) -> (r: Option<u64>)
    requires
        start <= end <= s.len(),
        all_digits(s@.subrange(start as int, end as int)),
        limit <= 0x1_0000_0000,
    ensures
        r matches Some(v) ==> v == digits_value(s@.subrange(start as int, end as int)) && v
            <= limit,
        r is None ==> digits_value(s@.subrange(start as int, end as int)) > limit,
{
    let ghost ds = s@.subrange(start as int, end as int);
    let mut acc: u64 = 0;
    let mut i: usize = start;
    while i < end
        invariant
            start <= i <= end <= s.len(),
            ds == s@.subrange(start as int, end as int),
            all_digits(ds),
            acc == digits_value(ds.subrange(0, i - start)),
            acc <= limit,
            limit <= 0x1_0000_0000,
        decreases end - i,
    {
        let c = s[i];
        assert(ds[i - start] == c);
        let d: u64 = (c as u32 - '0' as u32) as u64;
        assert(ds.subrange(0, i - start + 1).drop_last() =~= ds.subrange(0, i - start));
        let next = acc * 10 + d;
        if next > limit {
            proof {
                lemma_digits_value_prefix_le(ds, i - start + 1);
            }
            return None;
        }
        acc = next;
        i = i + 1;
    }
    assert(ds.subrange(0, end - start) =~= ds);
    Some(acc)
}

/// `i32::from_str` on `s[start..end]`.
pub fn parse_i32_range(s: &Vec<char>, start: usize, end: usize) -> (r: Option<i32>)
    requires
        start <= end <= s.len(),
    ensures
        r == parse_i32(s@.subrange(start as int, end as int)),
{
    let ghost t = s@.subrange(start as int, end as int);
    if start == end {
        return None;
    }
    assert(t.len() > 0 && t[0] == s@[start as int]);
    let neg = s[start] == '-';
    let signed = s[start] == '-' || s[start] == '+';
    let ds_start = if signed { start + 1 } else { start };
    let ghost ds = if signed { t.drop_first() } else { t };
    assert(ds =~= s@.subrange(ds_start as int, end as int));
    if ds_start == end {
        return None;
    }
    let mut i = ds_start;
    while i < end
        invariant
            ds_start <= i <= end <= s.len(),
            ds == s@.subrange(ds_start as int, end as int),
            t == s@.subrange(start as int, end as int),
            t.len() > 0,
            signed == (t[0] == '-' || t[0] == '+'),
            ds == if signed { t.drop_first() } else { t },
            forall|j: int| ds_start <= j < i ==> is_ascii_digit(#[trigger] s@[j]),
        decreases end - i,
    {
        if !char_is_digit(s[i]) {
            assert(ds[i - ds_start] == s@[i as int]);
            assert(!all_digits(ds));
            return None;
        }
        i = i + 1;
    }
    assert(all_digits(ds)) by {
        assert forall|j: int| 0 <= j < ds.len() implies is_ascii_digit(#[trigger] ds[j]) by {
            assert(ds[j] == s@[ds_start + j]);
        }
    }
    let limit: u64 = if neg { 0x8000_0000 } else { 0x7fff_ffff };
    match digits_up_to(s, ds_start, end, limit) {
        None => None,
        Some(v) => {
            if neg {
                let r: i64 = -(v as i64);
                Some(r as i32)
            } else {
                Some(v as i32)
            }
        },
    }
}

/// Decimal notation of an unsigned value.
pub fn u64_decimal(n: u64) -> (r: Vec<char>)
    ensures
        r@ == nat_decimal(n as nat),
    decreases n,
{
    if n < 10 {
        let c = ((n as u8) + ('0' as u8)) as char;
        assert(c == digit_char(n as nat));
        vec![c]
    } else {
        let mut r = u64_decimal(n / 10);
        let d: u64 = n % 10;
        let c = ((d as u8) + ('0' as u8)) as char;
        assert(c == digit_char((n % 10) as nat));
        r.push(c);
        r
    }
}

/// Decimal notation of a signed value.
pub fn i64_decimal(i: i64) -> (r: Vec<char>)
    requires
        i > i64::MIN,
    ensures
        r@ == int_decimal(i as int),
{
    if i < 0 {
        let m: u64 = (-i) as u64;
        let mut r: Vec<char> = vec!['-'];
        let mut d = u64_decimal(m);
        r.append(&mut d);
        r
    } else {
        u64_decimal(i as u64)
    }
}

} // verus!
