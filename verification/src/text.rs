//! Byte-level helpers shared by the text-processing modules.
//!
//! Text is handled as its UTF-8 encoding. A `&str` is read through
//! `as_bytes` (whose bytes are `encode_utf8` of its characters), and a
//! `String` is built from bytes that are proved to be valid UTF-8.

use vstd::prelude::*;
use vstd::utf8::*;
use vstd::string::*;

verus! {

broadcast use {
    vstd::utf8::encode_utf8_valid_utf8,
    vstd::utf8::decode_utf8_encode_utf8,
    vstd::utf8::encode_utf8_decode_utf8,
};

/// The UTF-8 encoding of a string's characters.
pub open spec fn utf8(chars: Seq<char>) -> Seq<u8> {
    encode_utf8(chars)
}

/// Builds a `String` with `std::string::String::from_utf8`.
/// Trusted: for valid UTF-8 input the call succeeds and yields the string
/// whose characters those bytes encode, as the standard library documents.
#[verifier::external_body]
pub fn string_from_utf8(bytes: Vec<u8>) -> (res: String)
    requires
        valid_utf8(bytes@),
    ensures
        res@ == decode_utf8(bytes@),
{
    String::from_utf8(bytes).unwrap()
}

/// Appends `src[start..end]` to `out`.
pub fn push_range(out: &mut Vec<u8>, src: &[u8], start: usize, end: usize)
    requires
        start <= end <= src@.len(),
    ensures
        final(out)@ == old(out)@ + src@.subrange(start as int, end as int),
{
    let slice = &src[start..end];
    out.extend_from_slice(slice);
}

/// A position inside `bytes` where a character starts (or the end).
pub open spec fn boundary(bytes: Seq<u8>, index: int) -> bool {
    is_char_boundary(bytes, index)
}

/// Checks whether `index` starts a character of `bytes`.
pub fn is_boundary(bytes: &[u8], index: usize) -> (res: bool)
    requires
        valid_utf8(bytes@),
    ensures
        res == boundary(bytes@, index as int),
{
    proof {
        is_char_boundary_start_end_of_seq(bytes@);
    }
    if index == 0 || index == bytes.len() {
        true
    } else if index > bytes.len() {
        proof {
            if is_char_boundary(bytes@, index as int) {
                lemma_boundary_in_bounds(bytes@, index as int);
            }
        }
        false
    } else {
        proof {
            is_char_boundary_iff_not_is_continuation_byte(bytes@, index as int);
        }
        let b = bytes[index];
        !(0x80 <= b && b <= 0xbf)
    }
}

/// A character boundary never lies past the end.
pub proof fn lemma_boundary_in_bounds(bytes: Seq<u8>, index: int)
    requires
        valid_utf8(bytes),
        is_char_boundary(bytes, index),
    ensures
        0 <= index <= bytes.len(),
    decreases bytes.len(),
{
    if index != 0 {
        if bytes.len() > 0 {
            lemma_boundary_in_bounds(pop_first_scalar(bytes), index - length_of_first_scalar(bytes));
        }
    }
}

/// Splitting at two boundaries gives valid UTF-8 in between.
pub proof fn lemma_valid_between(bytes: Seq<u8>, a: int, b: int)
    requires
        valid_utf8(bytes),
        boundary(bytes, a),
        boundary(bytes, b),
        a <= b,
    ensures
        valid_utf8(bytes.subrange(a, b)),
{
    lemma_boundary_in_bounds(bytes, a);
    lemma_boundary_in_bounds(bytes, b);
    valid_utf8_split(bytes, b);
    let head = bytes.subrange(0, b);
    assert(is_char_boundary(head, a)) by {
        lemma_boundary_prefix(bytes, b, a);
    }
    valid_utf8_split(head, a);
    assert(head.subrange(a, head.len() as int) =~= bytes.subrange(a, b));
}

/// A boundary of a text stays a boundary of any prefix that ends on a boundary.
pub proof fn lemma_boundary_prefix(bytes: Seq<u8>, end: int, index: int)
    requires
        valid_utf8(bytes),
        boundary(bytes, end),
        boundary(bytes, index),
        index <= end,
    ensures
        valid_utf8(bytes.subrange(0, end)),
        is_char_boundary(bytes.subrange(0, end), index),
{
    lemma_boundary_in_bounds(bytes, end);
    lemma_boundary_in_bounds(bytes, index);
    valid_utf8_split(bytes, end);
    let head = bytes.subrange(0, end);
    is_char_boundary_start_end_of_seq(head);
    if 0 < index < end {
        is_char_boundary_iff_not_is_continuation_byte(bytes, index);
        is_char_boundary_iff_not_is_continuation_byte(head, index);
    }
}

/// The position just after an ASCII byte is a character boundary.
pub proof fn lemma_after_ascii(bytes: Seq<u8>, i: int)
    requires
        valid_utf8(bytes),
        0 < i <= bytes.len(),
        bytes[i - 1] < 0x80,
    ensures
        boundary(bytes, i),
{
    is_char_boundary_start_end_of_seq(bytes);
    if i < bytes.len() {
        is_char_boundary_iff_not_is_continuation_byte(bytes, i - 1);
        valid_utf8_split(bytes, i - 1);
        let rest = bytes.subrange(i - 1, bytes.len() as int);
        assert(rest[0] == bytes[i - 1]);
        assert(pop_first_scalar(rest) =~= bytes.subrange(i, bytes.len() as int));
        let tail = bytes.subrange(i, bytes.len() as int);
        assert(tail[0] == bytes[i]);
        assert(valid_utf8(pop_first_scalar(rest)));
        assert(valid_first_scalar(tail));
        is_char_boundary_iff_not_is_continuation_byte(bytes, i);
    }
}

/// An ASCII byte starts a character.
pub proof fn lemma_ascii_is_boundary(bytes: Seq<u8>, i: int)
    requires
        valid_utf8(bytes),
        0 <= i < bytes.len(),
        bytes[i] < 0x80,
    ensures
        boundary(bytes, i),
{
    is_char_boundary_iff_not_is_continuation_byte(bytes, i);
}

/// Whether two byte strings are equal.
pub fn same_bytes(a: &[u8], b: &[u8]) -> (res: bool)
    ensures
        res == (a@ == b@),
{
    if a.len() != b.len() {
        return false;
    }
    let mut i: usize = 0;
    while i < a.len()
        invariant
            a@.len() == b@.len(),
            i <= a@.len(),
            forall|k: int| 0 <= k < i ==> a@[k] == b@[k],
        decreases a.len() - i,
    {
        if a[i] != b[i] {
            return false;
        }
        i = i + 1;
    }
    assert(a@ =~= b@);
    true
}

/// Whether the bytes spell the given string.
pub fn is_text(bytes: &[u8], text: &str) -> (res: bool)
    ensures
        res == (bytes@ == utf8(text@)),
{
    same_bytes(bytes, text.as_bytes())
}

/// A byte with ASCII letters lowered.
pub open spec fn lower(b: u8) -> u8 {
    if 65 <= b <= 90 {
        (b + 32) as u8
    } else {
        b
    }
}

/// The bytes with ASCII letters lowered.
pub open spec fn ascii_lower(s: Seq<u8>) -> Seq<u8> {
    Seq::new(s.len(), |i: int| lower(s[i]))
}

/// Lowers the ASCII letters of `s[a..b]`.
pub fn lowered(s: &[u8], a: usize, b: usize) -> (res: Vec<u8>)
    requires
        a <= b <= s@.len(),
    ensures
        res@ == ascii_lower(s@.subrange(a as int, b as int)),
{
    let mut res: Vec<u8> = Vec::new();
    let mut i = a;
    while i < b
        invariant
            a <= i <= b <= s@.len(),
            res@ == ascii_lower(s@.subrange(a as int, i as int)),
        decreases b - i,
    {
        let c = s[i];
        let l = if 65 <= c && c <= 90 {
            c + 32
        } else {
            c
        };
        res.push(l);
        assert(res@ =~= ascii_lower(s@.subrange(a as int, i + 1)));
        i = i + 1;
    }
    res
}

/// The text of `src[a..b]`, which starts and ends on character boundaries.
pub fn string_between(src: &[u8], a: usize, b: usize) -> (res: String)
    requires
        valid_utf8(src@),
        a <= b <= src@.len(),
        boundary(src@, a as int),
        boundary(src@, b as int),
    ensures
        utf8(res@) == src@.subrange(a as int, b as int),
{
    let mut bytes: Vec<u8> = Vec::new();
    push_range(&mut bytes, src, a, b);
    assert(bytes@ =~= src@.subrange(a as int, b as int));
    proof {
        lemma_valid_between(src@, a as int, b as int);
    }
    string_from_utf8(bytes)
}

/// Appends the UTF-8 encoding of `s` to `out`.
pub fn push_str(out: &mut Vec<u8>, s: &str)
    ensures
        final(out)@ == old(out)@ + utf8(s@),
{
    out.extend_from_slice(s.as_bytes());
}

/// Whether every byte is ASCII.
pub open spec fn all_ascii(s: Seq<u8>) -> bool {
    forall|i: int| 0 <= i < s.len() ==> #[trigger] s[i] < 0x80
}

/// ASCII bytes are valid UTF-8.
pub proof fn lemma_ascii_valid(s: Seq<u8>)
    requires
        all_ascii(s),
    ensures
        valid_utf8(s),
{
    assert(s.subrange(0, 0) =~= Seq::<u8>::empty());
    assert(valid_utf8(Seq::<u8>::empty()));
    assert forall|i: int| 0 <= 0 <= i < s.len() <= s.len() implies #[trigger] is_leading_byte_width_1(s[i]) by {
        assert(s[i] < 0x80);
    }
    partial_valid_utf8_extend_ascii_block(s, 0, s.len() as int);
    assert(s.subrange(0, s.len() as int) =~= s);
}

/// The decimal digits of `n`.
pub open spec fn decimal(n: nat) -> Seq<u8>
    decreases n,
{
    if n < 10 {
        seq![(48 + n) as u8]
    } else {
        decimal(n / 10).push((48 + n % 10) as u8)
    }
}

pub proof fn lemma_decimal_ascii(n: nat)
    ensures
        all_ascii(decimal(n)),
        decimal(n).len() >= 1,
    decreases n,
{
    if n >= 10 {
        lemma_decimal_ascii(n / 10);
    }
}

/// Appends the decimal digits of `n`.
pub fn push_decimal(out: &mut Vec<u8>, n: u64)
    ensures
        final(out)@ == old(out)@ + decimal(n as nat),
    decreases n,
{
    if n >= 10 {
        push_decimal(out, n / 10);
    }
    let d = (n % 10) as u8;
    out.push(48 + d);
    assert(final(out)@ =~= old(out)@ + decimal(n as nat));
}

/// Appends a character with `std::string::String::push`.
/// Trusted: the standard library documents that `push` appends the given
/// character to the end of the string.
#[verifier::external_body]
pub fn push_char(s: &mut String, c: char)
    ensures
        final(s)@ == old(s)@.push(c),
{
    s.push(c);
}

/// `char::is_whitespace`: the characters with Unicode's White_Space
/// property.
pub open spec fn is_space(c: char) -> bool {
    let v = c as u32;
    (9 <= v <= 13) || v == 32 || v == 0x85 || v == 0xa0 || v == 0x1680 || (0x2000 <= v
        <= 0x200a) || v == 0x2028 || v == 0x2029 || v == 0x202f || v == 0x205f || v == 0x3000
}

pub fn space_char(c: char) -> (res: bool)
    ensures
        res == is_space(c),
{
    let v = c as u32;
    (9 <= v && v <= 13) || v == 32 || v == 0x85 || v == 0xa0 || v == 0x1680 || (0x2000 <= v
        && v <= 0x200a) || v == 0x2028 || v == 0x2029 || v == 0x202f || v == 0x205f || v
        == 0x3000
}

/// The first index from `i` on (below `e`) that is not whitespace.
pub open spec fn skip_space(u: Seq<char>, i: int, e: int) -> int
    decreases e - i,
{
    if i < e && is_space(u[i]) {
        skip_space(u, i + 1, e)
    } else {
        i
    }
}

/// `u[a..e]` without its trailing characters for which `drop` holds, as an
/// end index.
pub open spec fn trim_end(u: Seq<char>, a: int, e: int, drop: spec_fn(char) -> bool) -> int
    decreases e - a,
{
    if e > a && drop(u[e - 1]) {
        trim_end(u, a, e - 1, drop)
    } else {
        e
    }
}

pub proof fn lemma_skip_space(u: Seq<char>, i: int, e: int)
    requires
        i <= e,
    ensures
        i <= skip_space(u, i, e) <= e,
    decreases e - i,
{
    if i < e && is_space(u[i]) {
        lemma_skip_space(u, i + 1, e);
    }
}

pub proof fn lemma_trim_end(u: Seq<char>, a: int, e: int, drop: spec_fn(char) -> bool)
    requires
        a <= e,
    ensures
        a <= trim_end(u, a, e, drop) <= e,
    decreases e - a,
{
    if e > a && drop(u[e - 1]) {
        lemma_trim_end(u, a, e - 1, drop);
    }
}


/// The characters of `s[a..e]` without whitespace at either end, as
/// `(start, end)`.
pub fn trimmed(s: &str, a: usize, e: usize) -> (res: (usize, usize))
    requires
        a <= e <= s@.len(),
    ensures
        res.0 == skip_space(s@, a as int, e as int),
        res.1 == trim_end(s@, res.0 as int, e as int, |c: char| is_space(c)),
        a <= res.0 <= res.1 <= e,
{
    proof {
        lemma_skip_space(s@, a as int, e as int);
    }
    let mut i = a;
    while i < e && space_char(s.get_char(i))
        invariant
            a <= i <= e <= s@.len(),
            skip_space(s@, i as int, e as int) == skip_space(s@, a as int, e as int),
        decreases e - i,
    {
        i = i + 1;
    }
    let mut k = e;
    while k > i && space_char(s.get_char(k - 1))
        invariant
            i <= k <= e <= s@.len(),
            trim_end(s@, i as int, k as int, |c: char| is_space(c)) == trim_end(
                s@,
                i as int,
                e as int,
                |c: char| is_space(c),
            ),
        decreases k,
    {
        k = k - 1;
    }
    (i, k)
}

/// Whether `u[a..e]` holds only the digits `0`–`9`.
pub open spec fn all_digit_chars(u: Seq<char>, a: int, e: int) -> bool {
    forall|k: int| a <= k < e ==> '0' <= #[trigger] u[k] <= '9'
}

/// The number the digits `u[a..e]` spell.
pub open spec fn digit_chars_value(u: Seq<char>, a: int, e: int) -> nat
    decreases e - a,
{
    if e <= a {
        0
    } else {
        digit_chars_value(u, a, e - 1) * 10 + (u[e - 1] as u32 - 48) as nat
    }
}

/// `usize::from_str` on `u[a..e]`: an optional `+` and at least one digit,
/// the value fitting in a `usize`.
pub open spec fn usize_of(u: Seq<char>, a: int, e: int) -> Option<usize> {
    let d = if a < e && u[a] == '+' {
        a + 1
    } else {
        a
    };
    if d >= e || !all_digit_chars(u, d, e) || digit_chars_value(u, d, e) > usize::MAX {
        None
    } else {
        Some(digit_chars_value(u, d, e) as usize)
    }
}

proof fn lemma_digit_chars_grow(u: Seq<char>, a: int, m: int, e: int)
    requires
        a <= m <= e,
        all_digit_chars(u, a, e),
    ensures
        digit_chars_value(u, a, m) <= digit_chars_value(u, a, e),
    decreases e - m,
{
    if m < e {
        lemma_digit_chars_grow(u, a, m, e - 1);
    }
}

/// Reads a `usize` from `s[a..e]` the way `str::parse` does.
pub fn parse_usize(s: &str, a: usize, e: usize) -> (res: Option<usize>)
    requires
        a <= e <= s@.len(),
    ensures
        res == usize_of(s@, a as int, e as int),
{
    let d = if a < e && s.get_char(a) == '+' {
        a + 1
    } else {
        a
    };
    if d >= e {
        return None;
    }
    let mut value: usize = 0;
    let mut k = d;
    while k < e
        invariant
            d <= k <= e <= s@.len(),
            d < e,
            d == if a < e && s@[a as int] == '+' {
                a + 1
            } else {
                a as int
            },
            all_digit_chars(s@, d as int, k as int),
            value == digit_chars_value(s@, d as int, k as int),
        decreases e - k,
    {
        let c = s.get_char(k);
        if !('0' <= c && c <= '9') {
            proof {
                assert(!('0' <= s@[k as int] <= '9'));
                assert(!all_digit_chars(s@, d as int, e as int));
            }
            return None;
        }
        let digit = (c as u32 - 48) as usize;
        proof {
            assert(digit_chars_value(s@, d as int, k + 1) == digit_chars_value(s@, d as int, k as int)
                * 10 + (s@[k as int] as u32 - 48) as nat);
            assert(all_digit_chars(s@, d as int, k + 1));
        }
        if value > (usize::MAX - digit) / 10 {
            proof {
                assert(value * 10 + digit > usize::MAX) by (nonlinear_arith)
                    requires
                        value > (usize::MAX - digit) / 10,
                        digit <= 9,
                ;
                if all_digit_chars(s@, d as int, e as int) {
                    lemma_digit_chars_grow(s@, d as int, k + 1, e as int);
                }
            }
            return None;
        }
        proof {
            assert(value * 10 + digit <= usize::MAX) by (nonlinear_arith)
                requires
                    value <= (usize::MAX - digit) / 10,
                    digit <= 9,
            ;
        }
        value = value * 10 + digit;
        k = k + 1;
    }
    Some(value)
}

/// The text that `bytes` encode, if they are valid UTF-8, with
/// `std::string::String::from_utf8`.
/// Trusted: the standard library documents that `from_utf8` fails exactly
/// when the bytes are not valid UTF-8, and otherwise keeps them as the
/// string's contents.
#[verifier::external_body]
pub fn checked_string(bytes: Vec<u8>) -> (res: Option<String>)
    ensures
        res is Some <==> valid_utf8(bytes@),
        res matches Some(s) ==> utf8(s@) == bytes@,
{
    String::from_utf8(bytes).ok()
}

/// Whether the characters `s[a..e]` are those of `t`.
pub fn spells_chars(s: &str, a: usize, e: usize, t: &str) -> (res: bool)
    requires
        a <= e <= s@.len(),
    ensures
        res == (s@.subrange(a as int, e as int) == t@),
{
    let m = t.unicode_len();
    if e - a != m {
        proof {
            assert(s@.subrange(a as int, e as int).len() != t@.len());
        }
        return false;
    }
    let mut k: usize = 0;
    while k < m
        invariant
            e - a == m == t@.len(),
            a <= e <= s@.len(),
            k <= m,
            forall|j: int| 0 <= j < k ==> s@[a + j] == t@[j],
        decreases m - k,
    {
        if s.get_char(a + k) != t.get_char(k) {
            proof {
                assert(s@.subrange(a as int, e as int)[k as int] != t@[k as int]);
            }
            return false;
        }
        k = k + 1;
    }
    assert(s@.subrange(a as int, e as int) =~= t@);
    true
}

} // verus!
