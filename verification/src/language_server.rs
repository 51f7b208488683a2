//! The parts of talking to a language server that are not I/O: file URIs
//! and the framing of messages.

use vstd::prelude::*;
use vstd::string::*;
use vstd::utf8::*;

use crate::shell::{digits, push_digits, push_text};
use crate::text::{
    all_ascii, all_digit_chars, checked_string, digit_chars_value, is_space, lemma_ascii_valid,
    parse_usize, push_str, skip_space, string_from_utf8, trim_end, trimmed, usize_of, utf8,
};
use crate::vim::engine::string_of;

verus! {

broadcast use {
    vstd::utf8::encode_utf8_valid_utf8,
    vstd::utf8::decode_utf8_encode_utf8,
    vstd::utf8::valid_utf8_concat,
};

/// The largest message read from a language server, in bytes.
pub const MAX_MESSAGE_BYTES: usize = 16777216;

/// A byte that a file URI keeps as it is: ASCII letters and digits and
/// `/ - . _ ~ :`.
pub open spec fn unreserved(b: u8) -> bool {
    (48 <= b <= 57) || (65 <= b <= 90) || (97 <= b <= 122) || b == 47 || b == 45 || b == 46
        || b == 95 || b == 126 || b == 58
}

/// An uppercase hexadecimal digit.
pub open spec fn hex_digit(v: u8) -> u8 {
    if v < 10 {
        (48 + v) as u8
    } else {
        (55 + v) as u8
    }
}

/// The URI form of the bytes `p[..k]`: kept bytes as they are, any other
/// byte as `%` and two uppercase hexadecimal digits.
pub open spec fn percent_encoded(p: Seq<u8>, k: int) -> Seq<u8>
    decreases k,
{
    if k <= 0 {
        Seq::empty()
    } else if unreserved(p[k - 1]) {
        percent_encoded(p, k - 1).push(p[k - 1])
    } else {
        percent_encoded(p, k - 1) + seq![37u8, hex_digit(p[k - 1] / 16), hex_digit(p[k - 1] % 16)]
    }
}

/// A path with `\` written as `/`.
pub open spec fn forward_slashes(p: Seq<u8>) -> Seq<u8> {
    Seq::new(p.len(), |i: int| if p[i] == 92 { 47u8 } else { p[i] })
}

/// The `file://` URI of a path.
pub open spec fn file_uri(p: Seq<u8>) -> Seq<u8> {
    utf8("file://"@) + percent_encoded(forward_slashes(p), p.len() as int)
}

/// The `file://` URI of a path (see [`file_uri`]).
pub fn uri(path: &str) -> (res: String)
    ensures
        utf8(res@) == file_uri(utf8(path@)),
{
    let p = path.as_bytes();
    let n = p.len();
    let ghost q = forward_slashes(p@);
    let mut out: Vec<u8> = Vec::new();
    let mut i: usize = 0;
    while i < n
        invariant
            n == p@.len(),
            q == forward_slashes(p@),
            i <= n,
            out@ == percent_encoded(q, i as int),
            all_ascii(out@),
        decreases n - i,
    {
        let b = if p[i] == 92 {
            47
        } else {
            p[i]
        };
        assert(b == q[i as int]);
        if (48 <= b && b <= 57) || (65 <= b && b <= 90) || (97 <= b && b <= 122) || b == 47 || b
            == 45 || b == 46 || b == 95 || b == 126 || b == 58 {
            out.push(b);
        } else {
            let hi = b / 16;
            let lo = b % 16;
            out.push(37);
            out.push(if hi < 10 {
                48 + hi
            } else {
                55 + hi
            });
            out.push(if lo < 10 {
                48 + lo
            } else {
                55 + lo
            });
        }
        i = i + 1;
        assert(out@ =~= percent_encoded(q, i as int));
    }
    let mut full: Vec<u8> = Vec::new();
    push_str(&mut full, "file://");
    let ghost head = full@;
    full.extend_from_slice(out.as_slice());
    proof {
        lemma_ascii_valid(out@);
        valid_utf8_concat(head, out@);
        assert(full@ =~= file_uri(p@));
    }
    string_from_utf8(full)
}

/// The value of a hexadecimal digit (either case).
pub open spec fn hex_value(b: u8) -> Option<u8> {
    if 48 <= b <= 57 {
        Some((b - 48) as u8)
    } else if 97 <= b <= 102 {
        Some((b - 87) as u8)
    } else if 65 <= b <= 70 {
        Some((b - 55) as u8)
    } else {
        None
    }
}

/// The bytes that `s[i..]` stands for, `%` and two hexadecimal digits
/// standing for one byte; none when a `%` is not followed by two digits.
pub open spec fn percent_decoded(s: Seq<u8>, i: int) -> Option<Seq<u8>>
    decreases s.len() - i,
{
    if i < 0 || i >= s.len() {
        Some(Seq::empty())
    } else if s[i] != 37 {
        match percent_decoded(s, i + 1) {
            Some(rest) => Some(seq![s[i]] + rest),
            None => None,
        }
    } else if i + 2 >= s.len() {
        None
    } else {
        match (hex_value(s[i + 1]), hex_value(s[i + 2]), percent_decoded(s, i + 3)) {
            (Some(hi), Some(lo), Some(rest)) => Some(seq![(hi * 16 + lo) as u8] + rest),
            _ => None,
        }
    }
}

/// The path a `file://` URI names: none without that prefix, with a bad
/// `%` escape, or when the bytes it stands for are not UTF-8.
pub open spec fn uri_path(u: Seq<u8>) -> Option<Seq<u8>> {
    let prefix = utf8("file://"@);
    if u.len() < prefix.len() || u.subrange(0, prefix.len() as int) != prefix {
        None
    } else {
        match percent_decoded(u, prefix.len() as int) {
            Some(b) => if valid_utf8(b) {
                Some(b)
            } else {
                None
            },
            None => None,
        }
    }
}

/// The URI form of one byte.
pub open spec fn encoded_byte(b: u8) -> Seq<u8> {
    if unreserved(b) {
        seq![b]
    } else {
        seq![37u8, hex_digit(b / 16), hex_digit(b % 16)]
    }
}

/// The URI form of the bytes `p[i..]`, read from the front.
pub open spec fn encoded_from(p: Seq<u8>, i: int) -> Seq<u8>
    decreases p.len() - i,
{
    if i < 0 || i >= p.len() {
        Seq::empty()
    } else {
        encoded_byte(p[i]) + encoded_from(p, i + 1)
    }
}

proof fn lemma_encoded_split(p: Seq<u8>, k: int)
    requires
        0 <= k <= p.len(),
    ensures
        percent_encoded(p, k) + encoded_from(p, k) == encoded_from(p, 0),
    decreases k,
{
    if k > 0 {
        lemma_encoded_split(p, k - 1);
        assert(percent_encoded(p, k) =~= percent_encoded(p, k - 1) + encoded_byte(p[k - 1]));
        assert(encoded_from(p, k - 1) =~= encoded_byte(p[k - 1]) + encoded_from(p, k));
        assert(percent_encoded(p, k) + encoded_from(p, k) =~= percent_encoded(p, k - 1) + encoded_from(
            p,
            k - 1,
        ));
    }
}

proof fn lemma_decode_encoded(s: Seq<u8>, j: int, p: Seq<u8>, i: int)
    requires
        0 <= j <= s.len(),
        0 <= i <= p.len(),
        s.subrange(j, s.len() as int) == encoded_from(p, i),
    ensures
        percent_decoded(s, j) == Some(p.subrange(i, p.len() as int)),
    decreases p.len() - i,
{
    if i == p.len() {
        assert(s.subrange(j, s.len() as int).len() == 0);
        assert(p.subrange(i, p.len() as int) =~= Seq::<u8>::empty());
    } else {
        let b = p[i];
        let rest = encoded_from(p, i + 1);
        assert(encoded_from(p, i) == encoded_byte(b) + rest);
        let w = encoded_byte(b).len() as int;
        assert(s.subrange(j + w, s.len() as int) =~= rest) by {
            assert(s.subrange(j + w, s.len() as int) =~= s.subrange(j, s.len() as int).subrange(
                w,
                s.len() - j,
            ));
        }
        assert(s[j] == encoded_byte(b)[0]) by {
            assert(s[j] == s.subrange(j, s.len() as int)[0]);
        }
        lemma_decode_encoded(s, j + w, p, i + 1);
        assert(p.subrange(i, p.len() as int) =~= seq![b] + p.subrange(i + 1, p.len() as int));
        if !unreserved(b) {
            assert(s[j + 1] == s.subrange(j, s.len() as int)[1]);
            assert(s[j + 2] == s.subrange(j, s.len() as int)[2]);
            assert((b / 16) * 16 + b % 16 == b) by (nonlinear_arith);
            assert(((b / 16) * 16 + b % 16) as u8 == b);
        }
    }
}

/// A path written as a `file://` URI reads back as the same path, unless
/// it holds a backslash, which the URI writes as a slash.
pub proof fn lemma_uri_round_trip(p: Seq<u8>)
    requires
        valid_utf8(p),
        !p.contains(92u8),
    ensures
        uri_path(file_uri(p)) == Some(p),
{
    let prefix = utf8("file://"@);
    assert(forward_slashes(p) =~= p) by {
        assert forall|i: int| 0 <= i < p.len() implies #[trigger] forward_slashes(p)[i] == p[i] by {
            if p[i] == 92 {
                assert(p.contains(92u8));
            }
        }
    }
    lemma_encoded_split(p, p.len() as int);
    assert(encoded_from(p, p.len() as int) =~= Seq::<u8>::empty());
    let u = file_uri(p);
    assert(u == prefix + encoded_from(p, 0));
    assert(u.subrange(0, prefix.len() as int) =~= prefix);
    assert(u.subrange(prefix.len() as int, u.len() as int) =~= encoded_from(p, 0));
    lemma_decode_encoded(u, prefix.len() as int, p, 0);
    assert(p.subrange(0, p.len() as int) =~= p);
}

fn hex_of(b: u8) -> (res: Option<u8>)
    ensures
        res == hex_value(b),
{
    if 48 <= b && b <= 57 {
        Some(b - 48)
    } else if 97 <= b && b <= 102 {
        Some(b - 87)
    } else if 65 <= b && b <= 70 {
        Some(b - 55)
    } else {
        None
    }
}

/// The path a `file://` URI names (see [`uri_path`]).
pub fn path_from_uri(uri: &str) -> (res: Option<String>)
    ensures
        match uri_path(utf8(uri@)) {
            Some(p) => res matches Some(s) && utf8(s@) == p,
            None => res is None,
        },
{
    let u = uri.as_bytes();
    let n = u.len();
    let prefix = "file://".as_bytes();
    let m = prefix.len();
    if n < m {
        return None;
    }
    let head = &u[0..m];
    assert(head@ == u@.subrange(0, m as int));
    if !crate::text::same_bytes(head, prefix) {
        return None;
    }
    let mut out: Vec<u8> = Vec::new();
    let mut i = m;
    while i < n
        invariant
            n == u@.len(),
            m <= i <= n,
            m == utf8("file://"@).len(),
            u@ == utf8(uri@),
            u@.subrange(0, m as int) == utf8("file://"@),
            percent_decoded(u@, m as int) == match percent_decoded(u@, i as int) {
                Some(r) => Some(out@ + r),
                None => None::<Seq<u8>>,
            },
        decreases n - i,
    {
        let b = u[i];
        if b != 37 {
            out.push(b);
            i = i + 1;
            proof {
                let ghost prev = out@.drop_last();
                match percent_decoded(u@, i as int) {
                    Some(r) => {
                        assert(prev + (seq![b] + r) =~= out@ + r);
                    },
                    None => {},
                }
            }
        } else {
            if n - i <= 2 {
                return None;
            }
            let hi = match hex_of(u[i + 1]) {
                None => return None,
                Some(h) => h,
            };
            let lo = match hex_of(u[i + 2]) {
                None => return None,
                Some(l) => l,
            };
            let ghost prev = out@;
            out.push(hi * 16 + lo);
            i = i + 3;
            proof {
                match percent_decoded(u@, i as int) {
                    Some(r) => {
                        assert(prev + (seq![(hi * 16 + lo) as u8] + r) =~= out@ + r);
                    },
                    None => {},
                }
            }
        }
    }
    assert(out@ + Seq::<u8>::empty() =~= out@);
    checked_string(out)
}

/// How a header line of a language server message changes what is known
/// of the message: whether the headers end here, and the content length
/// read so far (`Content-Length:` and a number after trimming, or unknown
/// when that number does not parse).
pub open spec fn header_step(line: Seq<char>, length: Option<usize>) -> (bool, Option<usize>) {
    let n = line.len() as int;
    let a = skip_space(line, 0, n);
    let e = trim_end(line, a, n, |c: char| is_space(c));
    let key = "Content-Length:"@;
    if a == e {
        (true, length)
    } else if e - a >= key.len() && line.subrange(a, a + key.len()) == key {
        let v = skip_space(line, a + key.len(), e);
        let w = trim_end(line, v, e, |c: char| is_space(c));
        (false, usize_of(line, v, w))
    } else {
        (false, length)
    }
}

/// Reads one header line of a language server message (see
/// [`header_step`]).
pub fn read_header(line: &str, length: Option<usize>) -> (res: (bool, Option<usize>))
    ensures
        res == header_step(line@, length),
{
    let n = line.unicode_len();
    let (a, e) = trimmed(line, 0, n);
    if a == e {
        return (true, length);
    }
    let key = "Content-Length:";
    proof {
        reveal_strlit("Content-Length:");
    }
    let k = key.unicode_len();
    if e - a >= k && crate::text::spells_chars(line, a, a + k, key) {
        let (v, w) = trimmed(line, a + k, e);
        (false, parse_usize(line, v, w))
    } else {
        (false, length)
    }
}

/// Why a message cannot be read.
#[derive(Clone, Copy, Debug, PartialEq, Eq, Structural)]
pub enum FrameError {
    MissingLength,
    TooLarge,
}

impl FrameError {
    /// The message shown for the error.
    pub fn message(self) -> (res: &'static str)
        ensures
            res@ == match self {
                FrameError::MissingLength => "Missing LSP Content-Length"@,
                FrameError::TooLarge => "LSP message too large"@,
            },
    {
        match self {
            FrameError::MissingLength => "Missing LSP Content-Length",
            FrameError::TooLarge => "LSP message too large",
        }
    }
}

/// The length of the content to read once the headers are read: it must
/// be known and at most [`MAX_MESSAGE_BYTES`].
pub fn content_length(length: Option<usize>) -> (res: Result<usize, FrameError>)
    ensures
        match length {
            None => res == Err::<usize, FrameError>(FrameError::MissingLength),
            Some(n) => if n > MAX_MESSAGE_BYTES {
                res == Err::<usize, FrameError>(FrameError::TooLarge)
            } else {
                res == Ok::<usize, FrameError>(n)
            },
        },
{
    match length {
        None => Err(FrameError::MissingLength),
        Some(n) => if n > MAX_MESSAGE_BYTES {
            Err(FrameError::TooLarge)
        } else {
            Ok(n)
        },
    }
}

/// The first line of the header of a message of `length` bytes.
pub open spec fn header_line(length: nat) -> Seq<char> {
    "Content-Length: "@ + digits(length) + "\r\n"@
}

/// The header written before a message of `length` bytes: its first line
/// and the empty line that ends the headers.
pub open spec fn frame_text(length: nat) -> Seq<char> {
    header_line(length) + "\r\n"@
}

/// The header written before a message of `length` bytes (see
/// [`frame_text`]).
pub fn frame_header(length: usize) -> (res: String)
    ensures
        res@ == frame_text(length as nat),
{
    let mut out: Vec<char> = Vec::new();
    push_text(&mut out, "Content-Length: ");
    push_digits(&mut out, length);
    push_text(&mut out, "\r\n");
    push_text(&mut out, "\r\n");
    assert(out@ =~= frame_text(length as nat));
    string_of(&out)
}

proof fn lemma_digits_value(u: Seq<char>, a: int, n: nat)
    requires
        0 <= a,
        a + digits(n).len() <= u.len(),
        u.subrange(a, a + digits(n).len()) == digits(n),
    ensures
        digits(n).len() >= 1,
        all_digit_chars(u, a, a + digits(n).len()),
        digit_chars_value(u, a, a + digits(n).len()) == n,
        forall|k: int| 0 <= k < digits(n).len() ==> '0' <= #[trigger] digits(n)[k] <= '9',
    decreases n,
{
    let l = digits(n).len() as int;
    if n < 10 {
        assert(u[a] == u.subrange(a, a + l)[0]);
        assert(digit_chars_value(u, a, a) == 0);
    } else {
        let m = n / 10;
        let lm = digits(m).len() as int;
        assert(digits(n) == digits(m).push((48 + n % 10) as char));
        assert(u.subrange(a, a + lm) =~= u.subrange(a, a + l).subrange(0, lm));
        assert(digits(n).subrange(0, lm) =~= digits(m));
        lemma_digits_value(u, a, m);
        assert(u[a + lm] == u.subrange(a, a + l)[lm]);
        assert(m * 10 + n % 10 == n) by (nonlinear_arith)
            requires
                m == n / 10,
        ;
        assert forall|k: int| 0 <= k < l implies '0' <= #[trigger] digits(n)[k] <= '9' by {
            if k < lm {
                assert(digits(n)[k] == digits(m)[k]);
            }
        }
        assert forall|k: int| a <= k < a + l implies '0' <= #[trigger] u[k] <= '9' by {
            assert(u[k] == u.subrange(a, a + l)[k - a]);
        }
    }
}

/// A message's header reads back as the length it was written with: its
/// first line gives the length, and the empty line after it ends the
/// headers.
pub proof fn lemma_frame_header_read_back(length: usize)
    ensures
        frame_text(length as nat) == header_line(length as nat) + "\r\n"@,
        header_step(header_line(length as nat), None) == (false, Some(length)),
        header_step("\r\n"@, Some(length)) == (true, Some(length)),
{
    reveal_strlit("Content-Length: ");
    reveal_strlit("Content-Length:");
    reveal_strlit("\r\n");
    let d = digits(length as nat);
    let line = header_line(length as nat);
    let n = line.len() as int;
    let k = d.len() as int;
    assert(n == 16 + k + 2);
    assert(line.subrange(16, 16 + k) =~= d);
    lemma_digits_value(line, 16, length as nat);
    assert(line[16] == d[0]);
    assert(line[16 + k - 1] == d[k - 1]);
    assert(line[0] == 'C');
    assert(skip_space(line, 0, n) == 0);
    let sp = |c: char| is_space(c);
    assert(line[n - 1] == '\n');
    assert(line[n - 2] == '\r');
    assert(trim_end(line, 0, n, sp) == trim_end(line, 0, n - 1, sp));
    assert(trim_end(line, 0, n - 1, sp) == trim_end(line, 0, n - 2, sp));
    assert(trim_end(line, 0, n - 2, sp) == n - 2);
    assert(line.subrange(0, 15) =~= "Content-Length:"@);
    assert(line[15] == ' ');
    assert(skip_space(line, 15, n - 2) == skip_space(line, 16, n - 2));
    assert(skip_space(line, 16, n - 2) == 16);
    assert(trim_end(line, 16, n - 2, sp) == n - 2);
    assert(usize_of(line, 16, n - 2) == Some(length));
    let blank = "\r\n"@;
    assert(skip_space(blank, 0, 2) == skip_space(blank, 1, 2));
    assert(skip_space(blank, 1, 2) == skip_space(blank, 2, 2));
    assert(trim_end(blank, 2, 2, sp) == 2);
    assert(frame_text(length as nat) == line + "\r\n"@);
}

} // verus!
