//! Keyboard input encoding, following xterm's conventions.

use vstd::prelude::*;

use crate::text::{decimal, is_text, push_decimal, push_str, utf8};

verus! {

/// Modifier keys held with a key press.
#[derive(Clone, Copy, Debug, PartialEq, Eq, Structural)]
pub struct Modifiers {
    pub control: bool,
    pub alt: bool,
    pub shift: bool,
}

impl Default for Modifiers {
    fn default() -> (res: Self)
        ensures
            res == (Modifiers { control: false, alt: false, shift: false }),
    {
        Modifiers { control: false, alt: false, shift: false }
    }
}

/// xterm's modifier parameter: 1 + Shift + 2 × Alt + 4 × Control.
pub open spec fn parameter(m: Modifiers) -> u8 {
    (1 + (if m.shift {
        1int
    } else {
        0
    }) + (if m.alt {
        2int
    } else {
        0
    }) + (if m.control {
        4int
    } else {
        0
    })) as u8
}

/// `ESC [`.
pub open spec fn csi() -> Seq<u8> {
    seq![27u8, 91u8]
}

/// A cursor key ending in `end`: with modifiers `ESC [ 1 ; p end`, else
/// `ESC O end` in application cursor mode and `ESC [ end` otherwise.
pub open spec fn cursor_keys(p: u8, app_cursor: bool, end: u8) -> Seq<u8> {
    if p > 1 {
        csi() + seq![49u8, 59u8] + decimal(p as nat) + seq![end]
    } else if app_cursor {
        seq![27u8, 79u8, end]
    } else {
        csi() + seq![end]
    }
}

/// One of F1–F4, ending in `end`: `ESC [ 1 ; p end` with modifiers, else
/// `ESC O end`.
pub open spec fn function_keys(p: u8, end: u8) -> Seq<u8> {
    if p > 1 {
        csi() + seq![49u8, 59u8] + decimal(p as nat) + seq![end]
    } else {
        seq![27u8, 79u8, end]
    }
}

/// A key sent as `ESC [ code ~`, or `ESC [ code ; p ~` with modifiers.
pub open spec fn tilde_keys(p: u8, code: u8) -> Seq<u8> {
    if p > 1 {
        csi() + decimal(code as nat) + seq![59u8] + decimal(p as nat) + seq![126u8]
    } else {
        csi() + decimal(code as nat) + seq![126u8]
    }
}

/// Bytes sent as they are, after `ESC` when Alt is held.
pub open spec fn meta(alt: bool, bytes: Seq<u8>) -> Seq<u8> {
    if alt {
        seq![27u8] + bytes
    } else {
        bytes
    }
}

/// The C0 control code that Control with the key `k` sends, as in xterm:
/// letters give 1–26, and `@`/`2`, `[`/`3`, `\`/`4`, `]`/`5`, `^`/`6`,
/// `_`/`-`/`/`/`7` and `?`/`8` the codes around them; `space` gives 0.
pub open spec fn control_code_of(k: Seq<u8>) -> Option<u8> {
    if k.len() != 1 {
        if k == utf8("space"@) {
            Some(0)
        } else {
            None
        }
    } else {
        let b = k[0];
        if 97 <= b <= 122 {
            Some((b - 96) as u8)
        } else if b == 64 || b == 50 {
            Some(0)
        } else if b == 91 || b == 51 {
            Some(27)
        } else if b == 92 || b == 52 {
            Some(28)
        } else if b == 93 || b == 53 {
            Some(29)
        } else if b == 94 || b == 54 {
            Some(30)
        } else if b == 95 || b == 45 || b == 47 || b == 55 {
            Some(31)
        } else if b == 63 || b == 56 {
            Some(127)
        } else {
            None
        }
    }
}

/// The bytes a key press sends to the terminal, or `None` when the key is
/// left to text input. `k` is the key's name, `text` the text it types.
/// Control with Alt (AltGr on Windows) types characters, and so does
/// Option on macOS (`macos`), so those are left to text input.
pub open spec fn key_bytes(
    k: Seq<u8>,
    text: Option<Seq<u8>>,
    m: Modifiers,
    app_cursor: bool,
    macos: bool,
) -> Option<Seq<u8>> {
    let p = parameter(m);
    if k == utf8("up"@) {
        Some(cursor_keys(p, app_cursor, 65))    } else if k == utf8("down"@) {
        Some(cursor_keys(p, app_cursor, 66))    } else if k == utf8("right"@) {
        Some(cursor_keys(p, app_cursor, 67))    } else if k == utf8("left"@) {
        Some(cursor_keys(p, app_cursor, 68))    } else if k == utf8("home"@) {
        Some(cursor_keys(p, app_cursor, 72))    } else if k == utf8("end"@) {
        Some(cursor_keys(p, app_cursor, 70))    } else if k == utf8("insert"@) {
        Some(tilde_keys(p, 2))    } else if k == utf8("delete"@) {
        Some(tilde_keys(p, 3))    } else if k == utf8("pageup"@) {
        Some(tilde_keys(p, 5))    } else if k == utf8("pagedown"@) {
        Some(tilde_keys(p, 6))    } else if k == utf8("f1"@) {
        Some(function_keys(p, 80))    } else if k == utf8("f2"@) {
        Some(function_keys(p, 81))    } else if k == utf8("f3"@) {
        Some(function_keys(p, 82))    } else if k == utf8("f4"@) {
        Some(function_keys(p, 83))    } else if k == utf8("f5"@) {
        Some(tilde_keys(p, 15))    } else if k == utf8("f6"@) {
        Some(tilde_keys(p, 17))    } else if k == utf8("f7"@) {
        Some(tilde_keys(p, 18))    } else if k == utf8("f8"@) {
        Some(tilde_keys(p, 19))    } else if k == utf8("f9"@) {
        Some(tilde_keys(p, 20))    } else if k == utf8("f10"@) {
        Some(tilde_keys(p, 21))    } else if k == utf8("f11"@) {
        Some(tilde_keys(p, 23))    } else if k == utf8("f12"@) {
        Some(tilde_keys(p, 24))
    } else if k == utf8("tab"@) && m.shift {
        Some(csi() + seq![90u8])
    } else if k == utf8("tab"@) {
        Some(meta(m.alt, seq![9u8]))
    } else if k == utf8("enter"@) {
        Some(meta(m.alt, seq![13u8]))
    } else if k == utf8("escape"@) {
        Some(meta(m.alt, seq![27u8]))
    } else if k == utf8("backspace"@) && m.control {
        Some(meta(m.alt, seq![8u8]))
    } else if k == utf8("backspace"@) {
        Some(meta(m.alt, seq![127u8]))
    } else if m.control && !m.alt {
        match control_code_of(k) {
            Some(c) => Some(seq![c]),
            None => None,
        }
    } else if m.alt && !m.control && !macos {
        Some(
            meta(
                true,
                match text {
                    Some(t) => t,
                    None => k,
                },
            ),
        )
    } else {
        None
    }
}

fn cursor_sequence(p: u8, app_cursor: bool, end: u8) -> (res: Vec<u8>)
    ensures
        res@ == cursor_keys(p, app_cursor, end),
{
    let mut out: Vec<u8> = Vec::new();
    if p > 1 {
        out.push(27);
        out.push(91);
        out.push(49);
        out.push(59);
        push_decimal(&mut out, p as u64);
        out.push(end);
    } else if app_cursor {
        out.push(27);
        out.push(79);
        out.push(end);
    } else {
        out.push(27);
        out.push(91);
        out.push(end);
    }
    assert(out@ =~= cursor_keys(p, app_cursor, end));
    out
}

fn function_sequence(p: u8, end: u8) -> (res: Vec<u8>)
    ensures
        res@ == function_keys(p, end),
{
    let mut out: Vec<u8> = Vec::new();
    if p > 1 {
        out.push(27);
        out.push(91);
        out.push(49);
        out.push(59);
        push_decimal(&mut out, p as u64);
        out.push(end);
    } else {
        out.push(27);
        out.push(79);
        out.push(end);
    }
    assert(out@ =~= function_keys(p, end));
    out
}

fn tilde_sequence(p: u8, code: u8) -> (res: Vec<u8>)
    ensures
        res@ == tilde_keys(p, code),
{
    let mut out: Vec<u8> = Vec::new();
    out.push(27);
    out.push(91);
    push_decimal(&mut out, code as u64);
    if p > 1 {
        out.push(59);
        push_decimal(&mut out, p as u64);
    }
    out.push(126);
    assert(out@ =~= tilde_keys(p, code));
    out
}

fn meta_sequence(alt: bool, bytes: &[u8]) -> (res: Vec<u8>)
    ensures
        res@ == meta(alt, bytes@),
{
    let mut out: Vec<u8> = Vec::new();
    if alt {
        out.push(27);
    }
    out.extend_from_slice(bytes);
    assert(out@ =~= meta(alt, bytes@));
    out
}

/// The C0 control code a Control chord sends (see [`control_code_of`]).
pub fn control_code(key: &str) -> (res: Option<u8>)
    ensures
        res == control_code_of(utf8(key@)),
{
    let k = key.as_bytes();
    if k.len() != 1 {
        return if is_text(k, "space") {
            Some(0)
        } else {
            None
        };
    }
    let b = k[0];
    if 97 <= b && b <= 122 {
        Some(b - 96)
    } else if b == 64 || b == 50 {
        Some(0)
    } else if b == 91 || b == 51 {
        Some(27)
    } else if b == 92 || b == 52 {
        Some(28)
    } else if b == 93 || b == 53 {
        Some(29)
    } else if b == 94 || b == 54 {
        Some(30)
    } else if b == 95 || b == 45 || b == 47 || b == 55 {
        Some(31)
    } else if b == 63 || b == 56 {
        Some(127)
    } else {
        None
    }
}

/// Whether the bytes end in `last`.
pub open spec fn ends_in(b: Seq<u8>, last: u8) -> bool {
    b.len() > 0 && b[b.len() - 1] == last
}

/// The arrow keys: up, down, right and left always send a sequence ending
/// in `A`, `B`, `C` and `D` respectively, whatever the modifiers; with no
/// modifier they send `ESC [` and that letter, or `ESC O` and it when the
/// terminal asked for application cursor keys.
pub proof fn lemma_arrow_keys(text: Option<Seq<u8>>, m: Modifiers, app_cursor: bool, macos: bool)
    ensures
        key_bytes(utf8("up"@), text, m, app_cursor, macos) matches Some(b) && ends_in(b, 65),
        key_bytes(utf8("down"@), text, m, app_cursor, macos) matches Some(b) && ends_in(b, 66),
        key_bytes(utf8("right"@), text, m, app_cursor, macos) matches Some(b) && ends_in(b, 67),
        key_bytes(utf8("left"@), text, m, app_cursor, macos) matches Some(b) && ends_in(b, 68),
        parameter(m) == 1 ==> key_bytes(utf8("up"@), text, m, app_cursor, macos) == Some(
            seq![27u8, if app_cursor { 79u8 } else { 91u8 }, 65u8],
        ),
        parameter(m) == 1 ==> key_bytes(utf8("down"@), text, m, app_cursor, macos) == Some(
            seq![27u8, if app_cursor { 79u8 } else { 91u8 }, 66u8],
        ),
        parameter(m) == 1 ==> key_bytes(utf8("right"@), text, m, app_cursor, macos) == Some(
            seq![27u8, if app_cursor { 79u8 } else { 91u8 }, 67u8],
        ),
        parameter(m) == 1 ==> key_bytes(utf8("left"@), text, m, app_cursor, macos) == Some(
            seq![27u8, if app_cursor { 79u8 } else { 91u8 }, 68u8],
        ),
{
    reveal_strlit("up");
    reveal_strlit("down");
    reveal_strlit("right");
    reveal_strlit("left");
    vstd::utf8::encode_utf8_decode_utf8("up"@);
    vstd::utf8::encode_utf8_decode_utf8("down"@);
    vstd::utf8::encode_utf8_decode_utf8("right"@);
    vstd::utf8::encode_utf8_decode_utf8("left"@);
    assert("up"@ != "down"@);
    assert("right"@ != "up"@ && "right"@ != "down"@);
    assert("left"@ != "up"@ && "left"@ != "down"@ && "left"@ != "right"@);
    assert(utf8("down"@) != utf8("up"@));
    assert(utf8("right"@) != utf8("up"@) && utf8("right"@) != utf8("down"@));
    assert(utf8("left"@) != utf8("up"@) && utf8("left"@) != utf8("down"@) && utf8("left"@) != utf8("right"@));
    let p = parameter(m);
    if p > 1 {
        let d = decimal(p as nat);
        assert((csi() + seq![49u8, 59u8] + d + seq![65u8]).last() == 65u8);
        assert((csi() + seq![49u8, 59u8] + d + seq![66u8]).last() == 66u8);
        assert((csi() + seq![49u8, 59u8] + d + seq![67u8]).last() == 67u8);
        assert((csi() + seq![49u8, 59u8] + d + seq![68u8]).last() == 68u8);
    } else if !app_cursor {
        assert(csi() + seq![65u8] =~= seq![27u8, 91u8, 65u8]);
        assert(csi() + seq![66u8] =~= seq![27u8, 91u8, 66u8]);
        assert(csi() + seq![67u8] =~= seq![27u8, 91u8, 67u8]);
        assert(csi() + seq![68u8] =~= seq![27u8, 91u8, 68u8]);
    }
}

/// The other named keys without modifiers: Home and End send `ESC [ H`
/// and `ESC [ F` (`ESC O` in application cursor mode), Insert, Delete,
/// Page Up and Page Down `ESC [ 2 ~`, `ESC [ 3 ~`, `ESC [ 5 ~` and
/// `ESC [ 6 ~`, F1 to F4 `ESC O P` to `ESC O S`, F5 to F12 `ESC [ 15 ~`,
/// `17`, `18`, `19`, `20`, `21`, `23`, `24`; Tab, Enter, Escape and
/// Backspace their control bytes 9, 13, 27 and 127.
pub proof fn lemma_named_keys(text: Option<Seq<u8>>, m: Modifiers, app_cursor: bool, macos: bool)
    ensures
        parameter(m) == 1 ==> key_bytes(utf8("home"@), text, m, app_cursor, macos) == Some(
            seq![27u8, if app_cursor { 79u8 } else { 91u8 }, 72u8],
        ),
        parameter(m) == 1 ==> key_bytes(utf8("end"@), text, m, app_cursor, macos) == Some(
            seq![27u8, if app_cursor { 79u8 } else { 91u8 }, 70u8],
        ),
        parameter(m) == 1 ==> key_bytes(utf8("insert"@), text, m, app_cursor, macos) == Some(
            seq![27u8, 91u8, 50u8, 126u8],
        ),
        parameter(m) == 1 ==> key_bytes(utf8("delete"@), text, m, app_cursor, macos) == Some(
            seq![27u8, 91u8, 51u8, 126u8],
        ),
        parameter(m) == 1 ==> key_bytes(utf8("pageup"@), text, m, app_cursor, macos) == Some(
            seq![27u8, 91u8, 53u8, 126u8],
        ),
        parameter(m) == 1 ==> key_bytes(utf8("pagedown"@), text, m, app_cursor, macos) == Some(
            seq![27u8, 91u8, 54u8, 126u8],
        ),
        parameter(m) == 1 ==> key_bytes(utf8("f1"@), text, m, app_cursor, macos) == Some(
            seq![27u8, 79u8, 80u8],
        ),
        parameter(m) == 1 ==> key_bytes(utf8("f2"@), text, m, app_cursor, macos) == Some(
            seq![27u8, 79u8, 81u8],
        ),
        parameter(m) == 1 ==> key_bytes(utf8("f3"@), text, m, app_cursor, macos) == Some(
            seq![27u8, 79u8, 82u8],
        ),
        parameter(m) == 1 ==> key_bytes(utf8("f4"@), text, m, app_cursor, macos) == Some(
            seq![27u8, 79u8, 83u8],
        ),
        parameter(m) == 1 ==> key_bytes(utf8("f5"@), text, m, app_cursor, macos) == Some(
            seq![27u8, 91u8, 49u8, 53u8, 126u8],
        ),
        parameter(m) == 1 ==> key_bytes(utf8("f6"@), text, m, app_cursor, macos) == Some(
            seq![27u8, 91u8, 49u8, 55u8, 126u8],
        ),
        parameter(m) == 1 ==> key_bytes(utf8("f7"@), text, m, app_cursor, macos) == Some(
            seq![27u8, 91u8, 49u8, 56u8, 126u8],
        ),
        parameter(m) == 1 ==> key_bytes(utf8("f8"@), text, m, app_cursor, macos) == Some(
            seq![27u8, 91u8, 49u8, 57u8, 126u8],
        ),
        parameter(m) == 1 ==> key_bytes(utf8("f9"@), text, m, app_cursor, macos) == Some(
            seq![27u8, 91u8, 50u8, 48u8, 126u8],
        ),
        parameter(m) == 1 ==> key_bytes(utf8("f10"@), text, m, app_cursor, macos) == Some(
            seq![27u8, 91u8, 50u8, 49u8, 126u8],
        ),
        parameter(m) == 1 ==> key_bytes(utf8("f11"@), text, m, app_cursor, macos) == Some(
            seq![27u8, 91u8, 50u8, 51u8, 126u8],
        ),
        parameter(m) == 1 ==> key_bytes(utf8("f12"@), text, m, app_cursor, macos) == Some(
            seq![27u8, 91u8, 50u8, 52u8, 126u8],
        ),
        parameter(m) == 1 ==> key_bytes(utf8("tab"@), text, m, app_cursor, macos) == Some(
            seq![9u8],
        ),
        parameter(m) == 1 ==> key_bytes(utf8("enter"@), text, m, app_cursor, macos) == Some(
            seq![13u8],
        ),
        parameter(m) == 1 ==> key_bytes(utf8("escape"@), text, m, app_cursor, macos) == Some(
            seq![27u8],
        ),
        parameter(m) == 1 ==> key_bytes(utf8("backspace"@), text, m, app_cursor, macos) == Some(
            seq![127u8],
        ),
{
    reveal_strlit("up");
    reveal_strlit("down");
    reveal_strlit("right");
    reveal_strlit("left");
    reveal_strlit("home");
    reveal_strlit("end");
    reveal_strlit("insert");
    reveal_strlit("delete");
    reveal_strlit("pageup");
    reveal_strlit("pagedown");
    reveal_strlit("f1");
    reveal_strlit("f2");
    reveal_strlit("f3");
    reveal_strlit("f4");
    reveal_strlit("f5");
    reveal_strlit("f6");
    reveal_strlit("f7");
    reveal_strlit("f8");
    reveal_strlit("f9");
    reveal_strlit("f10");
    reveal_strlit("f11");
    reveal_strlit("f12");
    reveal_strlit("tab");
    reveal_strlit("enter");
    reveal_strlit("escape");
    reveal_strlit("backspace");
    vstd::utf8::encode_utf8_decode_utf8("up"@);
    vstd::utf8::encode_utf8_decode_utf8("down"@);
    vstd::utf8::encode_utf8_decode_utf8("right"@);
    vstd::utf8::encode_utf8_decode_utf8("left"@);
    vstd::utf8::encode_utf8_decode_utf8("home"@);
    vstd::utf8::encode_utf8_decode_utf8("end"@);
    vstd::utf8::encode_utf8_decode_utf8("insert"@);
    vstd::utf8::encode_utf8_decode_utf8("delete"@);
    vstd::utf8::encode_utf8_decode_utf8("pageup"@);
    vstd::utf8::encode_utf8_decode_utf8("pagedown"@);
    vstd::utf8::encode_utf8_decode_utf8("f1"@);
    vstd::utf8::encode_utf8_decode_utf8("f2"@);
    vstd::utf8::encode_utf8_decode_utf8("f3"@);
    vstd::utf8::encode_utf8_decode_utf8("f4"@);
    vstd::utf8::encode_utf8_decode_utf8("f5"@);
    vstd::utf8::encode_utf8_decode_utf8("f6"@);
    vstd::utf8::encode_utf8_decode_utf8("f7"@);
    vstd::utf8::encode_utf8_decode_utf8("f8"@);
    vstd::utf8::encode_utf8_decode_utf8("f9"@);
    vstd::utf8::encode_utf8_decode_utf8("f10"@);
    vstd::utf8::encode_utf8_decode_utf8("f11"@);
    vstd::utf8::encode_utf8_decode_utf8("f12"@);
    vstd::utf8::encode_utf8_decode_utf8("tab"@);
    vstd::utf8::encode_utf8_decode_utf8("enter"@);
    vstd::utf8::encode_utf8_decode_utf8("escape"@);
    vstd::utf8::encode_utf8_decode_utf8("backspace"@);
    assert(utf8("down"@) != utf8("up"@)) by { assert("down"@.len() != "up"@.len()); }
    assert(utf8("right"@) != utf8("up"@)) by { assert("right"@.len() != "up"@.len()); }
    assert(utf8("right"@) != utf8("down"@)) by { assert("right"@.len() != "down"@.len()); }
    assert(utf8("left"@) != utf8("up"@)) by { assert("left"@.len() != "up"@.len()); }
    assert(utf8("left"@) != utf8("down"@)) by { assert("left"@[0] != "down"@[0]); }
    assert(utf8("left"@) != utf8("right"@)) by { assert("left"@.len() != "right"@.len()); }
    assert(utf8("home"@) != utf8("up"@)) by { assert("home"@.len() != "up"@.len()); }
    assert(utf8("home"@) != utf8("down"@)) by { assert("home"@[0] != "down"@[0]); }
    assert(utf8("home"@) != utf8("right"@)) by { assert("home"@.len() != "right"@.len()); }
    assert(utf8("home"@) != utf8("left"@)) by { assert("home"@[0] != "left"@[0]); }
    assert(utf8("end"@) != utf8("up"@)) by { assert("end"@.len() != "up"@.len()); }
    assert(utf8("end"@) != utf8("down"@)) by { assert("end"@.len() != "down"@.len()); }
    assert(utf8("end"@) != utf8("right"@)) by { assert("end"@.len() != "right"@.len()); }
    assert(utf8("end"@) != utf8("left"@)) by { assert("end"@.len() != "left"@.len()); }
    assert(utf8("end"@) != utf8("home"@)) by { assert("end"@.len() != "home"@.len()); }
    assert(utf8("insert"@) != utf8("up"@)) by { assert("insert"@.len() != "up"@.len()); }
    assert(utf8("insert"@) != utf8("down"@)) by { assert("insert"@.len() != "down"@.len()); }
    assert(utf8("insert"@) != utf8("right"@)) by { assert("insert"@.len() != "right"@.len()); }
    assert(utf8("insert"@) != utf8("left"@)) by { assert("insert"@.len() != "left"@.len()); }
    assert(utf8("insert"@) != utf8("home"@)) by { assert("insert"@.len() != "home"@.len()); }
    assert(utf8("insert"@) != utf8("end"@)) by { assert("insert"@.len() != "end"@.len()); }
    assert(utf8("delete"@) != utf8("up"@)) by { assert("delete"@.len() != "up"@.len()); }
    assert(utf8("delete"@) != utf8("down"@)) by { assert("delete"@.len() != "down"@.len()); }
    assert(utf8("delete"@) != utf8("right"@)) by { assert("delete"@.len() != "right"@.len()); }
    assert(utf8("delete"@) != utf8("left"@)) by { assert("delete"@.len() != "left"@.len()); }
    assert(utf8("delete"@) != utf8("home"@)) by { assert("delete"@.len() != "home"@.len()); }
    assert(utf8("delete"@) != utf8("end"@)) by { assert("delete"@.len() != "end"@.len()); }
    assert(utf8("delete"@) != utf8("insert"@)) by { assert("delete"@[0] != "insert"@[0]); }
    assert(utf8("pageup"@) != utf8("up"@)) by { assert("pageup"@.len() != "up"@.len()); }
    assert(utf8("pageup"@) != utf8("down"@)) by { assert("pageup"@.len() != "down"@.len()); }
    assert(utf8("pageup"@) != utf8("right"@)) by { assert("pageup"@.len() != "right"@.len()); }
    assert(utf8("pageup"@) != utf8("left"@)) by { assert("pageup"@.len() != "left"@.len()); }
    assert(utf8("pageup"@) != utf8("home"@)) by { assert("pageup"@.len() != "home"@.len()); }
    assert(utf8("pageup"@) != utf8("end"@)) by { assert("pageup"@.len() != "end"@.len()); }
    assert(utf8("pageup"@) != utf8("insert"@)) by { assert("pageup"@[0] != "insert"@[0]); }
    assert(utf8("pageup"@) != utf8("delete"@)) by { assert("pageup"@[0] != "delete"@[0]); }
    assert(utf8("pagedown"@) != utf8("up"@)) by { assert("pagedown"@.len() != "up"@.len()); }
    assert(utf8("pagedown"@) != utf8("down"@)) by { assert("pagedown"@.len() != "down"@.len()); }
    assert(utf8("pagedown"@) != utf8("right"@)) by { assert("pagedown"@.len() != "right"@.len()); }
    assert(utf8("pagedown"@) != utf8("left"@)) by { assert("pagedown"@.len() != "left"@.len()); }
    assert(utf8("pagedown"@) != utf8("home"@)) by { assert("pagedown"@.len() != "home"@.len()); }
    assert(utf8("pagedown"@) != utf8("end"@)) by { assert("pagedown"@.len() != "end"@.len()); }
    assert(utf8("pagedown"@) != utf8("insert"@)) by { assert("pagedown"@.len() != "insert"@.len()); }
    assert(utf8("pagedown"@) != utf8("delete"@)) by { assert("pagedown"@.len() != "delete"@.len()); }
    assert(utf8("pagedown"@) != utf8("pageup"@)) by { assert("pagedown"@.len() != "pageup"@.len()); }
    assert(utf8("f1"@) != utf8("up"@)) by { assert("f1"@[0] != "up"@[0]); }
    assert(utf8("f1"@) != utf8("down"@)) by { assert("f1"@.len() != "down"@.len()); }
    assert(utf8("f1"@) != utf8("right"@)) by { assert("f1"@.len() != "right"@.len()); }
    assert(utf8("f1"@) != utf8("left"@)) by { assert("f1"@.len() != "left"@.len()); }
    assert(utf8("f1"@) != utf8("home"@)) by { assert("f1"@.len() != "home"@.len()); }
    assert(utf8("f1"@) != utf8("end"@)) by { assert("f1"@.len() != "end"@.len()); }
    assert(utf8("f1"@) != utf8("insert"@)) by { assert("f1"@.len() != "insert"@.len()); }
    assert(utf8("f1"@) != utf8("delete"@)) by { assert("f1"@.len() != "delete"@.len()); }
    assert(utf8("f1"@) != utf8("pageup"@)) by { assert("f1"@.len() != "pageup"@.len()); }
    assert(utf8("f1"@) != utf8("pagedown"@)) by { assert("f1"@.len() != "pagedown"@.len()); }
    assert(utf8("f2"@) != utf8("up"@)) by { assert("f2"@[0] != "up"@[0]); }
    assert(utf8("f2"@) != utf8("down"@)) by { assert("f2"@.len() != "down"@.len()); }
    assert(utf8("f2"@) != utf8("right"@)) by { assert("f2"@.len() != "right"@.len()); }
    assert(utf8("f2"@) != utf8("left"@)) by { assert("f2"@.len() != "left"@.len()); }
    assert(utf8("f2"@) != utf8("home"@)) by { assert("f2"@.len() != "home"@.len()); }
    assert(utf8("f2"@) != utf8("end"@)) by { assert("f2"@.len() != "end"@.len()); }
    assert(utf8("f2"@) != utf8("insert"@)) by { assert("f2"@.len() != "insert"@.len()); }
    assert(utf8("f2"@) != utf8("delete"@)) by { assert("f2"@.len() != "delete"@.len()); }
    assert(utf8("f2"@) != utf8("pageup"@)) by { assert("f2"@.len() != "pageup"@.len()); }
    assert(utf8("f2"@) != utf8("pagedown"@)) by { assert("f2"@.len() != "pagedown"@.len()); }
    assert(utf8("f2"@) != utf8("f1"@)) by { assert("f2"@[1] != "f1"@[1]); }
    assert(utf8("f3"@) != utf8("up"@)) by { assert("f3"@[0] != "up"@[0]); }
    assert(utf8("f3"@) != utf8("down"@)) by { assert("f3"@.len() != "down"@.len()); }
    assert(utf8("f3"@) != utf8("right"@)) by { assert("f3"@.len() != "right"@.len()); }
    assert(utf8("f3"@) != utf8("left"@)) by { assert("f3"@.len() != "left"@.len()); }
    assert(utf8("f3"@) != utf8("home"@)) by { assert("f3"@.len() != "home"@.len()); }
    assert(utf8("f3"@) != utf8("end"@)) by { assert("f3"@.len() != "end"@.len()); }
    assert(utf8("f3"@) != utf8("insert"@)) by { assert("f3"@.len() != "insert"@.len()); }
    assert(utf8("f3"@) != utf8("delete"@)) by { assert("f3"@.len() != "delete"@.len()); }
    assert(utf8("f3"@) != utf8("pageup"@)) by { assert("f3"@.len() != "pageup"@.len()); }
    assert(utf8("f3"@) != utf8("pagedown"@)) by { assert("f3"@.len() != "pagedown"@.len()); }
    assert(utf8("f3"@) != utf8("f1"@)) by { assert("f3"@[1] != "f1"@[1]); }
    assert(utf8("f3"@) != utf8("f2"@)) by { assert("f3"@[1] != "f2"@[1]); }
    assert(utf8("f4"@) != utf8("up"@)) by { assert("f4"@[0] != "up"@[0]); }
    assert(utf8("f4"@) != utf8("down"@)) by { assert("f4"@.len() != "down"@.len()); }
    assert(utf8("f4"@) != utf8("right"@)) by { assert("f4"@.len() != "right"@.len()); }
    assert(utf8("f4"@) != utf8("left"@)) by { assert("f4"@.len() != "left"@.len()); }
    assert(utf8("f4"@) != utf8("home"@)) by { assert("f4"@.len() != "home"@.len()); }
    assert(utf8("f4"@) != utf8("end"@)) by { assert("f4"@.len() != "end"@.len()); }
    assert(utf8("f4"@) != utf8("insert"@)) by { assert("f4"@.len() != "insert"@.len()); }
    assert(utf8("f4"@) != utf8("delete"@)) by { assert("f4"@.len() != "delete"@.len()); }
    assert(utf8("f4"@) != utf8("pageup"@)) by { assert("f4"@.len() != "pageup"@.len()); }
    assert(utf8("f4"@) != utf8("pagedown"@)) by { assert("f4"@.len() != "pagedown"@.len()); }
    assert(utf8("f4"@) != utf8("f1"@)) by { assert("f4"@[1] != "f1"@[1]); }
    assert(utf8("f4"@) != utf8("f2"@)) by { assert("f4"@[1] != "f2"@[1]); }
    assert(utf8("f4"@) != utf8("f3"@)) by { assert("f4"@[1] != "f3"@[1]); }
    assert(utf8("f5"@) != utf8("up"@)) by { assert("f5"@[0] != "up"@[0]); }
    assert(utf8("f5"@) != utf8("down"@)) by { assert("f5"@.len() != "down"@.len()); }
    assert(utf8("f5"@) != utf8("right"@)) by { assert("f5"@.len() != "right"@.len()); }
    assert(utf8("f5"@) != utf8("left"@)) by { assert("f5"@.len() != "left"@.len()); }
    assert(utf8("f5"@) != utf8("home"@)) by { assert("f5"@.len() != "home"@.len()); }
    assert(utf8("f5"@) != utf8("end"@)) by { assert("f5"@.len() != "end"@.len()); }
    assert(utf8("f5"@) != utf8("insert"@)) by { assert("f5"@.len() != "insert"@.len()); }
    assert(utf8("f5"@) != utf8("delete"@)) by { assert("f5"@.len() != "delete"@.len()); }
    assert(utf8("f5"@) != utf8("pageup"@)) by { assert("f5"@.len() != "pageup"@.len()); }
    assert(utf8("f5"@) != utf8("pagedown"@)) by { assert("f5"@.len() != "pagedown"@.len()); }
    assert(utf8("f5"@) != utf8("f1"@)) by { assert("f5"@[1] != "f1"@[1]); }
    assert(utf8("f5"@) != utf8("f2"@)) by { assert("f5"@[1] != "f2"@[1]); }
    assert(utf8("f5"@) != utf8("f3"@)) by { assert("f5"@[1] != "f3"@[1]); }
    assert(utf8("f5"@) != utf8("f4"@)) by { assert("f5"@[1] != "f4"@[1]); }
    assert(utf8("f6"@) != utf8("up"@)) by { assert("f6"@[0] != "up"@[0]); }
    assert(utf8("f6"@) != utf8("down"@)) by { assert("f6"@.len() != "down"@.len()); }
    assert(utf8("f6"@) != utf8("right"@)) by { assert("f6"@.len() != "right"@.len()); }
    assert(utf8("f6"@) != utf8("left"@)) by { assert("f6"@.len() != "left"@.len()); }
    assert(utf8("f6"@) != utf8("home"@)) by { assert("f6"@.len() != "home"@.len()); }
    assert(utf8("f6"@) != utf8("end"@)) by { assert("f6"@.len() != "end"@.len()); }
    assert(utf8("f6"@) != utf8("insert"@)) by { assert("f6"@.len() != "insert"@.len()); }
    assert(utf8("f6"@) != utf8("delete"@)) by { assert("f6"@.len() != "delete"@.len()); }
    assert(utf8("f6"@) != utf8("pageup"@)) by { assert("f6"@.len() != "pageup"@.len()); }
    assert(utf8("f6"@) != utf8("pagedown"@)) by { assert("f6"@.len() != "pagedown"@.len()); }
    assert(utf8("f6"@) != utf8("f1"@)) by { assert("f6"@[1] != "f1"@[1]); }
    assert(utf8("f6"@) != utf8("f2"@)) by { assert("f6"@[1] != "f2"@[1]); }
    assert(utf8("f6"@) != utf8("f3"@)) by { assert("f6"@[1] != "f3"@[1]); }
    assert(utf8("f6"@) != utf8("f4"@)) by { assert("f6"@[1] != "f4"@[1]); }
    assert(utf8("f6"@) != utf8("f5"@)) by { assert("f6"@[1] != "f5"@[1]); }
    assert(utf8("f7"@) != utf8("up"@)) by { assert("f7"@[0] != "up"@[0]); }
    assert(utf8("f7"@) != utf8("down"@)) by { assert("f7"@.len() != "down"@.len()); }
    assert(utf8("f7"@) != utf8("right"@)) by { assert("f7"@.len() != "right"@.len()); }
    assert(utf8("f7"@) != utf8("left"@)) by { assert("f7"@.len() != "left"@.len()); }
    assert(utf8("f7"@) != utf8("home"@)) by { assert("f7"@.len() != "home"@.len()); }
    assert(utf8("f7"@) != utf8("end"@)) by { assert("f7"@.len() != "end"@.len()); }
    assert(utf8("f7"@) != utf8("insert"@)) by { assert("f7"@.len() != "insert"@.len()); }
    assert(utf8("f7"@) != utf8("delete"@)) by { assert("f7"@.len() != "delete"@.len()); }
    assert(utf8("f7"@) != utf8("pageup"@)) by { assert("f7"@.len() != "pageup"@.len()); }
    assert(utf8("f7"@) != utf8("pagedown"@)) by { assert("f7"@.len() != "pagedown"@.len()); }
    assert(utf8("f7"@) != utf8("f1"@)) by { assert("f7"@[1] != "f1"@[1]); }
    assert(utf8("f7"@) != utf8("f2"@)) by { assert("f7"@[1] != "f2"@[1]); }
    assert(utf8("f7"@) != utf8("f3"@)) by { assert("f7"@[1] != "f3"@[1]); }
    assert(utf8("f7"@) != utf8("f4"@)) by { assert("f7"@[1] != "f4"@[1]); }
    assert(utf8("f7"@) != utf8("f5"@)) by { assert("f7"@[1] != "f5"@[1]); }
    assert(utf8("f7"@) != utf8("f6"@)) by { assert("f7"@[1] != "f6"@[1]); }
    assert(utf8("f8"@) != utf8("up"@)) by { assert("f8"@[0] != "up"@[0]); }
    assert(utf8("f8"@) != utf8("down"@)) by { assert("f8"@.len() != "down"@.len()); }
    assert(utf8("f8"@) != utf8("right"@)) by { assert("f8"@.len() != "right"@.len()); }
    assert(utf8("f8"@) != utf8("left"@)) by { assert("f8"@.len() != "left"@.len()); }
    assert(utf8("f8"@) != utf8("home"@)) by { assert("f8"@.len() != "home"@.len()); }
    assert(utf8("f8"@) != utf8("end"@)) by { assert("f8"@.len() != "end"@.len()); }
    assert(utf8("f8"@) != utf8("insert"@)) by { assert("f8"@.len() != "insert"@.len()); }
    assert(utf8("f8"@) != utf8("delete"@)) by { assert("f8"@.len() != "delete"@.len()); }
    assert(utf8("f8"@) != utf8("pageup"@)) by { assert("f8"@.len() != "pageup"@.len()); }
    assert(utf8("f8"@) != utf8("pagedown"@)) by { assert("f8"@.len() != "pagedown"@.len()); }
    assert(utf8("f8"@) != utf8("f1"@)) by { assert("f8"@[1] != "f1"@[1]); }
    assert(utf8("f8"@) != utf8("f2"@)) by { assert("f8"@[1] != "f2"@[1]); }
    assert(utf8("f8"@) != utf8("f3"@)) by { assert("f8"@[1] != "f3"@[1]); }
    assert(utf8("f8"@) != utf8("f4"@)) by { assert("f8"@[1] != "f4"@[1]); }
    assert(utf8("f8"@) != utf8("f5"@)) by { assert("f8"@[1] != "f5"@[1]); }
    assert(utf8("f8"@) != utf8("f6"@)) by { assert("f8"@[1] != "f6"@[1]); }
    assert(utf8("f8"@) != utf8("f7"@)) by { assert("f8"@[1] != "f7"@[1]); }
    assert(utf8("f9"@) != utf8("up"@)) by { assert("f9"@[0] != "up"@[0]); }
    assert(utf8("f9"@) != utf8("down"@)) by { assert("f9"@.len() != "down"@.len()); }
    assert(utf8("f9"@) != utf8("right"@)) by { assert("f9"@.len() != "right"@.len()); }
    assert(utf8("f9"@) != utf8("left"@)) by { assert("f9"@.len() != "left"@.len()); }
    assert(utf8("f9"@) != utf8("home"@)) by { assert("f9"@.len() != "home"@.len()); }
    assert(utf8("f9"@) != utf8("end"@)) by { assert("f9"@.len() != "end"@.len()); }
    assert(utf8("f9"@) != utf8("insert"@)) by { assert("f9"@.len() != "insert"@.len()); }
    assert(utf8("f9"@) != utf8("delete"@)) by { assert("f9"@.len() != "delete"@.len()); }
    assert(utf8("f9"@) != utf8("pageup"@)) by { assert("f9"@.len() != "pageup"@.len()); }
    assert(utf8("f9"@) != utf8("pagedown"@)) by { assert("f9"@.len() != "pagedown"@.len()); }
    assert(utf8("f9"@) != utf8("f1"@)) by { assert("f9"@[1] != "f1"@[1]); }
    assert(utf8("f9"@) != utf8("f2"@)) by { assert("f9"@[1] != "f2"@[1]); }
    assert(utf8("f9"@) != utf8("f3"@)) by { assert("f9"@[1] != "f3"@[1]); }
    assert(utf8("f9"@) != utf8("f4"@)) by { assert("f9"@[1] != "f4"@[1]); }
    assert(utf8("f9"@) != utf8("f5"@)) by { assert("f9"@[1] != "f5"@[1]); }
    assert(utf8("f9"@) != utf8("f6"@)) by { assert("f9"@[1] != "f6"@[1]); }
    assert(utf8("f9"@) != utf8("f7"@)) by { assert("f9"@[1] != "f7"@[1]); }
    assert(utf8("f9"@) != utf8("f8"@)) by { assert("f9"@[1] != "f8"@[1]); }
    assert(utf8("f10"@) != utf8("up"@)) by { assert("f10"@.len() != "up"@.len()); }
    assert(utf8("f10"@) != utf8("down"@)) by { assert("f10"@.len() != "down"@.len()); }
    assert(utf8("f10"@) != utf8("right"@)) by { assert("f10"@.len() != "right"@.len()); }
    assert(utf8("f10"@) != utf8("left"@)) by { assert("f10"@.len() != "left"@.len()); }
    assert(utf8("f10"@) != utf8("home"@)) by { assert("f10"@.len() != "home"@.len()); }
    assert(utf8("f10"@) != utf8("end"@)) by { assert("f10"@[0] != "end"@[0]); }
    assert(utf8("f10"@) != utf8("insert"@)) by { assert("f10"@.len() != "insert"@.len()); }
    assert(utf8("f10"@) != utf8("delete"@)) by { assert("f10"@.len() != "delete"@.len()); }
    assert(utf8("f10"@) != utf8("pageup"@)) by { assert("f10"@.len() != "pageup"@.len()); }
    assert(utf8("f10"@) != utf8("pagedown"@)) by { assert("f10"@.len() != "pagedown"@.len()); }
    assert(utf8("f10"@) != utf8("f1"@)) by { assert("f10"@.len() != "f1"@.len()); }
    assert(utf8("f10"@) != utf8("f2"@)) by { assert("f10"@.len() != "f2"@.len()); }
    assert(utf8("f10"@) != utf8("f3"@)) by { assert("f10"@.len() != "f3"@.len()); }
    assert(utf8("f10"@) != utf8("f4"@)) by { assert("f10"@.len() != "f4"@.len()); }
    assert(utf8("f10"@) != utf8("f5"@)) by { assert("f10"@.len() != "f5"@.len()); }
    assert(utf8("f10"@) != utf8("f6"@)) by { assert("f10"@.len() != "f6"@.len()); }
    assert(utf8("f10"@) != utf8("f7"@)) by { assert("f10"@.len() != "f7"@.len()); }
    assert(utf8("f10"@) != utf8("f8"@)) by { assert("f10"@.len() != "f8"@.len()); }
    assert(utf8("f10"@) != utf8("f9"@)) by { assert("f10"@.len() != "f9"@.len()); }
    assert(utf8("f11"@) != utf8("up"@)) by { assert("f11"@.len() != "up"@.len()); }
    assert(utf8("f11"@) != utf8("down"@)) by { assert("f11"@.len() != "down"@.len()); }
    assert(utf8("f11"@) != utf8("right"@)) by { assert("f11"@.len() != "right"@.len()); }
    assert(utf8("f11"@) != utf8("left"@)) by { assert("f11"@.len() != "left"@.len()); }
    assert(utf8("f11"@) != utf8("home"@)) by { assert("f11"@.len() != "home"@.len()); }
    assert(utf8("f11"@) != utf8("end"@)) by { assert("f11"@[0] != "end"@[0]); }
    assert(utf8("f11"@) != utf8("insert"@)) by { assert("f11"@.len() != "insert"@.len()); }
    assert(utf8("f11"@) != utf8("delete"@)) by { assert("f11"@.len() != "delete"@.len()); }
    assert(utf8("f11"@) != utf8("pageup"@)) by { assert("f11"@.len() != "pageup"@.len()); }
    assert(utf8("f11"@) != utf8("pagedown"@)) by { assert("f11"@.len() != "pagedown"@.len()); }
    assert(utf8("f11"@) != utf8("f1"@)) by { assert("f11"@.len() != "f1"@.len()); }
    assert(utf8("f11"@) != utf8("f2"@)) by { assert("f11"@.len() != "f2"@.len()); }
    assert(utf8("f11"@) != utf8("f3"@)) by { assert("f11"@.len() != "f3"@.len()); }
    assert(utf8("f11"@) != utf8("f4"@)) by { assert("f11"@.len() != "f4"@.len()); }
    assert(utf8("f11"@) != utf8("f5"@)) by { assert("f11"@.len() != "f5"@.len()); }
    assert(utf8("f11"@) != utf8("f6"@)) by { assert("f11"@.len() != "f6"@.len()); }
    assert(utf8("f11"@) != utf8("f7"@)) by { assert("f11"@.len() != "f7"@.len()); }
    assert(utf8("f11"@) != utf8("f8"@)) by { assert("f11"@.len() != "f8"@.len()); }
    assert(utf8("f11"@) != utf8("f9"@)) by { assert("f11"@.len() != "f9"@.len()); }
    assert(utf8("f11"@) != utf8("f10"@)) by { assert("f11"@[2] != "f10"@[2]); }
    assert(utf8("f12"@) != utf8("up"@)) by { assert("f12"@.len() != "up"@.len()); }
    assert(utf8("f12"@) != utf8("down"@)) by { assert("f12"@.len() != "down"@.len()); }
    assert(utf8("f12"@) != utf8("right"@)) by { assert("f12"@.len() != "right"@.len()); }
    assert(utf8("f12"@) != utf8("left"@)) by { assert("f12"@.len() != "left"@.len()); }
    assert(utf8("f12"@) != utf8("home"@)) by { assert("f12"@.len() != "home"@.len()); }
    assert(utf8("f12"@) != utf8("end"@)) by { assert("f12"@[0] != "end"@[0]); }
    assert(utf8("f12"@) != utf8("insert"@)) by { assert("f12"@.len() != "insert"@.len()); }
    assert(utf8("f12"@) != utf8("delete"@)) by { assert("f12"@.len() != "delete"@.len()); }
    assert(utf8("f12"@) != utf8("pageup"@)) by { assert("f12"@.len() != "pageup"@.len()); }
    assert(utf8("f12"@) != utf8("pagedown"@)) by { assert("f12"@.len() != "pagedown"@.len()); }
    assert(utf8("f12"@) != utf8("f1"@)) by { assert("f12"@.len() != "f1"@.len()); }
    assert(utf8("f12"@) != utf8("f2"@)) by { assert("f12"@.len() != "f2"@.len()); }
    assert(utf8("f12"@) != utf8("f3"@)) by { assert("f12"@.len() != "f3"@.len()); }
    assert(utf8("f12"@) != utf8("f4"@)) by { assert("f12"@.len() != "f4"@.len()); }
    assert(utf8("f12"@) != utf8("f5"@)) by { assert("f12"@.len() != "f5"@.len()); }
    assert(utf8("f12"@) != utf8("f6"@)) by { assert("f12"@.len() != "f6"@.len()); }
    assert(utf8("f12"@) != utf8("f7"@)) by { assert("f12"@.len() != "f7"@.len()); }
    assert(utf8("f12"@) != utf8("f8"@)) by { assert("f12"@.len() != "f8"@.len()); }
    assert(utf8("f12"@) != utf8("f9"@)) by { assert("f12"@.len() != "f9"@.len()); }
    assert(utf8("f12"@) != utf8("f10"@)) by { assert("f12"@[2] != "f10"@[2]); }
    assert(utf8("f12"@) != utf8("f11"@)) by { assert("f12"@[2] != "f11"@[2]); }
    assert(utf8("tab"@) != utf8("up"@)) by { assert("tab"@.len() != "up"@.len()); }
    assert(utf8("tab"@) != utf8("down"@)) by { assert("tab"@.len() != "down"@.len()); }
    assert(utf8("tab"@) != utf8("right"@)) by { assert("tab"@.len() != "right"@.len()); }
    assert(utf8("tab"@) != utf8("left"@)) by { assert("tab"@.len() != "left"@.len()); }
    assert(utf8("tab"@) != utf8("home"@)) by { assert("tab"@.len() != "home"@.len()); }
    assert(utf8("tab"@) != utf8("end"@)) by { assert("tab"@[0] != "end"@[0]); }
    assert(utf8("tab"@) != utf8("insert"@)) by { assert("tab"@.len() != "insert"@.len()); }
    assert(utf8("tab"@) != utf8("delete"@)) by { assert("tab"@.len() != "delete"@.len()); }
    assert(utf8("tab"@) != utf8("pageup"@)) by { assert("tab"@.len() != "pageup"@.len()); }
    assert(utf8("tab"@) != utf8("pagedown"@)) by { assert("tab"@.len() != "pagedown"@.len()); }
    assert(utf8("tab"@) != utf8("f1"@)) by { assert("tab"@.len() != "f1"@.len()); }
    assert(utf8("tab"@) != utf8("f2"@)) by { assert("tab"@.len() != "f2"@.len()); }
    assert(utf8("tab"@) != utf8("f3"@)) by { assert("tab"@.len() != "f3"@.len()); }
    assert(utf8("tab"@) != utf8("f4"@)) by { assert("tab"@.len() != "f4"@.len()); }
    assert(utf8("tab"@) != utf8("f5"@)) by { assert("tab"@.len() != "f5"@.len()); }
    assert(utf8("tab"@) != utf8("f6"@)) by { assert("tab"@.len() != "f6"@.len()); }
    assert(utf8("tab"@) != utf8("f7"@)) by { assert("tab"@.len() != "f7"@.len()); }
    assert(utf8("tab"@) != utf8("f8"@)) by { assert("tab"@.len() != "f8"@.len()); }
    assert(utf8("tab"@) != utf8("f9"@)) by { assert("tab"@.len() != "f9"@.len()); }
    assert(utf8("tab"@) != utf8("f10"@)) by { assert("tab"@[0] != "f10"@[0]); }
    assert(utf8("tab"@) != utf8("f11"@)) by { assert("tab"@[0] != "f11"@[0]); }
    assert(utf8("tab"@) != utf8("f12"@)) by { assert("tab"@[0] != "f12"@[0]); }
    assert(utf8("enter"@) != utf8("up"@)) by { assert("enter"@.len() != "up"@.len()); }
    assert(utf8("enter"@) != utf8("down"@)) by { assert("enter"@.len() != "down"@.len()); }
    assert(utf8("enter"@) != utf8("right"@)) by { assert("enter"@[0] != "right"@[0]); }
    assert(utf8("enter"@) != utf8("left"@)) by { assert("enter"@.len() != "left"@.len()); }
    assert(utf8("enter"@) != utf8("home"@)) by { assert("enter"@.len() != "home"@.len()); }
    assert(utf8("enter"@) != utf8("end"@)) by { assert("enter"@.len() != "end"@.len()); }
    assert(utf8("enter"@) != utf8("insert"@)) by { assert("enter"@.len() != "insert"@.len()); }
    assert(utf8("enter"@) != utf8("delete"@)) by { assert("enter"@.len() != "delete"@.len()); }
    assert(utf8("enter"@) != utf8("pageup"@)) by { assert("enter"@.len() != "pageup"@.len()); }
    assert(utf8("enter"@) != utf8("pagedown"@)) by { assert("enter"@.len() != "pagedown"@.len()); }
    assert(utf8("enter"@) != utf8("f1"@)) by { assert("enter"@.len() != "f1"@.len()); }
    assert(utf8("enter"@) != utf8("f2"@)) by { assert("enter"@.len() != "f2"@.len()); }
    assert(utf8("enter"@) != utf8("f3"@)) by { assert("enter"@.len() != "f3"@.len()); }
    assert(utf8("enter"@) != utf8("f4"@)) by { assert("enter"@.len() != "f4"@.len()); }
    assert(utf8("enter"@) != utf8("f5"@)) by { assert("enter"@.len() != "f5"@.len()); }
    assert(utf8("enter"@) != utf8("f6"@)) by { assert("enter"@.len() != "f6"@.len()); }
    assert(utf8("enter"@) != utf8("f7"@)) by { assert("enter"@.len() != "f7"@.len()); }
    assert(utf8("enter"@) != utf8("f8"@)) by { assert("enter"@.len() != "f8"@.len()); }
    assert(utf8("enter"@) != utf8("f9"@)) by { assert("enter"@.len() != "f9"@.len()); }
    assert(utf8("enter"@) != utf8("f10"@)) by { assert("enter"@.len() != "f10"@.len()); }
    assert(utf8("enter"@) != utf8("f11"@)) by { assert("enter"@.len() != "f11"@.len()); }
    assert(utf8("enter"@) != utf8("f12"@)) by { assert("enter"@.len() != "f12"@.len()); }
    assert(utf8("enter"@) != utf8("tab"@)) by { assert("enter"@.len() != "tab"@.len()); }
    assert(utf8("escape"@) != utf8("up"@)) by { assert("escape"@.len() != "up"@.len()); }
    assert(utf8("escape"@) != utf8("down"@)) by { assert("escape"@.len() != "down"@.len()); }
    assert(utf8("escape"@) != utf8("right"@)) by { assert("escape"@.len() != "right"@.len()); }
    assert(utf8("escape"@) != utf8("left"@)) by { assert("escape"@.len() != "left"@.len()); }
    assert(utf8("escape"@) != utf8("home"@)) by { assert("escape"@.len() != "home"@.len()); }
    assert(utf8("escape"@) != utf8("end"@)) by { assert("escape"@.len() != "end"@.len()); }
    assert(utf8("escape"@) != utf8("insert"@)) by { assert("escape"@[0] != "insert"@[0]); }
    assert(utf8("escape"@) != utf8("delete"@)) by { assert("escape"@[0] != "delete"@[0]); }
    assert(utf8("escape"@) != utf8("pageup"@)) by { assert("escape"@[0] != "pageup"@[0]); }
    assert(utf8("escape"@) != utf8("pagedown"@)) by { assert("escape"@.len() != "pagedown"@.len()); }
    assert(utf8("escape"@) != utf8("f1"@)) by { assert("escape"@.len() != "f1"@.len()); }
    assert(utf8("escape"@) != utf8("f2"@)) by { assert("escape"@.len() != "f2"@.len()); }
    assert(utf8("escape"@) != utf8("f3"@)) by { assert("escape"@.len() != "f3"@.len()); }
    assert(utf8("escape"@) != utf8("f4"@)) by { assert("escape"@.len() != "f4"@.len()); }
    assert(utf8("escape"@) != utf8("f5"@)) by { assert("escape"@.len() != "f5"@.len()); }
    assert(utf8("escape"@) != utf8("f6"@)) by { assert("escape"@.len() != "f6"@.len()); }
    assert(utf8("escape"@) != utf8("f7"@)) by { assert("escape"@.len() != "f7"@.len()); }
    assert(utf8("escape"@) != utf8("f8"@)) by { assert("escape"@.len() != "f8"@.len()); }
    assert(utf8("escape"@) != utf8("f9"@)) by { assert("escape"@.len() != "f9"@.len()); }
    assert(utf8("escape"@) != utf8("f10"@)) by { assert("escape"@.len() != "f10"@.len()); }
    assert(utf8("escape"@) != utf8("f11"@)) by { assert("escape"@.len() != "f11"@.len()); }
    assert(utf8("escape"@) != utf8("f12"@)) by { assert("escape"@.len() != "f12"@.len()); }
    assert(utf8("escape"@) != utf8("tab"@)) by { assert("escape"@.len() != "tab"@.len()); }
    assert(utf8("escape"@) != utf8("enter"@)) by { assert("escape"@.len() != "enter"@.len()); }
    assert(utf8("backspace"@) != utf8("up"@)) by { assert("backspace"@.len() != "up"@.len()); }
    assert(utf8("backspace"@) != utf8("down"@)) by { assert("backspace"@.len() != "down"@.len()); }
    assert(utf8("backspace"@) != utf8("right"@)) by { assert("backspace"@.len() != "right"@.len()); }
    assert(utf8("backspace"@) != utf8("left"@)) by { assert("backspace"@.len() != "left"@.len()); }
    assert(utf8("backspace"@) != utf8("home"@)) by { assert("backspace"@.len() != "home"@.len()); }
    assert(utf8("backspace"@) != utf8("end"@)) by { assert("backspace"@.len() != "end"@.len()); }
    assert(utf8("backspace"@) != utf8("insert"@)) by { assert("backspace"@.len() != "insert"@.len()); }
    assert(utf8("backspace"@) != utf8("delete"@)) by { assert("backspace"@.len() != "delete"@.len()); }
    assert(utf8("backspace"@) != utf8("pageup"@)) by { assert("backspace"@.len() != "pageup"@.len()); }
    assert(utf8("backspace"@) != utf8("pagedown"@)) by { assert("backspace"@.len() != "pagedown"@.len()); }
    assert(utf8("backspace"@) != utf8("f1"@)) by { assert("backspace"@.len() != "f1"@.len()); }
    assert(utf8("backspace"@) != utf8("f2"@)) by { assert("backspace"@.len() != "f2"@.len()); }
    assert(utf8("backspace"@) != utf8("f3"@)) by { assert("backspace"@.len() != "f3"@.len()); }
    assert(utf8("backspace"@) != utf8("f4"@)) by { assert("backspace"@.len() != "f4"@.len()); }
    assert(utf8("backspace"@) != utf8("f5"@)) by { assert("backspace"@.len() != "f5"@.len()); }
    assert(utf8("backspace"@) != utf8("f6"@)) by { assert("backspace"@.len() != "f6"@.len()); }
    assert(utf8("backspace"@) != utf8("f7"@)) by { assert("backspace"@.len() != "f7"@.len()); }
    assert(utf8("backspace"@) != utf8("f8"@)) by { assert("backspace"@.len() != "f8"@.len()); }
    assert(utf8("backspace"@) != utf8("f9"@)) by { assert("backspace"@.len() != "f9"@.len()); }
    assert(utf8("backspace"@) != utf8("f10"@)) by { assert("backspace"@.len() != "f10"@.len()); }
    assert(utf8("backspace"@) != utf8("f11"@)) by { assert("backspace"@.len() != "f11"@.len()); }
    assert(utf8("backspace"@) != utf8("f12"@)) by { assert("backspace"@.len() != "f12"@.len()); }
    assert(utf8("backspace"@) != utf8("tab"@)) by { assert("backspace"@.len() != "tab"@.len()); }
    assert(utf8("backspace"@) != utf8("enter"@)) by { assert("backspace"@.len() != "enter"@.len()); }
    assert(utf8("backspace"@) != utf8("escape"@)) by { assert("backspace"@.len() != "escape"@.len()); }
    reveal_with_fuel(decimal, 3);
    assert(decimal(15) =~= seq![49u8, 53u8]);
    assert(decimal(17) =~= seq![49u8, 55u8]);
    assert(decimal(18) =~= seq![49u8, 56u8]);
    assert(decimal(19) =~= seq![49u8, 57u8]);
    assert(decimal(20) =~= seq![50u8, 48u8]);
    assert(decimal(21) =~= seq![50u8, 49u8]);
    assert(decimal(23) =~= seq![50u8, 51u8]);
    assert(decimal(24) =~= seq![50u8, 52u8]);
    assert(csi() + seq![72u8] =~= seq![27u8, 91u8, 72u8]);
    assert(csi() + seq![70u8] =~= seq![27u8, 91u8, 70u8]);
    assert(csi() + decimal(2) + seq![126u8] =~= seq![27u8, 91u8, 50u8, 126u8]);
    assert(csi() + decimal(3) + seq![126u8] =~= seq![27u8, 91u8, 51u8, 126u8]);
    assert(csi() + decimal(5) + seq![126u8] =~= seq![27u8, 91u8, 53u8, 126u8]);
    assert(csi() + decimal(6) + seq![126u8] =~= seq![27u8, 91u8, 54u8, 126u8]);
    assert(csi() + decimal(15) + seq![126u8] =~= seq![27u8, 91u8, 49u8, 53u8, 126u8]);
    assert(csi() + decimal(17) + seq![126u8] =~= seq![27u8, 91u8, 49u8, 55u8, 126u8]);
    assert(csi() + decimal(18) + seq![126u8] =~= seq![27u8, 91u8, 49u8, 56u8, 126u8]);
    assert(csi() + decimal(19) + seq![126u8] =~= seq![27u8, 91u8, 49u8, 57u8, 126u8]);
    assert(csi() + decimal(20) + seq![126u8] =~= seq![27u8, 91u8, 50u8, 48u8, 126u8]);
    assert(csi() + decimal(21) + seq![126u8] =~= seq![27u8, 91u8, 50u8, 49u8, 126u8]);
    assert(csi() + decimal(23) + seq![126u8] =~= seq![27u8, 91u8, 50u8, 51u8, 126u8]);
    assert(csi() + decimal(24) + seq![126u8] =~= seq![27u8, 91u8, 50u8, 52u8, 126u8]);
}

/// The bytes a key press sends (see [`key_bytes`]), where Option composes
/// characters when `macos` holds.
pub fn sequence_for(
    key: &str,
    text: Option<&str>,
    modifiers: Modifiers,
    app_cursor: bool,
    macos: bool,
) -> (res: Option<Vec<u8>>)
    ensures
        match key_bytes(
            utf8(key@),
            match text {
                Some(t) => Some(utf8(t@)),
                None => None,
            },
            modifiers,
            app_cursor,
            macos,
        ) {
            Some(b) => res matches Some(v) && v@ == b,
            None => res is None,
        },
{
    let k = key.as_bytes();
    let shift: u8 = if modifiers.shift {
        1
    } else {
        0
    };
    let alt: u8 = if modifiers.alt {
        2
    } else {
        0
    };
    let control: u8 = if modifiers.control {
        4
    } else {
        0
    };
    let p = 1 + shift + alt + control;
    assert(p == parameter(modifiers));
    if is_text(k, "up") {
        Some(cursor_sequence(p, app_cursor, 65))
    } else if is_text(k, "down") {
        Some(cursor_sequence(p, app_cursor, 66))
    } else if is_text(k, "right") {
        Some(cursor_sequence(p, app_cursor, 67))
    } else if is_text(k, "left") {
        Some(cursor_sequence(p, app_cursor, 68))
    } else if is_text(k, "home") {
        Some(cursor_sequence(p, app_cursor, 72))
    } else if is_text(k, "end") {
        Some(cursor_sequence(p, app_cursor, 70))
    } else if is_text(k, "insert") {
        Some(tilde_sequence(p, 2))
    } else if is_text(k, "delete") {
        Some(tilde_sequence(p, 3))
    } else if is_text(k, "pageup") {
        Some(tilde_sequence(p, 5))
    } else if is_text(k, "pagedown") {
        Some(tilde_sequence(p, 6))
    } else if is_text(k, "f1") {
        Some(function_sequence(p, 80))
    } else if is_text(k, "f2") {
        Some(function_sequence(p, 81))
    } else if is_text(k, "f3") {
        Some(function_sequence(p, 82))
    } else if is_text(k, "f4") {
        Some(function_sequence(p, 83))
    } else if is_text(k, "f5") {
        Some(tilde_sequence(p, 15))
    } else if is_text(k, "f6") {
        Some(tilde_sequence(p, 17))
    } else if is_text(k, "f7") {
        Some(tilde_sequence(p, 18))
    } else if is_text(k, "f8") {
        Some(tilde_sequence(p, 19))
    } else if is_text(k, "f9") {
        Some(tilde_sequence(p, 20))
    } else if is_text(k, "f10") {
        Some(tilde_sequence(p, 21))
    } else if is_text(k, "f11") {
        Some(tilde_sequence(p, 23))
    } else if is_text(k, "f12") {
        Some(tilde_sequence(p, 24))
    } else if is_text(k, "tab") && modifiers.shift {
        let v: Vec<u8> = vec![27, 91, 90];
        assert(v@ =~= csi() + seq![90u8]);
        Some(v)
    } else if is_text(k, "tab") {
        Some(meta_sequence(modifiers.alt, &[9]))
    } else if is_text(k, "enter") {
        Some(meta_sequence(modifiers.alt, &[13]))
    } else if is_text(k, "escape") {
        Some(meta_sequence(modifiers.alt, &[27]))
    } else if is_text(k, "backspace") && modifiers.control {
        Some(meta_sequence(modifiers.alt, &[8]))
    } else if is_text(k, "backspace") {
        Some(meta_sequence(modifiers.alt, &[127]))
    } else if modifiers.control && !modifiers.alt {
        match control_code(key) {
            Some(c) => {
                let v: Vec<u8> = vec![c];
                assert(v@ =~= seq![c]);
                Some(v)
            },
            None => None,
        }
    } else if modifiers.alt && !modifiers.control && !macos {
        let typed = match text {
            Some(t) => t.as_bytes(),
            None => k,
        };
        Some(meta_sequence(true, typed))
    } else {
        None
    }
}

/// The bytes a key press sends, as on Linux and Windows, where Alt sends
/// `ESC` before the typed text (see [`key_bytes`]).
pub fn sequence(key: &str, text: Option<&str>, modifiers: Modifiers, app_cursor: bool) -> (res:
    Option<Vec<u8>>)
    ensures
        match key_bytes(
            utf8(key@),
            match text {
                Some(t) => Some(utf8(t@)),
                None => None,
            },
            modifiers,
            app_cursor,
            false,
        ) {
            Some(b) => res matches Some(v) && v@ == b,
            None => res is None,
        },
{
    sequence_for(key, text, modifiers, app_cursor, false)
}

} // verus!
