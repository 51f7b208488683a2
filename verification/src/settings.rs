//! Settings problems as the status bar reports them.

use vstd::prelude::*;
use vstd::utf8::*;

use crate::text::{decimal, lemma_ascii_valid, lemma_decimal_ascii, push_decimal, push_str, string_from_utf8, utf8};

verus! {

broadcast use {
    vstd::utf8::encode_utf8_valid_utf8,
    vstd::utf8::decode_utf8_encode_utf8,
    vstd::utf8::valid_utf8_concat,
};

/// The name of the settings file.
pub const FILE_NAME: &'static str = "settings.json";

/// Where the settings file is.
pub struct SettingsPath(pub String);

/// The status line for problems found in the settings: the first problem,
/// and how many more there are; none without problems.
pub open spec fn summary_text(problems: Seq<String>) -> Option<Seq<u8>> {
    if problems.len() == 0 {
        None
    } else {
        let head = utf8("Settings error — "@) + utf8(problems[0]@);
        Some(
            if problems.len() == 1 {
                head
            } else {
                head + utf8(" (and "@) + decimal((problems.len() - 1) as nat) + utf8(" more)"@)
            },
        )
    }
}

/// Summarises the problems found in the settings (see [`summary_text`]).
pub fn summary(problems: &[String]) -> (res: Option<String>)
    ensures
        match summary_text(problems@) {
            None => res is None,
            Some(t) => res matches Some(s) && utf8(s@) == t,
        },
{
    let n = problems.len();
    if n == 0 {
        return None;
    }
    let mut out: Vec<u8> = Vec::new();
    push_str(&mut out, "Settings error — ");
    let ghost a = out@;
    push_str(&mut out, problems[0].as_str());
    proof {
        assert(a =~= utf8("Settings error — "@));
        valid_utf8_concat(a, utf8(problems@[0]@));
    }
    if n > 1 {
        let ghost b = out@;
        push_str(&mut out, " (and ");
        let ghost c = out@;
        push_decimal(&mut out, (n - 1) as u64);
        let ghost d = out@;
        push_str(&mut out, " more)");
        proof {
            valid_utf8_concat(b, utf8(" (and "@));
            lemma_decimal_ascii((n - 1) as nat);
            lemma_ascii_valid(decimal((n - 1) as nat));
            valid_utf8_concat(c, decimal((n - 1) as nat));
            assert(d == c + decimal((n - 1) as nat));
            valid_utf8_concat(d, utf8(" more)"@));
        }
    }
    assert(out@ =~= summary_text(problems@).unwrap());
    Some(string_from_utf8(out))
}

} // verus!
