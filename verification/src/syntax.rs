//! Syntax highlighting: the kinds of token the highlighter colors and the
//! language of a file.

use vstd::prelude::*;

use crate::file_icons::{dot_before, extension, file_name, name_range};
use crate::text::{is_text, utf8};

verus! {

/// A kind of token the highlighter colors.
#[derive(Clone, Copy, Debug, PartialEq, Eq, Structural, PartialOrd, Ord, Hash)]
pub enum Token {
    Keyword,
    Declaration,
    Call,
    Name,
    Type,
    Constant,
    String,
    Comment,
    DocComment,
    Attribute,
}

/// Every kind of token, in order.
pub open spec fn all_tokens() -> Seq<Token> {
    seq![Token::Keyword, Token::Declaration, Token::Call, Token::Name, Token::Type, Token::Constant, Token::String, Token::Comment, Token::DocComment, Token::Attribute]
}

/// The highlight capture a token kind is colored by.
pub open spec fn capture_of(t: Token) -> Seq<char> {
    match t {
        Token::Keyword => "keyword"@,
        Token::Declaration => "title"@,
        Token::Call => "function"@,
        Token::Name => "variable"@,
        Token::Type => "type"@,
        Token::Constant => "constant"@,
        Token::String => "string"@,
        Token::Comment => "comment"@,
        Token::DocComment => "comment.doc"@,
        Token::Attribute => "attribute"@,
    }
}

/// The default colors of a token kind, `0xRRGGBB`, in the dark and the light theme.
pub open spec fn token_colors(t: Token) -> (u32, u32) {
    match t {
        Token::Keyword => (0xc792ea, 0x8e3fc9),
        Token::Declaration => (0x82aaff, 0x2f5fd1),
        Token::Call => (0xe8c17a, 0x8a6400),
        Token::Name => (0xf0a3c0, 0xb8306a),
        Token::Type => (0x5fd4c4, 0x08806f),
        Token::Constant => (0xf78c6c, 0xc2531c),
        Token::String => (0xa5d68b, 0x3d8a2e),
        Token::Comment => (0x676b75, 0x8c8f96),
        Token::DocComment => (0x6f8f7b, 0x53785d),
        Token::Attribute => (0xc3bb74, 0x6f7520),
    }
}

impl Token {
    /// Every kind of token, in order.
    pub fn all() -> (res: Vec<Token>)
        ensures
            res@ == all_tokens(),
    {
        let v = vec![Token::Keyword, Token::Declaration, Token::Call, Token::Name, Token::Type, Token::Constant, Token::String, Token::Comment, Token::DocComment, Token::Attribute];
        assert(v@ =~= all_tokens());
        v
    }

    /// The highlight capture the token kind is colored by.
    pub fn capture(self) -> (res: &'static str)
        ensures
            res@ == capture_of(self),
    {
        match self {
            Token::Keyword => "keyword",
            Token::Declaration => "title",
            Token::Call => "function",
            Token::Name => "variable",
            Token::Type => "type",
            Token::Constant => "constant",
            Token::String => "string",
            Token::Comment => "comment",
            Token::DocComment => "comment.doc",
            Token::Attribute => "attribute",
        }
    }
}

/// The default colors of a token kind (see [`token_colors`]).
pub fn syntax_defaults(token: Token) -> (res: (u32, u32))
    ensures
        res == token_colors(token),
{
    match token {
        Token::Keyword => (0xc792ea, 0x8e3fc9),
        Token::Declaration => (0x82aaff, 0x2f5fd1),
        Token::Call => (0xe8c17a, 0x8a6400),
        Token::Name => (0xf0a3c0, 0xb8306a),
        Token::Type => (0x5fd4c4, 0x08806f),
        Token::Constant => (0xf78c6c, 0xc2531c),
        Token::String => (0xa5d68b, 0x3d8a2e),
        Token::Comment => (0x676b75, 0x8c8f96),
        Token::DocComment => (0x6f8f7b, 0x53785d),
        Token::Attribute => (0xc3bb74, 0x6f7520),
    }
}

/// The language registered for a file extension; `plain_text` for others.
pub open spec fn language_of(ext: Seq<u8>) -> Seq<char> {
    if ext == utf8("c"@) || ext == utf8("h"@) {
        "c"@
    } else if ext == utf8("cs"@) {
        "c_sharp"@
    } else if ext == utf8("go"@) {
        "go"@
    } else if ext == utf8("java"@) {
        "java"@
    } else if ext == utf8("js"@) || ext == utf8("mjs"@) || ext == utf8("cjs"@) {
        "javascript"@
    } else if ext == utf8("jsx"@) {
        "jsx"@
    } else if ext == utf8("rs"@) {
        "rust"@
    } else if ext == utf8("ts"@) || ext == utf8("mts"@) || ext == utf8("cts"@) {
        "typescript"@
    } else if ext == utf8("tsx"@) {
        "tsx"@
    } else if ext == utf8("zig"@) {
        "zig"@
    } else {
        "plain_text"@
    }
}

/// The extension of the file a path names, as bytes (see
/// [`file_name`] and [`extension`]).
pub open spec fn path_extension(p: Seq<u8>) -> Seq<u8> {
    match file_name(p) {
        Some(r) => extension(p.subrange(r.0, r.1)),
        None => Seq::empty(),
    }
}

/// The language a file is highlighted as, by its extension (letter case
/// counts); `plain_text` without a path.
pub fn language(path: Option<&str>) -> (res: &'static str)
    ensures
        res@ == match path {
            None => "plain_text"@,
            Some(p) => language_of(path_extension(utf8(p@))),
        },
{
    let p = match path {
        None => return "plain_text",
        Some(p) => p.as_bytes(),
    };
    let (start, end) = match name_range(p) {
        Some(r) => r,
        None => (0, 0),
    };
    let name = &p[start..end];
    assert(name@ == match file_name(p@) {
        Some(r) => p@.subrange(r.0, r.1),
        None => Seq::<u8>::empty(),
    });
    let (a, b) = match dot_before(name, name.len()) {
        Some(d) if d > 0 => (d + 1, name.len()),
        _ => (0, 0),
    };
    let e = &name[a..b];
    assert(e@ =~= extension(name@));
    if is_text(e, "c") || is_text(e, "h") {
        "c"
    } else if is_text(e, "cs") {
        "c_sharp"
    } else if is_text(e, "go") {
        "go"
    } else if is_text(e, "java") {
        "java"
    } else if is_text(e, "js") || is_text(e, "mjs") || is_text(e, "cjs") {
        "javascript"
    } else if is_text(e, "jsx") {
        "jsx"
    } else if is_text(e, "rs") {
        "rust"
    } else if is_text(e, "ts") || is_text(e, "mts") || is_text(e, "cts") {
        "typescript"
    } else if is_text(e, "tsx") {
        "tsx"
    } else if is_text(e, "zig") {
        "zig"
    } else {
        "plain_text"
    }
}

} // verus!
