//! Reading Vim commands from the keys typed so far.

use vstd::prelude::*;

verus! {

/// A key press as Vim reads it.
#[derive(Clone, Copy, Debug, PartialEq, Eq, Structural)]
pub enum Key {
    Char(char),
    Ctrl(char),
    Escape,
    Enter,
    Backspace,
    Delete,
    Tab,
    Left,
    Right,
    Up,
    Down,
    Home,
    End,
    Other,
}

/// What an operator does to the text it covers.
#[derive(Clone, Copy, Debug, PartialEq, Eq, Structural)]
pub enum Operator {
    Delete,
    Change,
    Yank,
    Indent,
    Outdent,
    Lowercase,
    Uppercase,
    ToggleCase,
}

/// A character search within the line: forward or back, up to the
/// character or just before it.
#[derive(Clone, Copy, Debug, PartialEq, Eq, Structural)]
pub struct Find {
    pub forward: bool,
    pub till: bool,
    pub target: char,
}

/// Where a motion moves the cursor.
#[derive(Clone, Copy, Debug, PartialEq, Eq, Structural)]
pub enum Motion {
    Left,
    Right,
    Up,
    Down,
    LineStart,
    FirstNonBlank,
    LineEnd,
    NextWordStart { big: bool },
    PrevWordStart { big: bool },
    WordEnd { big: bool },
    PrevWordEnd { big: bool },
    FirstLine,
    LastLine,
    Find(Find),
    RepeatFind { reverse: bool },
    MatchingBracket,
    NextParagraph,
    PrevParagraph,
    NextLine,
    PrevLine,
    CurrentLine,
    SearchNext { reverse: bool },
    SearchWord { forward: bool },
    HalfPageDown,
    HalfPageUp,
}

/// A text object: a word, a quoted string or a bracketed block.
#[derive(Clone, Copy, Debug, PartialEq, Eq, Structural)]
pub enum Object {
    Word { big: bool },
    Quote(char),
    Bracket(char, char),
}

/// What an operator covers.
#[derive(Clone, Copy, Debug, PartialEq, Eq, Structural)]
pub enum Target {
    Motion(Motion),
    Object { object: Object, around: bool },
    Lines,
    Selection,
    SelectionLines,
}

/// Where insert mode starts.
#[derive(Clone, Copy, Debug, PartialEq, Eq, Structural)]
pub enum InsertAt {
    Cursor,
    AfterCursor,
    LineStart,
    LineEnd,
    LineBelow,
    LineAbove,
    SelectionStart,
    SelectionEnd,
}

/// The prompt a command opens: the command line or a search.
#[derive(Clone, Copy, Debug, PartialEq, Eq, Structural)]
pub enum PromptKind {
    Command,
    Search { forward: bool },
}

/// What a command does.
#[derive(Clone, Copy, Debug, PartialEq, Eq, Structural)]
pub enum Action {
    Move(Motion),
    Operate(Operator, Target),
    Insert(InsertAt),
    Paste { before: bool },
    Join,
    Replace(char),
    ToggleCaseUnderCursor,
    Undo,
    Redo,
    Repeat,
    Visual { linewise: bool },
    SwapSelectionEnds,
    SelectObject { object: Object, around: bool },
    Prompt(PromptKind),
    NextBuffer,
    PreviousBuffer,
    WriteClose,
    ForceClose,
    Escape,
}

/// A whole command: the register it names, its count and its action.
#[derive(Clone, Copy, Debug, PartialEq, Eq, Structural)]
pub struct Cmd {
    pub register: Option<char>,
    pub count: Option<usize>,
    pub action: Action,
}

/// Whether a command changes the text (and so can be repeated with `.`).
pub open spec fn changes_text(a: Action) -> bool {
    match a {
        Action::Operate(operator, _) => operator != Operator::Yank,
        Action::Insert(_) | Action::Paste { .. } | Action::Join | Action::Replace(_)
        | Action::ToggleCaseUnderCursor => true,
        _ => false,
    }
}

impl Cmd {
    /// The count, 1 when none was typed.
    pub fn count_or_one(&self) -> (res: usize)
        ensures
            res == match self.count {
                Some(c) => c,
                None => 1,
            },
    {
        match self.count {
            Some(c) => c,
            None => 1,
        }
    }

    /// Whether the command changes the text (see [`changes_text`]).
    pub fn is_change(&self) -> (res: bool)
        ensures
            res == changes_text(self.action),
    {
        match self.action {
            Action::Operate(operator, _) => operator != Operator::Yank,
            Action::Insert(_) | Action::Paste { .. } | Action::Join | Action::Replace(_)
            | Action::ToggleCaseUnderCursor => true,
            _ => false,
        }
    }
}

/// Why the keys typed so far are not a command yet: more keys may make
/// one, or none can.
#[derive(Clone, Copy, Debug, PartialEq, Eq, Structural)]
pub enum Stop {
    Incomplete,
    Invalid,
}

/// The largest count.
pub const MAX_COUNT: usize = 99999;

/// The reading of some keys: a value and the position after it, or why
/// reading stopped.
pub type Read<T> = Result<(T, int), Stop>;

/// The key at `p`: none yet is incomplete, and `Escape` after the first
/// key cancels the command.
pub open spec fn next_key(ks: Seq<Key>, p: int) -> Read<Key> {
    if p < 0 || p >= ks.len() {
        Err(Stop::Incomplete)
    } else if ks[p] == Key::Escape && p + 1 > 1 {
        Err(Stop::Invalid)
    } else {
        Ok((ks[p], p + 1))
    }
}

/// The value of a decimal digit.
pub open spec fn digit_value(c: char) -> nat {
    (c as u32 - 48) as nat
}

/// Whether a key continues a count: a digit, but a leading `0` is not one.
pub open spec fn count_digit(key: Key, count: Option<usize>) -> bool {
    match key {
        Key::Char(d) => ('1' <= d <= '9') || (d == '0' && count is Some),
        _ => false,
    }
}

/// A count typed before `key`, the digits read at `p` on: the count (at
/// most [`MAX_COUNT`]), the first key after it and the position after
/// that key.
pub open spec fn count_from(ks: Seq<Key>, p: int, key: Key, count: Option<usize>) -> Result<
    (Option<usize>, Key, int),
    Stop,
>
    decreases ks.len() - p,
{
    if count_digit(key, count) {
        let before = match count {
            Some(c) => c as nat,
            None => 0,
        };
        let d = match key {
            Key::Char(d) => digit_value(d),
            _ => 0,
        };
        let value = if before * 10 + d > MAX_COUNT {
            MAX_COUNT
        } else {
            (before * 10 + d) as usize
        };
        match next_key(ks, p) {
            Err(e) => Err(e),
            Ok((k, q)) => count_from(ks, q, k, Some(value)),
        }
    } else {
        Ok((count, key, p))
    }
}

/// A character typed as an argument (Enter and Tab stand for `\n` and
/// `\t`).
pub open spec fn char_key(ks: Seq<Key>, p: int) -> Read<char> {
    match next_key(ks, p) {
        Err(e) => Err(e),
        Ok((k, q)) => match k {
            Key::Char(c) => Ok((c, q)),
            Key::Enter => Ok(('\n', q)),
            Key::Tab => Ok(('\t', q)),
            _ => Err(Stop::Invalid),
        },
    }
}

/// Two counts combined: their product (at most [`MAX_COUNT`]) when both
/// were typed, else the one that was.
pub open spec fn multiplied(a: Option<usize>, b: Option<usize>) -> Option<usize> {
    match (a, b) {
        (Some(x), Some(y)) => Some(
            if x * y > MAX_COUNT {
                MAX_COUNT
            } else {
                (x * y) as usize
            },
        ),
        (Some(x), None) => Some(x),
        (None, y) => y,
    }
}

/// Whether a register can be named with `"`: an ASCII letter, `"`, `+`,
/// `*` or `_`.
pub open spec fn register_name(c: char) -> bool {
    ('a' <= c <= 'z') || ('A' <= c <= 'Z') || c == '"' || c == '+' || c == '*' || c == '_'
}

/// The operator that `key` (and, after `g`, the key at `p`) names.
pub open spec fn operator_of(key: Key, ks: Seq<Key>, p: int) -> Read<Option<Operator>> {
    match key {
        Key::Char('d') => Ok((Some(Operator::Delete), p)),
        Key::Char('c') => Ok((Some(Operator::Change), p)),
        Key::Char('y') => Ok((Some(Operator::Yank), p)),
        Key::Char('>') => Ok((Some(Operator::Indent), p)),
        Key::Char('<') => Ok((Some(Operator::Outdent), p)),
        Key::Char('g') => if p < 0 || p >= ks.len() {
            Err(Stop::Incomplete)
        } else {
            match ks[p] {
                Key::Char('~') => Ok((Some(Operator::ToggleCase), p + 1)),
                Key::Char('u') => Ok((Some(Operator::Lowercase), p + 1)),
                Key::Char('U') => Ok((Some(Operator::Uppercase), p + 1)),
                _ => Ok((None, p)),
            }
        },
        _ => Ok((None, p)),
    }
}

/// The key that, typed after an operator, makes it cover whole lines.
pub open spec fn doubled_key(op: Operator) -> Key {
    Key::Char(
        match op {
            Operator::Delete => 'd',
            Operator::Change => 'c',
            Operator::Yank => 'y',
            Operator::Indent => '>',
            Operator::Outdent => '<',
            Operator::ToggleCase => '~',
            Operator::Lowercase => 'u',
            Operator::Uppercase => 'U',
        },
    )
}

/// The text object a character names.
pub open spec fn object_of(c: char) -> Result<Object, Stop> {
    if c == 'w' {
        Ok(Object::Word { big: false })
    } else if c == 'W' {
        Ok(Object::Word { big: true })
    } else if c == '"' || c == '\'' || c == '`' {
        Ok(Object::Quote(c))
    } else if c == '(' || c == ')' || c == 'b' {
        Ok(Object::Bracket('(', ')'))
    } else if c == '{' || c == '}' || c == 'B' {
        Ok(Object::Bracket('{', '}'))
    } else if c == '[' || c == ']' {
        Ok(Object::Bracket('[', ']'))
    } else if c == '<' || c == '>' {
        Ok(Object::Bracket('<', '>'))
    } else {
        Err(Stop::Invalid)
    }
}

/// A find motion whose target is the character at `p`.
pub open spec fn find_motion(forward: bool, till: bool, ks: Seq<Key>, p: int) -> Read<Option<Motion>> {
    match char_key(ks, p) {
        Err(e) => Err(e),
        Ok((c, q)) => Ok((Some(Motion::Find(Find { forward, till, target: c })), q)),
    }
}

/// The motion that `key` (and, after `g` or a find, the keys at `p`)
/// names.
pub open spec fn motion_of(key: Key, ks: Seq<Key>, p: int) -> Read<Option<Motion>> {
    match key {
        Key::Char('h') | Key::Left | Key::Backspace => Ok((Some(Motion::Left), p)),
        Key::Char('l') | Key::Right | Key::Char(' ') => Ok((Some(Motion::Right), p)),
        Key::Char('j') | Key::Down | Key::Ctrl('n') => Ok((Some(Motion::Down), p)),
        Key::Char('k') | Key::Up | Key::Ctrl('p') => Ok((Some(Motion::Up), p)),
        Key::Char('0') | Key::Home => Ok((Some(Motion::LineStart), p)),
        Key::Char('^') => Ok((Some(Motion::FirstNonBlank), p)),
        Key::Char('$') | Key::End => Ok((Some(Motion::LineEnd), p)),
        Key::Char('w') => Ok((Some(Motion::NextWordStart { big: false }), p)),
        Key::Char('W') => Ok((Some(Motion::NextWordStart { big: true }), p)),
        Key::Char('b') => Ok((Some(Motion::PrevWordStart { big: false }), p)),
        Key::Char('B') => Ok((Some(Motion::PrevWordStart { big: true }), p)),
        Key::Char('e') => Ok((Some(Motion::WordEnd { big: false }), p)),
        Key::Char('E') => Ok((Some(Motion::WordEnd { big: true }), p)),
        Key::Char('G') => Ok((Some(Motion::LastLine), p)),
        Key::Char('f') => find_motion(true, false, ks, p),
        Key::Char('t') => find_motion(true, true, ks, p),
        Key::Char('F') => find_motion(false, false, ks, p),
        Key::Char('T') => find_motion(false, true, ks, p),
        Key::Char(';') => Ok((Some(Motion::RepeatFind { reverse: false }), p)),
        Key::Char(',') => Ok((Some(Motion::RepeatFind { reverse: true }), p)),
        Key::Char('%') => Ok((Some(Motion::MatchingBracket), p)),
        Key::Char('}') => Ok((Some(Motion::NextParagraph), p)),
        Key::Char('{') => Ok((Some(Motion::PrevParagraph), p)),
        Key::Enter | Key::Char('+') => Ok((Some(Motion::NextLine), p)),
        Key::Char('-') => Ok((Some(Motion::PrevLine), p)),
        Key::Char('_') => Ok((Some(Motion::CurrentLine), p)),
        Key::Char('n') => Ok((Some(Motion::SearchNext { reverse: false }), p)),
        Key::Char('N') => Ok((Some(Motion::SearchNext { reverse: true }), p)),
        Key::Char('*') => Ok((Some(Motion::SearchWord { forward: true }), p)),
        Key::Char('#') => Ok((Some(Motion::SearchWord { forward: false }), p)),
        Key::Ctrl('d') => Ok((Some(Motion::HalfPageDown), p)),
        Key::Ctrl('u') => Ok((Some(Motion::HalfPageUp), p)),
        Key::Char('g') => if p < 0 || p >= ks.len() {
            Err(Stop::Incomplete)
        } else {
            match ks[p] {
                Key::Char('g') => Ok((Some(Motion::FirstLine), p + 1)),
                Key::Char('e') => Ok((Some(Motion::PrevWordEnd { big: false }), p + 1)),
                Key::Char('E') => Ok((Some(Motion::PrevWordEnd { big: true }), p + 1)),
                _ => Ok((None, p)),
            }
        },
        _ => Ok((None, p)),
    }
}

/// A command taking a character argument at `p`.
pub open spec fn with_char(ks: Seq<Key>, p: int) -> Read<Action> {
    match char_key(ks, p) {
        Err(e) => Err(e),
        Ok((c, q)) => Ok((Action::Replace(c), q)),
    }
}

/// The action of a normal-mode key that is neither an operator nor a
/// motion.
pub open spec fn normal_action(key: Key, ks: Seq<Key>, p: int) -> Read<Action> {
    let delete = |m: Motion| Action::Operate(Operator::Delete, Target::Motion(m));
    let change = |m: Motion| Action::Operate(Operator::Change, Target::Motion(m));
    match key {
        Key::Char('x') | Key::Delete => Ok((delete(Motion::Right), p)),
        Key::Char('X') => Ok((delete(Motion::Left), p)),
        Key::Char('D') => Ok((delete(Motion::LineEnd), p)),
        Key::Char('C') => Ok((change(Motion::LineEnd), p)),
        Key::Char('s') => Ok((change(Motion::Right), p)),
        Key::Char('S') => Ok((Action::Operate(Operator::Change, Target::Lines), p)),
        Key::Char('Y') => Ok((Action::Operate(Operator::Yank, Target::Lines), p)),
        Key::Char('i') => Ok((Action::Insert(InsertAt::Cursor), p)),
        Key::Char('a') => Ok((Action::Insert(InsertAt::AfterCursor), p)),
        Key::Char('I') => Ok((Action::Insert(InsertAt::LineStart), p)),
        Key::Char('A') => Ok((Action::Insert(InsertAt::LineEnd), p)),
        Key::Char('o') => Ok((Action::Insert(InsertAt::LineBelow), p)),
        Key::Char('O') => Ok((Action::Insert(InsertAt::LineAbove), p)),
        Key::Char('p') => Ok((Action::Paste { before: false }, p)),
        Key::Char('P') => Ok((Action::Paste { before: true }, p)),
        Key::Char('J') => Ok((Action::Join, p)),
        Key::Char('r') => with_char(ks, p),
        Key::Char('~') => Ok((Action::ToggleCaseUnderCursor, p)),
        Key::Char('u') => Ok((Action::Undo, p)),
        Key::Ctrl('r') => Ok((Action::Redo, p)),
        Key::Char('.') => Ok((Action::Repeat, p)),
        Key::Char('v') => Ok((Action::Visual { linewise: false }, p)),
        Key::Char('V') => Ok((Action::Visual { linewise: true }, p)),
        Key::Char(':') => Ok((Action::Prompt(PromptKind::Command), p)),
        Key::Char('/') => Ok((Action::Prompt(PromptKind::Search { forward: true }), p)),
        Key::Char('?') => Ok((Action::Prompt(PromptKind::Search { forward: false }), p)),
        Key::Char('g') => match next_key(ks, p) {
            Err(e) => Err(e),
            Ok((k, q)) => match k {
                Key::Char('t') => Ok((Action::NextBuffer, q)),
                Key::Char('T') => Ok((Action::PreviousBuffer, q)),
                _ => Err(Stop::Invalid),
            },
        },
        Key::Char('Z') => match next_key(ks, p) {
            Err(e) => Err(e),
            Ok((k, q)) => match k {
                Key::Char('Z') => Ok((Action::WriteClose, q)),
                Key::Char('Q') => Ok((Action::ForceClose, q)),
                _ => Err(Stop::Invalid),
            },
        },
        Key::Escape | Key::Ctrl('[') => Ok((Action::Escape, p)),
        _ => Err(Stop::Invalid),
    }
}

/// The action of a visual-mode key that is neither an operator nor a
/// motion.
pub open spec fn visual_action(key: Key, ks: Seq<Key>, p: int) -> Read<Action> {
    let selection = |o: Operator| Action::Operate(o, Target::Selection);
    let lines = |o: Operator| Action::Operate(o, Target::SelectionLines);
    match key {
        Key::Char('x') | Key::Delete => Ok((selection(Operator::Delete), p)),
        Key::Char('s') => Ok((selection(Operator::Change), p)),
        Key::Char('~') => Ok((selection(Operator::ToggleCase), p)),
        Key::Char('u') => Ok((selection(Operator::Lowercase), p)),
        Key::Char('U') => Ok((selection(Operator::Uppercase), p)),
        Key::Char('X') | Key::Char('D') => Ok((lines(Operator::Delete), p)),
        Key::Char('C') | Key::Char('S') | Key::Char('R') => Ok((lines(Operator::Change), p)),
        Key::Char('Y') => Ok((lines(Operator::Yank), p)),
        Key::Char('I') => Ok((Action::Insert(InsertAt::SelectionStart), p)),
        Key::Char('A') => Ok((Action::Insert(InsertAt::SelectionEnd), p)),
        Key::Char('p') | Key::Char('P') => Ok((Action::Paste { before: false }, p)),
        Key::Char('J') => Ok((Action::Join, p)),
        Key::Char('r') => with_char(ks, p),
        Key::Char('o') | Key::Char('O') => Ok((Action::SwapSelectionEnds, p)),
        Key::Char('i') | Key::Char('a') => match char_key(ks, p) {
            Err(e) => Err(e),
            Ok((c, q)) => match object_of(c) {
                Err(e) => Err(e),
                Ok(object) => Ok((Action::SelectObject { object, around: key == Key::Char('a') }, q)),
            },
        },
        Key::Char('v') => Ok((Action::Visual { linewise: false }, p)),
        Key::Char('V') => Ok((Action::Visual { linewise: true }, p)),
        Key::Char(':') => Ok((Action::Prompt(PromptKind::Command), p)),
        Key::Char('/') => Ok((Action::Prompt(PromptKind::Search { forward: true }), p)),
        Key::Char('?') => Ok((Action::Prompt(PromptKind::Search { forward: false }), p)),
        Key::Escape | Key::Ctrl('[') => Ok((Action::Escape, p)),
        _ => Err(Stop::Invalid),
    }
}

/// What an operator covers when the keys at `p` follow it (outside visual
/// mode): its doubled key for whole lines, `i` or `a` and an object, or a
/// motion; with the count typed between them.
pub open spec fn operator_target(op: Operator, ks: Seq<Key>, p: int) -> Result<(Option<usize>, Target), Stop> {
    match next_key(ks, p) {
        Err(e) => Err(e),
        Ok((first, q)) => match count_from(ks, q, first, None) {
            Err(e) => Err(e),
            Ok((motion_count, key, r)) => if key == doubled_key(op) {
                Ok((motion_count, Target::Lines))
            } else if key == Key::Char('i') || key == Key::Char('a') {
                match char_key(ks, r) {
                    Err(e) => Err(e),
                    Ok((c, _)) => match object_of(c) {
                        Err(e) => Err(e),
                        Ok(object) => Ok(
                            (
                                motion_count,
                                Target::Object { object, around: key == Key::Char('a') },
                            ),
                        ),
                    },
                }
            } else {
                match motion_of(key, ks, r) {
                    Err(e) => Err(e),
                    Ok((None, _)) => Err(Stop::Invalid),
                    Ok((Some(m), _)) => Ok((motion_count, Target::Motion(m))),
                }
            },
        },
    }
}

/// The command that the keys typed so far make (in visual mode when
/// `visual` holds): an optional `"` and register name, an optional count,
/// then an operator and what it covers, a motion, or a command of the mode.
pub open spec fn parsed(ks: Seq<Key>, visual: bool) -> Result<Cmd, Stop> {
    match next_key(ks, 0) {
        Err(e) => Err(e),
        Ok((k0, p0)) => {
            let reg: Result<(Option<char>, Key, int), Stop> = if k0 == Key::Char('"') {
                match char_key(ks, p0) {
                    Err(e) => Err(e),
                    Ok((name, p1)) => if !register_name(name) {
                        Err(Stop::Invalid)
                    } else {
                        match next_key(ks, p1) {
                            Err(e) => Err(e),
                            Ok((k, p2)) => Ok((Some(name), k, p2)),
                        }
                    },
                }
            } else {
                Ok((None, k0, p0))
            };
            match reg {
                Err(e) => Err(e),
                Ok((register, k1, p1)) => match count_from(ks, p1, k1, None) {
                    Err(e) => Err(e),
                    Ok((count, key, p)) => match operator_of(key, ks, p) {
                        Err(e) => Err(e),
                        Ok((Some(op), q)) => if visual {
                            Ok(Cmd { register, count, action: Action::Operate(op, Target::Selection) })
                        } else {
                            match operator_target(op, ks, q) {
                                Err(e) => Err(e),
                                Ok((motion_count, target)) => Ok(
                                    Cmd {
                                        register,
                                        count: multiplied(count, motion_count),
                                        action: Action::Operate(op, target),
                                    },
                                ),
                            }
                        },
                        Ok((None, q)) => match motion_of(key, ks, q) {
                            Err(e) => Err(e),
                            Ok((Some(m), _)) => Ok(Cmd { register, count, action: Action::Move(m) }),
                            Ok((None, r)) => match if visual {
                                visual_action(key, ks, r)
                            } else {
                                normal_action(key, ks, r)
                            } {
                                Err(e) => Err(e),
                                Ok((action, _)) => Ok(Cmd { register, count, action }),
                            },
                        },
                    },
                },
            }
        },
    }
}

/// Whether an exec reading agrees with its specification.
pub open spec fn same_read<T>(res: Result<(T, usize), Stop>, spec: Read<T>) -> bool {
    match res {
        Ok((v, q)) => spec == Ok::<(T, int), Stop>((v, q as int)),
        Err(e) => spec == Err::<(T, int), Stop>(e),
    }
}

/// Positions that a reading of `ks` leaves.
pub open spec fn read_in<T>(res: Result<(T, usize), Stop>, ks: Seq<Key>) -> bool {
    res matches Ok((_, q)) ==> q <= ks.len()
}

fn next(ks: &[Key], p: usize) -> (res: Result<(Key, usize), Stop>)
    ensures
        same_read(res, next_key(ks@, p as int)),
        read_in(res, ks@),
{
    if p >= ks.len() {
        return Err(Stop::Incomplete);
    }
    let k = ks[p];
    if k == Key::Escape && p + 1 > 1 {
        return Err(Stop::Invalid);
    }
    Ok((k, p + 1))
}

fn count(ks: &[Key], p: usize, key: Key) -> (res: Result<(Option<usize>, Key, usize), Stop>)
    requires
        p <= ks@.len(),
    ensures
        match res {
            Ok((c, k, q)) => count_from(ks@, p as int, key, None) == Ok::<
                (Option<usize>, Key, int),
                Stop,
            >((c, k, q as int)) && q <= ks@.len(),
            Err(e) => count_from(ks@, p as int, key, None) == Err::<
                (Option<usize>, Key, int),
                Stop,
            >(e),
        },
{
    let mut count: Option<usize> = None;
    let mut k = key;
    let mut pos = p;
    loop
        invariant
            pos <= ks@.len(),
            count matches Some(c) ==> c <= MAX_COUNT,
            count_from(ks@, pos as int, k, count) == count_from(ks@, p as int, key, None),
        decreases ks@.len() - pos,
    {
        let digit: Option<usize> = match k {
            Key::Char(d) => if ('1' <= d && d <= '9') || (d == '0' && count.is_some()) {
                Some((d as u32 - 48) as usize)
            } else {
                None
            },
            _ => None,
        };
        assert(digit is Some <==> count_digit(k, count));
        match digit {
            None => {
                return Ok((count, k, pos));
            },
            Some(d) => {
                let before = match count {
                    Some(c) => c,
                    None => 0,
                };
                assert(d == match k {
                    Key::Char(x) => digit_value(x),
                    _ => 0,
                });
                let value = if before * 10 + d > MAX_COUNT {
                    MAX_COUNT
                } else {
                    before * 10 + d
                };
                match next(ks, pos) {
                    Err(e) => {
                        return Err(e);
                    },
                    Ok((nk, q)) => {
                        count = Some(value);
                        k = nk;
                        pos = q;
                    },
                }
            },
        }
    }
}

fn char_arg(ks: &[Key], p: usize) -> (res: Result<(char, usize), Stop>)
    ensures
        same_read(res, char_key(ks@, p as int)),
        read_in(res, ks@),
{
    match next(ks, p) {
        Err(e) => Err(e),
        Ok((k, q)) => match k {
            Key::Char(c) => Ok((c, q)),
            Key::Enter => Ok(('\n', q)),
            Key::Tab => Ok(('\t', q)),
            _ => Err(Stop::Invalid),
        },
    }
}

/// Two counts combined (see [`multiplied`]).
pub fn multiply(a: Option<usize>, b: Option<usize>) -> (res: Option<usize>)
    requires
        a matches Some(x) ==> x <= MAX_COUNT,
        b matches Some(y) ==> y <= MAX_COUNT,
    ensures
        res == multiplied(a, b),
{
    match (a, b) {
        (Some(x), Some(y)) => {
            assert(x * y <= MAX_COUNT * MAX_COUNT) by (nonlinear_arith)
                requires
                    x <= MAX_COUNT,
                    y <= MAX_COUNT,
            ;
            let product = x as u64 * y as u64;
            Some(
                if product > MAX_COUNT as u64 {
                    MAX_COUNT
                } else {
                    product as usize
                },
            )
        },
        (Some(x), None) => Some(x),
        (None, y) => y,
    }
}

/// Whether a register can be named (see [`register_name`]).
pub fn is_register(name: char) -> (res: bool)
    ensures
        res == register_name(name),
{
    ('a' <= name && name <= 'z') || ('A' <= name && name <= 'Z') || name == '"' || name == '+'
        || name == '*' || name == '_'
}

fn operator(key: Key, ks: &[Key], p: usize) -> (res: Result<(Option<Operator>, usize), Stop>)
    requires
        p <= ks@.len(),
    ensures
        same_read(res, operator_of(key, ks@, p as int)),
        read_in(res, ks@),
{
    match key {
        Key::Char('d') => Ok((Some(Operator::Delete), p)),
        Key::Char('c') => Ok((Some(Operator::Change), p)),
        Key::Char('y') => Ok((Some(Operator::Yank), p)),
        Key::Char('>') => Ok((Some(Operator::Indent), p)),
        Key::Char('<') => Ok((Some(Operator::Outdent), p)),
        Key::Char('g') => if p >= ks.len() {
            Err(Stop::Incomplete)
        } else {
            match ks[p] {
                Key::Char('~') => Ok((Some(Operator::ToggleCase), p + 1)),
                Key::Char('u') => Ok((Some(Operator::Lowercase), p + 1)),
                Key::Char('U') => Ok((Some(Operator::Uppercase), p + 1)),
                _ => Ok((None, p)),
            }
        },
        _ => Ok((None, p)),
    }
}

fn doubled(op: Operator) -> (res: Key)
    ensures
        res == doubled_key(op),
{
    Key::Char(
        match op {
            Operator::Delete => 'd',
            Operator::Change => 'c',
            Operator::Yank => 'y',
            Operator::Indent => '>',
            Operator::Outdent => '<',
            Operator::ToggleCase => '~',
            Operator::Lowercase => 'u',
            Operator::Uppercase => 'U',
        },
    )
}

fn object(c: char) -> (res: Result<Object, Stop>)
    ensures
        res == object_of(c),
{
    if c == 'w' {
        Ok(Object::Word { big: false })
    } else if c == 'W' {
        Ok(Object::Word { big: true })
    } else if c == '"' || c == '\'' || c == '`' {
        Ok(Object::Quote(c))
    } else if c == '(' || c == ')' || c == 'b' {
        Ok(Object::Bracket('(', ')'))
    } else if c == '{' || c == '}' || c == 'B' {
        Ok(Object::Bracket('{', '}'))
    } else if c == '[' || c == ']' {
        Ok(Object::Bracket('[', ']'))
    } else if c == '<' || c == '>' {
        Ok(Object::Bracket('<', '>'))
    } else {
        Err(Stop::Invalid)
    }
}

fn find(forward: bool, till: bool, ks: &[Key], p: usize) -> (res: Result<(Option<Motion>, usize), Stop>)
    ensures
        same_read(res, find_motion(forward, till, ks@, p as int)),
        read_in(res, ks@),
{
    match char_arg(ks, p) {
        Err(e) => Err(e),
        Ok((c, q)) => Ok((Some(Motion::Find(Find { forward, till, target: c })), q)),
    }
}
fn motion(key: Key, ks: &[Key], p: usize) -> (res: Result<(Option<Motion>, usize), Stop>)
    requires
        p <= ks@.len(),
    ensures
        same_read(res, motion_of(key, ks@, p as int)),
        read_in(res, ks@),
{
    match key {
        Key::Char('h') | Key::Left | Key::Backspace => Ok((Some(Motion::Left), p)),
        Key::Char('l') | Key::Right | Key::Char(' ') => Ok((Some(Motion::Right), p)),
        Key::Char('j') | Key::Down | Key::Ctrl('n') => Ok((Some(Motion::Down), p)),
        Key::Char('k') | Key::Up | Key::Ctrl('p') => Ok((Some(Motion::Up), p)),
        Key::Char('0') | Key::Home => Ok((Some(Motion::LineStart), p)),
        Key::Char('^') => Ok((Some(Motion::FirstNonBlank), p)),
        Key::Char('$') | Key::End => Ok((Some(Motion::LineEnd), p)),
        Key::Char('w') => Ok((Some(Motion::NextWordStart { big: false }), p)),
        Key::Char('W') => Ok((Some(Motion::NextWordStart { big: true }), p)),
        Key::Char('b') => Ok((Some(Motion::PrevWordStart { big: false }), p)),
        Key::Char('B') => Ok((Some(Motion::PrevWordStart { big: true }), p)),
        Key::Char('e') => Ok((Some(Motion::WordEnd { big: false }), p)),
        Key::Char('E') => Ok((Some(Motion::WordEnd { big: true }), p)),
        Key::Char('G') => Ok((Some(Motion::LastLine), p)),
        Key::Char('f') => find(true, false, ks, p),
        Key::Char('t') => find(true, true, ks, p),
        Key::Char('F') => find(false, false, ks, p),
        Key::Char('T') => find(false, true, ks, p),
        Key::Char(';') => Ok((Some(Motion::RepeatFind { reverse: false }), p)),
        Key::Char(',') => Ok((Some(Motion::RepeatFind { reverse: true }), p)),
        Key::Char('%') => Ok((Some(Motion::MatchingBracket), p)),
        Key::Char('}') => Ok((Some(Motion::NextParagraph), p)),
        Key::Char('{') => Ok((Some(Motion::PrevParagraph), p)),
        Key::Enter | Key::Char('+') => Ok((Some(Motion::NextLine), p)),
        Key::Char('-') => Ok((Some(Motion::PrevLine), p)),
        Key::Char('_') => Ok((Some(Motion::CurrentLine), p)),
        Key::Char('n') => Ok((Some(Motion::SearchNext { reverse: false }), p)),
        Key::Char('N') => Ok((Some(Motion::SearchNext { reverse: true }), p)),
        Key::Char('*') => Ok((Some(Motion::SearchWord { forward: true }), p)),
        Key::Char('#') => Ok((Some(Motion::SearchWord { forward: false }), p)),
        Key::Ctrl('d') => Ok((Some(Motion::HalfPageDown), p)),
        Key::Ctrl('u') => Ok((Some(Motion::HalfPageUp), p)),
        Key::Char('g') => if p >= ks.len() {
            Err(Stop::Incomplete)
        } else {
            match ks[p] {
                Key::Char('g') => Ok((Some(Motion::FirstLine), p + 1)),
                Key::Char('e') => Ok((Some(Motion::PrevWordEnd { big: false }), p + 1)),
                Key::Char('E') => Ok((Some(Motion::PrevWordEnd { big: true }), p + 1)),
                _ => Ok((None, p)),
            }
        },
        _ => Ok((None, p)),
    }
}

fn replace_with(ks: &[Key], p: usize) -> (res: Result<(Action, usize), Stop>)
    ensures
        same_read(res, with_char(ks@, p as int)),
        read_in(res, ks@),
{
    match char_arg(ks, p) {
        Err(e) => Err(e),
        Ok((c, q)) => Ok((Action::Replace(c), q)),
    }
}

fn normal_command(key: Key, ks: &[Key], p: usize) -> (res: Result<(Action, usize), Stop>)
    requires
        p <= ks@.len(),
    ensures
        same_read(res, normal_action(key, ks@, p as int)),
        read_in(res, ks@),
{
    match key {
        Key::Char('x') | Key::Delete => Ok((Action::Operate(Operator::Delete, Target::Motion(Motion::Right)), p)),
        Key::Char('X') => Ok((Action::Operate(Operator::Delete, Target::Motion(Motion::Left)), p)),
        Key::Char('D') => Ok((Action::Operate(Operator::Delete, Target::Motion(Motion::LineEnd)), p)),
        Key::Char('C') => Ok((Action::Operate(Operator::Change, Target::Motion(Motion::LineEnd)), p)),
        Key::Char('s') => Ok((Action::Operate(Operator::Change, Target::Motion(Motion::Right)), p)),
        Key::Char('S') => Ok((Action::Operate(Operator::Change, Target::Lines), p)),
        Key::Char('Y') => Ok((Action::Operate(Operator::Yank, Target::Lines), p)),
        Key::Char('i') => Ok((Action::Insert(InsertAt::Cursor), p)),
        Key::Char('a') => Ok((Action::Insert(InsertAt::AfterCursor), p)),
        Key::Char('I') => Ok((Action::Insert(InsertAt::LineStart), p)),
        Key::Char('A') => Ok((Action::Insert(InsertAt::LineEnd), p)),
        Key::Char('o') => Ok((Action::Insert(InsertAt::LineBelow), p)),
        Key::Char('O') => Ok((Action::Insert(InsertAt::LineAbove), p)),
        Key::Char('p') => Ok((Action::Paste { before: false }, p)),
        Key::Char('P') => Ok((Action::Paste { before: true }, p)),
        Key::Char('J') => Ok((Action::Join, p)),
        Key::Char('r') => replace_with(ks, p),
        Key::Char('~') => Ok((Action::ToggleCaseUnderCursor, p)),
        Key::Char('u') => Ok((Action::Undo, p)),
        Key::Ctrl('r') => Ok((Action::Redo, p)),
        Key::Char('.') => Ok((Action::Repeat, p)),
        Key::Char('v') => Ok((Action::Visual { linewise: false }, p)),
        Key::Char('V') => Ok((Action::Visual { linewise: true }, p)),
        Key::Char(':') => Ok((Action::Prompt(PromptKind::Command), p)),
        Key::Char('/') => Ok((Action::Prompt(PromptKind::Search { forward: true }), p)),
        Key::Char('?') => Ok((Action::Prompt(PromptKind::Search { forward: false }), p)),
        Key::Char('g') => match next(ks, p) {
            Err(e) => Err(e),
            Ok((k, q)) => match k {
                Key::Char('t') => Ok((Action::NextBuffer, q)),
                Key::Char('T') => Ok((Action::PreviousBuffer, q)),
                _ => Err(Stop::Invalid),
            },
        },
        Key::Char('Z') => match next(ks, p) {
            Err(e) => Err(e),
            Ok((k, q)) => match k {
                Key::Char('Z') => Ok((Action::WriteClose, q)),
                Key::Char('Q') => Ok((Action::ForceClose, q)),
                _ => Err(Stop::Invalid),
            },
        },
        Key::Escape | Key::Ctrl('[') => Ok((Action::Escape, p)),
        _ => Err(Stop::Invalid),
    }
}

fn visual_command(key: Key, ks: &[Key], p: usize) -> (res: Result<(Action, usize), Stop>)
    requires
        p <= ks@.len(),
    ensures
        same_read(res, visual_action(key, ks@, p as int)),
        read_in(res, ks@),
{
    match key {
        Key::Char('x') | Key::Delete => Ok((Action::Operate(Operator::Delete, Target::Selection), p)),
        Key::Char('s') => Ok((Action::Operate(Operator::Change, Target::Selection), p)),
        Key::Char('~') => Ok((Action::Operate(Operator::ToggleCase, Target::Selection), p)),
        Key::Char('u') => Ok((Action::Operate(Operator::Lowercase, Target::Selection), p)),
        Key::Char('U') => Ok((Action::Operate(Operator::Uppercase, Target::Selection), p)),
        Key::Char('X') | Key::Char('D') => Ok((Action::Operate(Operator::Delete, Target::SelectionLines), p)),
        Key::Char('C') | Key::Char('S') | Key::Char('R') => Ok((Action::Operate(Operator::Change, Target::SelectionLines), p)),
        Key::Char('Y') => Ok((Action::Operate(Operator::Yank, Target::SelectionLines), p)),
        Key::Char('I') => Ok((Action::Insert(InsertAt::SelectionStart), p)),
        Key::Char('A') => Ok((Action::Insert(InsertAt::SelectionEnd), p)),
        Key::Char('p') | Key::Char('P') => Ok((Action::Paste { before: false }, p)),
        Key::Char('J') => Ok((Action::Join, p)),
        Key::Char('r') => replace_with(ks, p),
        Key::Char('o') | Key::Char('O') => Ok((Action::SwapSelectionEnds, p)),
        Key::Char('i') | Key::Char('a') => match char_arg(ks, p) {
            Err(e) => Err(e),
            Ok((c, q)) => match object(c) {
                Err(e) => Err(e),
                Ok(object) => Ok((Action::SelectObject { object, around: key == Key::Char('a') }, q)),
            },
        },
        Key::Char('v') => Ok((Action::Visual { linewise: false }, p)),
        Key::Char('V') => Ok((Action::Visual { linewise: true }, p)),
        Key::Char(':') => Ok((Action::Prompt(PromptKind::Command), p)),
        Key::Char('/') => Ok((Action::Prompt(PromptKind::Search { forward: true }), p)),
        Key::Char('?') => Ok((Action::Prompt(PromptKind::Search { forward: false }), p)),
        Key::Escape | Key::Ctrl('[') => Ok((Action::Escape, p)),
        _ => Err(Stop::Invalid),
    }
}

fn target(op: Operator, ks: &[Key], p: usize) -> (res: Result<(Option<usize>, Target), Stop>)
    requires
        p <= ks@.len(),
    ensures
        match res {
            Ok(x) => operator_target(op, ks@, p as int) == Ok::<(Option<usize>, Target), Stop>(x)
                && (x.0 matches Some(c) ==> c <= MAX_COUNT),
            Err(e) => operator_target(op, ks@, p as int) == Err::<(Option<usize>, Target), Stop>(e),
        },
{
    let (first, q) = match next(ks, p) {
        Err(e) => return Err(e),
        Ok(x) => x,
    };
    let (motion_count, key, r) = match count(ks, q, first) {
        Err(e) => return Err(e),
        Ok(x) => x,
    };
    proof {
        lemma_count_bound(ks@, q as int, first, None);
    }
    if key == doubled(op) {
        Ok((motion_count, Target::Lines))
    } else if key == Key::Char('i') || key == Key::Char('a') {
        match char_arg(ks, r) {
            Err(e) => Err(e),
            Ok((c, _)) => match object(c) {
                Err(e) => Err(e),
                Ok(object) => Ok((motion_count, Target::Object { object, around: key == Key::Char('a') })),
            },
        }
    } else {
        match motion(key, ks, r) {
            Err(e) => Err(e),
            Ok((None, _)) => Err(Stop::Invalid),
            Ok((Some(m), _)) => Ok((motion_count, Target::Motion(m))),
        }
    }
}

proof fn lemma_count_bound(ks: Seq<Key>, p: int, key: Key, count: Option<usize>)
    requires
        count matches Some(c) ==> c <= MAX_COUNT,
    ensures
        count_from(ks, p, key, count) matches Ok(x) ==> (x.0 matches Some(c) ==> c <= MAX_COUNT),
    decreases ks.len() - p,
{
    if count_digit(key, count) {
        let before = match count {
            Some(c) => c as nat,
            None => 0,
        };
        let d = match key {
            Key::Char(d) => digit_value(d),
            _ => 0,
        };
        let value = if before * 10 + d > MAX_COUNT {
            MAX_COUNT
        } else {
            (before * 10 + d) as usize
        };
        match next_key(ks, p) {
            Err(e) => {},
            Ok((k, q)) => {
                lemma_count_bound(ks, q, k, Some(value));
            },
        }
    }
}

/// Reads the command that the keys typed so far make (see [`parsed`]).
pub fn parse(ks: &[Key], visual: bool) -> (res: Result<Cmd, Stop>)
    ensures
        res == parsed(ks@, visual),
{
    let (k0, p0) = match next(ks, 0) {
        Err(e) => return Err(e),
        Ok(x) => x,
    };
    let mut register: Option<char> = None;
    let mut k1 = k0;
    let mut p1 = p0;
    if k0 == Key::Char('"') {
        let (name, q) = match char_arg(ks, p0) {
            Err(e) => return Err(e),
            Ok(x) => x,
        };
        if !is_register(name) {
            return Err(Stop::Invalid);
        }
        let (k, q2) = match next(ks, q) {
            Err(e) => return Err(e),
            Ok(x) => x,
        };
        register = Some(name);
        k1 = k;
        p1 = q2;
    }
    let (count, key, p) = match count(ks, p1, k1) {
        Err(e) => return Err(e),
        Ok(x) => x,
    };
    proof {
        lemma_count_bound(ks@, p1 as int, k1, None);
    }
    let (op, q) = match operator(key, ks, p) {
        Err(e) => return Err(e),
        Ok(x) => x,
    };
    match op {
        Some(op) => {
            if visual {
                return Ok(Cmd { register, count, action: Action::Operate(op, Target::Selection) });
            }
            match target(op, ks, q) {
                Err(e) => Err(e),
                Ok((motion_count, target)) => Ok(
                    Cmd {
                        register,
                        count: multiply(count, motion_count),
                        action: Action::Operate(op, target),
                    },
                ),
            }
        },
        None => match motion(key, ks, q) {
            Err(e) => Err(e),
            Ok((Some(m), _)) => Ok(Cmd { register, count, action: Action::Move(m) }),
            Ok((None, r)) => {
                let action = if visual {
                    visual_command(key, ks, r)
                } else {
                    normal_command(key, ks, r)
                };
                match action {
                    Err(e) => Err(e),
                    Ok((action, _)) => Ok(Cmd { register, count, action }),
                }
            },
        },
    }
}

} // verus!
