//! Vim in the editor: the key contexts it sets, and how key presses
//! become the keys that Vim reads.

use vstd::prelude::*;
use super::engine::{apply_all, key_done, sync_result, Vim};
use super::{Clipboard, Command, Key, Mode, Outcome};

verus! {

/// The key context while Vim is in normal (or visual) mode.
pub const NORMAL_CONTEXT: &'static str = "VimNormal";

/// The key context while Vim is in insert mode.
pub const INSERT_CONTEXT: &'static str = "VimInsert";

/// Vim attached to an editor, with the selection it last set there.
pub struct VimInput {
    vim: Vim,
    applied: Option<(usize, usize)>,
}

impl VimInput {
    /// The Vim state of this editor.
    pub closed spec fn state(&self) -> Vim {
        self.vim
    }

    /// Vim in normal mode, indenting by `shift_width` spaces.
    pub fn new(shift_width: usize) -> (res: Self)
        ensures
            res.state().mode_of() == Mode::Normal,
            res.state().pending_keys().len() == 0,
            res.state().prompt_of() is None,
    {
        VimInput { vim: Vim::new(shift_width), applied: None }
    }

    /// The mode.
    pub fn mode(&self) -> (res: Mode)
        ensures
            res == self.state().mode_of(),
    {
        self.vim.mode()
    }

    /// The key context the editor takes: insert mode's, or normal mode's.
    pub fn key_context(&self) -> (res: &'static str)
        ensures
            res@ == if self.state().mode_of() == Mode::Insert {
                INSERT_CONTEXT@
            } else {
                NORMAL_CONTEXT@
            },
    {
        if self.vim.mode() == Mode::Insert {
            INSERT_CONTEXT
        } else {
            NORMAL_CONTEXT
        }
    }

    /// The open prompt as shown.
    pub fn prompt(&self) -> (res: Option<String>)
        ensures
            res is Some <==> self.state().prompt_of() is Some,
            res matches Some(s) ==> self.state().prompt_of() matches Some((kind, typed)) && s@
                == seq![super::engine::prompt_prefix(kind)] + typed,
    {
        self.vim.prompt()
    }

    /// The keys of the command being typed.
    pub fn pending(&self) -> (res: String)
        ensures
            res@ == super::engine::pending_text(self.state().pending_keys()),
    {
        self.vim.pending()
    }

    /// The Vim state, to hand keys to.
    pub fn vim_mut(&mut self) -> (res: &mut Vim)
        ensures
            *res == old(self).state(),
            final(self).state() == *final(res),
    {
        &mut self.vim
    }

    /// The selection that Vim last set in the editor, as anchor and head.
    pub closed spec fn applied_of(&self) -> Option<(usize, usize)> {
        self.applied
    }

    /// The selection last set in the editor.
    pub fn applied(&self) -> (res: Option<(usize, usize)>)
        ensures
            res == self.applied_of(),
    {
        self.applied
    }

    /// Remembers the selection set in the editor.
    pub fn set_applied(&mut self, applied: Option<(usize, usize)>)
        ensures
            final(self).state() == old(self).state(),
            final(self).applied_of() == applied,
    {
        self.applied = applied;
    }

    /// Whether Vim takes a key: in insert mode only Escape and Ctrl-[,
    /// which leave it; the editor types the others itself.
    pub fn takes(&self, key: Key) -> (res: bool)
        ensures
            res == takes_key(self.state().mode_of(), key),
    {
        !(self.vim.mode() == Mode::Insert && !(key == Key::Escape || key == Key::Ctrl('[')))
    }

    /// Hands a key to Vim, with the editor's text and its selection
    /// `(anchor, head)`: a selection that Vim did not set itself is adopted
    /// first (see [`adopted`]), and the outcome is what [`Vim::key`] gives
    /// from there (see [`key_done`]). No outcome when Vim does not take the
    /// key.
    #[verifier::rlimit(50)]
    #[verifier::spinoff_prover]
    pub fn press<C: Clipboard>(&mut self, key: Key, text: &str, current: (usize, usize), clipboard: &mut C) -> (res:
        Option<Outcome>)
        ensures
            !takes_key(old(self).state().mode_of(), key) ==> res is None && final(self).state()
                == old(self).state() && final(self).applied_of() == old(self).applied_of(),
            takes_key(old(self).state().mode_of(), key) ==> (res matches Some(o) && exists|mid: Vim|
                #[trigger] key_done(text@, mid, key, final(self).state(), o) && adopted(
                    text@,
                    old(self).state(),
                    current,
                    old(self).applied_of() == Some(current),
                    mid,
                )),
            final(self).applied_of() == old(self).applied_of(),
    {
        if !self.takes(key) {
            return None;
        }
        let same = match self.applied {
            Some((a, h)) => a == current.0 && h == current.1,
            None => false,
        };
        if !same {
            self.vim.sync(text, current.0, current.1);
        }
        let ghost mid = self.vim;
        let outcome = self.vim.key(key, text, clipboard);
        assert(key_done(text@, mid, key, self.state(), outcome));
        Some(outcome)
    }

    /// After the editor undid or redid, Vim puts its cursor where the text
    /// first changed, if it changed.
    pub fn rewound(&mut self, before: &str, after: &str)
        ensures
            before@ == after@ ==> final(self).state() == old(self).state(),
            before@ != after@ ==> exists|i: int|
                #![trigger after@.take(i)]
                0 <= i <= before@.len() && i <= after@.len() && before@.take(i) == after@.take(i) && (i
                    == before@.len() || i == after@.len() || before@[i] != after@[i]) && sync_result(
                    after@,
                    old(self).state().mode_of(),
                    i,
                    i,
                    final(self).state().mode_of(),
                    final(self).state().anchor_at() as int,
                    final(self).state().cursor_at() as int,
                    old(self).state().anchor_at() as int,
                ),
            final(self).applied_of() == old(self).applied_of(),
    {
        match first_difference(before, after) {
            Some(changed) => {
                self.vim.sync(after, changed, changed);
                assert(after@.take(changed as int) == before@.take(changed as int));
            },
            None => {},
        }
    }
}

/// The state a key is handed to: the state as it was when the editor's
/// selection is the one Vim set (`same`), else the state after adopting
/// the selection `(anchor, head)` as [`Vim::sync`] does.
pub open spec fn adopted(t: Seq<char>, before: Vim, selection: (usize, usize), same: bool, mid: Vim) -> bool {
    if same {
        mid == before
    } else {
        &&& sync_result(
            t,
            before.mode_of(),
            selection.0 as int,
            selection.1 as int,
            mid.mode_of(),
            mid.anchor_at() as int,
            mid.cursor_at() as int,
            before.anchor_at() as int,
        )
        &&& mid.pending_keys().len() == 0
        &&& mid.prompt_of() == before.prompt_of()
        &&& mid.goal_column() is None
        &&& mid.shift_width_of() == before.shift_width_of()
        &&& mid.registers_view() == before.registers_view()
        &&& mid.clipboard_log() == before.clipboard_log()
    }
}

/// Whether Vim in `mode` takes a key (see [`VimInput::takes`]).
pub open spec fn takes_key(mode: Mode, key: Key) -> bool {
    !(mode == Mode::Insert && !(key == Key::Escape || key == Key::Ctrl('[')))
}

/// What a key asks of the editor besides its edits: the commands the
/// editor carries out, and a message to show.
pub struct Response {
    pub commands: Vec<Command>,
    pub message: Option<String>,
}

/// Whether a command is one the editor carries out by rewinding its text.
pub open spec fn rewinds(c: Command) -> bool {
    c is Undo || c is Redo
}

/// The commands split into those that rewind the text and the others,
/// each in their order.
pub open spec fn split_of(cs: Seq<Command>) -> (Seq<Command>, Seq<Command>)
    decreases cs.len(),
{
    if cs.len() == 0 {
        (Seq::empty(), Seq::empty())
    } else {
        let (a, b) = split_of(cs.drop_last());
        if rewinds(cs.last()) {
            (a.push(cs.last()), b)
        } else {
            (a, b.push(cs.last()))
        }
    }
}

/// Splits the commands of an outcome: the undos and redos, which the editor
/// runs at once, and the response with the others and the message.
pub fn respond(outcome: Outcome) -> (res: (Vec<Command>, Response))
    ensures
        res.0@ == split_of(outcome.commands@).0,
        res.1.commands@ == split_of(outcome.commands@).1,
        res.1.message == outcome.message,
{
    let Outcome { edits: _, commands, message } = outcome;
    let ghost all = commands@;
    let total = commands.len();
    let mut rest = commands;
    let mut rewinding: Vec<Command> = Vec::new();
    let mut others: Vec<Command> = Vec::new();
    let mut k: usize = 0;
    while rest.len() > 0
        invariant
            k + rest@.len() == all.len(),
            all.len() == total,
            rest@ == all.skip(k as int),
            (rewinding@, others@) == split_of(all.take(k as int)),
        decreases rest@.len(),
    {
        let c = rest.remove(0);
        proof {
            assert(all.take(k + 1).drop_last() =~= all.take(k as int));
            assert(all.take(k + 1).last() == c);
            assert(rest@ =~= all.skip(k + 1));
        }
        match c {
            Command::Undo => rewinding.push(Command::Undo),
            Command::Redo => rewinding.push(Command::Redo),
            other => others.push(other),
        }
        k = k + 1;
    }
    assert(all.take(k as int) =~= all);
    (rewinding, Response { commands: others, message })
}

/// What `char::is_control` says: the characters of the Cc category.
pub open spec fn control_char(c: char) -> bool {
    (c as u32) <= 0x1f || (0x7f <= (c as u32) && (c as u32) <= 0x9f)
}

/// The key that typed text gives: one character that is no control
/// character is that character; more text, or a control character, is
/// some other key; no text is no key.
pub open spec fn typed_key(key_char: Option<Seq<char>>) -> Option<Key> {
    match key_char {
        None => None,
        Some(t) => if t.len() == 0 {
            None
        } else if t.len() == 1 && !control_char(t[0]) {
            Some(Key::Char(t[0]))
        } else {
            Some(Key::Other)
        },
    }
}

/// The names of the keys that Vim reads by name.
pub open spec fn named_key(key: Seq<char>) -> Option<Key> {
    if key == "escape"@ {
        Some(Key::Escape)
    } else if key == "enter"@ {
        Some(Key::Enter)
    } else if key == "backspace"@ {
        Some(Key::Backspace)
    } else if key == "delete"@ {
        Some(Key::Delete)
    } else if key == "tab"@ {
        Some(Key::Tab)
    } else if key == "left"@ {
        Some(Key::Left)
    } else if key == "right"@ {
        Some(Key::Right)
    } else if key == "up"@ {
        Some(Key::Up)
    } else if key == "down"@ {
        Some(Key::Down)
    } else if key == "home"@ {
        Some(Key::Home)
    } else if key == "end"@ {
        Some(Key::End)
    } else if key == "space"@ {
        Some(Key::Char(' '))
    } else {
        None
    }
}

/// The key Vim reads for a key press: none with the platform or function
/// modifier, or with alt alone; with control and alt, the typed text;
/// with control, `^R`, `^D`, `^U` and `^[` only; else a named key or the
/// typed text.
pub open spec fn key_of_press(
    key: Seq<char>,
    key_char: Option<Seq<char>>,
    control: bool,
    alt: bool,
    platform: bool,
    function: bool,
) -> Option<Key> {
    if platform || function {
        None
    } else if control && alt {
        typed_key(key_char)
    } else if alt {
        None
    } else if control {
        if key == "r"@ || key == "d"@ || key == "u"@ || key == "["@ {
            Some(Key::Ctrl(key[0]))
        } else {
            None
        }
    } else {
        match named_key(key) {
            Some(k) => Some(k),
            None => typed_key(key_char),
        }
    }
}

fn is_control(c: char) -> (res: bool)
    ensures
        res == control_char(c),
{
    let v = c as u32;
    v <= 0x1f || (0x7f <= v && v <= 0x9f)
}

fn typed(key_char: Option<&str>) -> (res: Option<Key>)
    ensures
        res == typed_key(
            match key_char {
                Some(t) => Some(t@),
                None => None,
            },
        ),
{
    match key_char {
        None => None,
        Some(t) => {
            let n = t.unicode_len();
            if n == 0 {
                None
            } else if n == 1 && !is_control(t.get_char(0)) {
                Some(Key::Char(t.get_char(0)))
            } else {
                Some(Key::Other)
            }
        },
    }
}

fn is(key: &str, name: &str) -> (res: bool)
    ensures
        res == (key@ == name@),
{
    let n = key.unicode_len();
    proof {
        assert(key@.subrange(0, n as int) =~= key@);
    }
    crate::text::spells_chars(key, 0, n, name)
}

fn named(key: &str) -> (res: Option<Key>)
    ensures
        res == named_key(key@),
{
    if is(key, "escape") {
        Some(Key::Escape)
    } else if is(key, "enter") {
        Some(Key::Enter)
    } else if is(key, "backspace") {
        Some(Key::Backspace)
    } else if is(key, "delete") {
        Some(Key::Delete)
    } else if is(key, "tab") {
        Some(Key::Tab)
    } else if is(key, "left") {
        Some(Key::Left)
    } else if is(key, "right") {
        Some(Key::Right)
    } else if is(key, "up") {
        Some(Key::Up)
    } else if is(key, "down") {
        Some(Key::Down)
    } else if is(key, "home") {
        Some(Key::Home)
    } else if is(key, "end") {
        Some(Key::End)
    } else if is(key, "space") {
        Some(Key::Char(' '))
    } else {
        None
    }
}

/// The key Vim reads for a key press (see [`key_of_press`]): `key` names
/// the key pressed, `key_char` is the text it types.
pub fn key_of(
    key: &str,
    key_char: Option<&str>,
    control: bool,
    alt: bool,
    platform: bool,
    function: bool,
) -> (res: Option<Key>)
    ensures
        res == key_of_press(
            key@,
            match key_char {
                Some(t) => Some(t@),
                None => None,
            },
            control,
            alt,
            platform,
            function,
        ),
{
    if platform || function {
        return None;
    }
    if control && alt {
        return typed(key_char);
    }
    if alt {
        return None;
    }
    if control {
        if is(key, "r") || is(key, "d") || is(key, "u") || is(key, "[") {
            proof {
                reveal_strlit("r");
                reveal_strlit("d");
                reveal_strlit("u");
                reveal_strlit("[");
            }
            return Some(Key::Ctrl(key.get_char(0)));
        }
        return None;
    }
    match named(key) {
        Some(k) => Some(k),
        None => typed(key_char),
    }
}

/// Where two texts start to differ: the length of their common start,
/// unless they are the same.
pub fn first_difference(before: &str, after: &str) -> (res: Option<usize>)
    ensures
        match res {
            None => before@ == after@,
            Some(i) => before@ != after@ && i <= before@.len() && i <= after@.len()
                && before@.take(i as int) == after@.take(i as int) && (i == before@.len() || i
                == after@.len() || before@[i as int] != after@[i as int]),
        },
{
    let a = super::engine::chars_of(before);
    let b = super::engine::chars_of(after);
    let mut i: usize = 0;
    while i < a.len() && i < b.len() && a[i] == b[i]
        invariant
            i <= a@.len(),
            i <= b@.len(),
            a@.take(i as int) == b@.take(i as int),
        decreases a@.len() - i,
    {
        assert(a@.take(i + 1) =~= a@.take(i as int).push(a@[i as int]));
        assert(b@.take(i + 1) =~= b@.take(i as int).push(b@[i as int]));
        i = i + 1;
    }
    if i == a.len() && i == b.len() {
        assert(a@ =~= a@.take(i as int));
        assert(b@ =~= b@.take(i as int));
        return None;
    }
    proof {
        if a@ == b@ {
            assert(i < a@.len() && i < b@.len());
        }
    }
    Some(i)
}

} // verus!
