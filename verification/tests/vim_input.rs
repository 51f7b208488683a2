use hephaestus::vim::input::{
    first_difference, key_of, respond, VimInput, INSERT_CONTEXT, NORMAL_CONTEXT,
};
use hephaestus::vim::{Clipboard, Command, Key, Mode, Outcome};

#[test]
fn key_presses_become_vim_keys() {
    assert_eq!(key_of("escape", None, false, false, false, false), Some(Key::Escape));
    assert_eq!(key_of("space", Some(" "), false, false, false, false), Some(Key::Char(' ')));
    assert_eq!(key_of("a", Some("a"), false, false, false, false), Some(Key::Char('a')));
    assert_eq!(key_of("A", Some("A"), false, false, false, false), Some(Key::Char('A')));
    assert_eq!(key_of("r", None, true, false, false, false), Some(Key::Ctrl('r')));
    assert_eq!(key_of("[", None, true, false, false, false), Some(Key::Ctrl('[')));
    assert_eq!(key_of("s", None, true, false, false, false), None);
    assert_eq!(key_of("s", Some("s"), false, true, false, false), None);
    assert_eq!(key_of("q", Some("@"), true, true, false, false), Some(Key::Char('@')));
    assert_eq!(key_of("s", Some("s"), false, false, true, false), None);
    assert_eq!(key_of("f1", Some("\u{7}"), false, false, false, false), Some(Key::Other));
    assert_eq!(key_of("x", Some("ab"), false, false, false, false), Some(Key::Other));
    assert_eq!(key_of("shift", None, false, false, false, false), None);
}

#[test]
fn the_key_context_follows_the_mode() {
    let input = VimInput::new(4);
    assert_eq!(input.mode(), Mode::Normal);
    assert_eq!(input.key_context(), NORMAL_CONTEXT);
    assert_eq!(input.pending(), "");
    assert_eq!(input.prompt(), None);
    let mut input = input;
    struct None_;
    impl hephaestus::vim::Clipboard for None_ {
        fn read(&mut self) -> Option<String> {
            None
        }
        fn write(&mut self, _: String) {}
    }
    input.vim_mut().key(Key::Char('i'), "text", &mut None_);
    assert_eq!(input.key_context(), INSERT_CONTEXT);
}

#[test]
fn texts_differ_where_their_common_start_ends() {
    assert_eq!(first_difference("abc", "abc"), None);
    assert_eq!(first_difference("abc", "abd"), Some(2));
    assert_eq!(first_difference("ab", "abc"), Some(2));
    assert_eq!(first_difference("", "x"), Some(0));
}

struct NoClipboard;

impl Clipboard for NoClipboard {
    fn read(&mut self) -> Option<String> {
        None
    }
    fn write(&mut self, _: String) {}
}

#[test]
fn insert_mode_leaves_typing_to_the_editor() {
    let mut input = VimInput::new(4);
    assert!(input.takes(Key::Char('i')));
    let outcome = input.press(Key::Char('i'), "text", (0, 0), &mut NoClipboard).unwrap();
    assert!(outcome.edits.is_empty());
    assert_eq!(input.mode(), Mode::Insert);
    assert!(!input.takes(Key::Char('x')));
    assert!(input.press(Key::Char('x'), "text", (0, 0), &mut NoClipboard).is_none());
    assert!(input.takes(Key::Ctrl('[')));
    input.press(Key::Escape, "text", (0, 0), &mut NoClipboard).unwrap();
    assert_eq!(input.mode(), Mode::Normal);
}

#[test]
fn a_key_edits_from_the_selection_the_editor_reports() {
    let mut input = VimInput::new(4);
    input.set_applied(Some((0, 0)));
    assert_eq!(input.applied(), Some((0, 0)));
    let outcome = input.press(Key::Char('x'), "abc", (2, 2), &mut NoClipboard).unwrap();
    assert_eq!(outcome.edits.len(), 1);
    assert_eq!(outcome.edits[0].range, 2..3);
    assert_eq!(outcome.edits[0].text, "");
}

#[test]
fn undo_and_redo_are_run_by_the_editor_and_the_rest_answered() {
    let outcome = Outcome {
        edits: Vec::new(),
        commands: vec![Command::Write, Command::Undo, Command::NextBuffer, Command::Redo],
        message: Some("written".to_string()),
    };
    let (rewinding, response) = respond(outcome);
    assert_eq!(rewinding, vec![Command::Undo, Command::Redo]);
    assert_eq!(response.commands, vec![Command::Write, Command::NextBuffer]);
    assert_eq!(response.message.as_deref(), Some("written"));
}

#[test]
fn after_an_undo_the_cursor_goes_where_the_text_changed() {
    let mut input = VimInput::new(4);
    input.rewound("hello world", "hello there");
    let outcome = input.press(Key::Char('x'), "hello there", (6, 6), &mut NoClipboard).unwrap();
    assert_eq!(outcome.edits[0].range, 6..7);
    let mut other = VimInput::new(4);
    other.rewound("same", "same");
    other.set_applied(Some((0, 0)));
    let outcome = other.press(Key::Char('x'), "same", (0, 0), &mut NoClipboard).unwrap();
    assert_eq!(outcome.edits[0].range, 0..1);
}
