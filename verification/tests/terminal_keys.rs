use hephaestus::terminal::keys::{control_code, sequence, sequence_for, Modifiers};

fn keys(key: &str, text: Option<&str>, modifiers: Modifiers, app_cursor: bool) -> String {
    String::from_utf8(sequence(key, text, modifiers, app_cursor).unwrap()).unwrap()
}

const NONE: Modifiers = Modifiers {
    control: false,
    alt: false,
    shift: false,
};
const CONTROL: Modifiers = Modifiers {
    control: true,
    ..NONE
};
const ALT: Modifiers = Modifiers { alt: true, ..NONE };
const SHIFT: Modifiers = Modifiers {
    shift: true,
    ..NONE
};

#[test]
fn cursor_keys_follow_application_cursor_mode_and_modifiers() {
    assert_eq!(keys("up", None, NONE, false), "\x1b[A");
    assert_eq!(keys("up", None, NONE, true), "\x1bOA");
    assert_eq!(keys("left", None, CONTROL, true), "\x1b[1;5D");
    assert_eq!(keys("home", None, SHIFT, false), "\x1b[1;2H");
    assert_eq!(keys("delete", None, NONE, false), "\x1b[3~");
    assert_eq!(keys("pageup", None, ALT, false), "\x1b[5;3~");
    assert_eq!(keys("f1", None, NONE, false), "\x1bOP");
    assert_eq!(keys("f5", None, CONTROL, false), "\x1b[15;5~");
}

#[test]
fn control_and_editing_keys() {
    assert_eq!(keys("c", None, CONTROL, false), "\x03");
    assert_eq!(keys("[", None, CONTROL, false), "\x1b");
    assert_eq!(keys("space", Some(" "), CONTROL, false), "\0");
    assert_eq!(keys("enter", None, NONE, false), "\r");
    assert_eq!(keys("backspace", None, NONE, false), "\x7f");
    assert_eq!(keys("backspace", None, CONTROL, false), "\x08");
    assert_eq!(keys("tab", None, SHIFT, false), "\x1b[Z");
    assert_eq!(keys("escape", None, NONE, false), "\x1b");
}

#[test]
fn plain_text_and_altgr_are_left_to_text_input() {
    assert_eq!(sequence("a", Some("a"), NONE, false), None);
    assert_eq!(sequence("a", Some("A"), SHIFT, false), None);
    let altgr = Modifiers {
        control: true,
        alt: true,
        shift: false,
    };
    assert_eq!(sequence("q", Some("@"), altgr, false), None);
}

#[test]
fn alt_sends_escape_prefixed_text() {
    assert_eq!(keys("b", Some("b"), ALT, false), "\x1bb");
    assert_eq!(keys("enter", None, ALT, false), "\x1b\r");
}

#[test]
fn option_on_macos_types_text_and_every_modifier_counts() {
    assert_eq!(sequence_for("b", Some("∫"), ALT, false, true), None);
    assert_eq!(sequence_for("b", Some("∫"), ALT, false, false), Some("\x1b∫".as_bytes().to_vec()));
    let all = Modifiers {
        control: true,
        alt: true,
        shift: true,
    };
    assert_eq!(keys("f12", None, all, false), "\x1b[24;8~");
    assert_eq!(keys("end", None, all, true), "\x1b[1;8F");
    assert_eq!(keys("f4", None, SHIFT, false), "\x1b[1;2S");
    assert_eq!(keys("x", None, ALT, false), "\x1bx");
    assert_eq!(Modifiers::default(), NONE);
}

#[test]
fn control_codes_cover_letters_and_punctuation() {
    assert_eq!(control_code("a"), Some(1));
    assert_eq!(control_code("z"), Some(26));
    assert_eq!(control_code("2"), Some(0));
    assert_eq!(control_code("\\"), Some(0x1c));
    assert_eq!(control_code("]"), Some(0x1d));
    assert_eq!(control_code("6"), Some(0x1e));
    assert_eq!(control_code("/"), Some(0x1f));
    assert_eq!(control_code("?"), Some(0x7f));
    assert_eq!(control_code("A"), None);
    assert_eq!(control_code("space"), Some(0));
    assert_eq!(control_code("tab"), None);
}
