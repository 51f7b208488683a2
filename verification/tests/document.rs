use hephaestus::document::{
    decode, disk_change, disk_change_status, encode, DecodeError, DiskChange, Document, LineEnding,
    OpenError, MAX_OPEN_BYTES,
};

#[test]
fn unicode_crlf_and_bom_round_trip() {
    let original = "\u{feff}let greeting = \"你好 👋\";\r\n";
    let mut document = Document::decode(original.as_bytes()).unwrap();
    assert_eq!(document.line_ending(), LineEnding::CrLf);
    assert_eq!(document.text(), "let greeting = \"你好 👋\";\n");
    assert!(!document.is_dirty());
    document.set_text("// café\n".to_string());
    assert!(document.is_dirty());
    assert_eq!(document.encoded(), "\u{feff}// café\r\n".as_bytes());
    let mut copy = Document::decode(original.as_bytes()).unwrap();
    copy.set_text(document.text().to_string());
    let saved = copy.saved("/work/unicode.rs".into(), 7);
    document.accept_saved(saved);
    assert!(!document.is_dirty());
    assert_eq!(document.path(), Some("/work/unicode.rs"));
}

#[test]
fn undo_to_saved_text_clears_dirty_and_save_preserves_newer_edits() {
    let mut document = Document::decode(b"original\n").unwrap();
    let original = document.text().to_string();
    document.set_text("edited\n".to_string());
    assert!(document.is_dirty());
    document.set_text(original);
    assert!(!document.is_dirty());
    let mut copy = Document::decode(b"original\n").unwrap();
    copy.set_text(document.text().to_string());
    let saved = copy.saved("/work/file.txt".into(), 1);
    document.set_text("newer edit\n".to_string());
    document.accept_saved(saved);
    assert!(document.is_dirty());
    assert_eq!(document.text(), "newer edit\n");
    assert_eq!(document.name(), "file.txt");
}

#[test]
fn rejects_binary_invalid_utf8_and_oversized_files() {
    assert_eq!(Document::decode(b"binary\0text").err(), Some(DecodeError::Binary));
    assert_eq!(Document::decode(&[0xff, 0xfe]).err(), Some(DecodeError::NotUtf8));
    assert_eq!(DecodeError::Binary.message(), "Binary files cannot be edited");
    assert_eq!(DecodeError::NotUtf8.message(), "Only UTF-8 text files are supported");
    assert_eq!(MAX_OPEN_BYTES, 8 * 1024 * 1024);
    let oversized = vec![b' '; MAX_OPEN_BYTES as usize + 1];
    assert!(Document::read(&oversized, "/large.txt".to_string(), 0).is_err());
}

#[test]
fn empty_files_and_no_final_newline_round_trip() {
    for text in ["", "no final newline", "mixed\r\nend\n"] {
        let document = Document::decode(text.as_bytes()).unwrap();
        assert_eq!(document.encoded(), text.replace("\r\n", "\n").as_bytes());
    }
}

#[test]
fn pasted_crlf_is_not_double_encoded() {
    let mut document = Document::decode(b"windows\r\n").unwrap();
    document.set_text("pasted\r\ntext\n".to_string());
    assert_eq!(document.encoded(), b"pasted\r\ntext\r\n");
}

#[test]
fn uniform_files_are_written_back_unchanged() {
    for bytes in [
        &b"a\r\nb\r\n"[..],
        &b"\xef\xbb\xbfa\nb"[..],
        &b"plain"[..],
        &b"\xef\xbb\xbf\r\n\r\n"[..],
    ] {
        let (text, ending, bom) = decode(bytes).unwrap();
        assert_eq!(encode(&text, ending, bom), bytes);
    }
    let (_, ending, _) = decode(b"a\r\nb\nc").unwrap();
    assert_eq!(ending, LineEnding::Lf);
    assert_eq!(LineEnding::CrLf.label(), "CRLF");
}

#[test]
fn changes_on_disk_are_noticed() {
    let document = Document::decode(b"first").unwrap();
    assert!(!document.differs_from_disk(None));
    let document = document.opened("/work/file.txt".into(), 5);
    assert!(!document.differs_from_disk(Some(5)));
    assert!(document.differs_from_disk(Some(6)));
    assert!(document.differs_from_disk(None));
    assert_eq!(Document::default().name(), "Untitled");
}

#[test]
fn files_are_opened_up_to_the_size_limit() {
    let big = vec![b'a'; MAX_OPEN_BYTES as usize + 1];
    let refused = Document::read(&big, "/big.txt".to_string(), 1);
    assert_eq!(refused.err(), Some(OpenError::TooLarge));
    assert_eq!(OpenError::TooLarge.message(), "Basic editor supports files up to 8 MiB");
    let limit = vec![b'a'; MAX_OPEN_BYTES as usize];
    assert!(Document::read(&limit, "/limit.txt".to_string(), 2).is_ok());
    let binary = Document::read(b"a\0b", "/bin".to_string(), 3);
    assert_eq!(binary.err(), Some(OpenError::Unreadable(DecodeError::Binary)));
    let opened = Document::read(b"x\r\ny\r\n", "/dir/notes.txt".to_string(), 4).unwrap();
    assert_eq!(opened.path(), Some("/dir/notes.txt"));
    assert_eq!(opened.text(), "x\ny\n");
    assert_eq!(opened.line_ending(), LineEnding::CrLf);
    assert!(!opened.is_dirty());
}

#[test]
fn files_changed_on_disk_keep_edits_or_reload() {
    assert_eq!(disk_change(true, true), DiskChange::KeepEdits);
    assert_eq!(disk_change(false, true), DiskChange::Reload);
    assert_eq!(disk_change(false, false), DiskChange::Orphaned);
    assert_eq!(
        disk_change_status(DiskChange::KeepEdits, "/a.rs"),
        "/a.rs changed on disk — Save As or reload"
    );
    assert_eq!(disk_change_status(DiskChange::Reload, "/a.rs"), "Reloaded /a.rs");
    assert_eq!(
        disk_change_status(DiskChange::Orphaned, "/a.rs"),
        "/a.rs changed or was deleted — Save As to keep this buffer"
    );
}

#[test]
fn lone_carriage_returns_round_trip() {
    for bytes in [&b"a\rb\n"[..], &b"a\rb\r\nc\r\n"[..], &b"\xef\xbb\xbfx\r"[..]] {
        let (text, ending, bom) = decode(bytes).unwrap();
        assert_eq!(encode(&text, ending, bom), bytes);
    }
    let (text, ending, bom) = decode(b"a\r\r\n").unwrap();
    assert_eq!(ending, LineEnding::CrLf);
    assert_eq!(encode(&text, ending, bom), b"a\r\n");
}
