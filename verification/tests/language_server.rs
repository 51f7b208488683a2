use hephaestus::language_server::{content_length, frame_header, path_from_uri, read_header, uri, FrameError};

#[test]
fn reads_framed_messages_and_round_trips_uri() {
    let data = b"Content-Length: 7\r\n\r\n{\"a\":1}";
    let text = std::str::from_utf8(data).unwrap();
    let mut lines = text.split("\r\n");
    let (end, length) = read_header(lines.next().unwrap(), None);
    assert!(!end);
    let (end, length) = read_header(lines.next().unwrap(), length);
    assert!(end);
    let length = content_length(length).unwrap();
    let body = &data[data.len() - length..];
    let message: serde_json::Value = serde_json::from_slice(body).unwrap();
    assert_eq!(message["a"], 1);
    let path = "/my files/é.rs";
    assert_eq!(path_from_uri(&uri(path)).as_deref(), Some(path));
}

#[test]
fn frames_state_their_length() {
    assert_eq!(frame_header(42), "Content-Length: 42\r\n\r\n");
    assert_eq!(content_length(None), Err(FrameError::MissingLength));
    assert_eq!(content_length(Some(16 * 1024 * 1024 + 1)), Err(FrameError::TooLarge));
    assert_eq!(read_header("content-type: x", Some(3)), (false, Some(3)));
}

#[test]
fn uris_escape_what_paths_hold() {
    assert_eq!(uri("/my files/é.rs"), "file:///my%20files/%C3%A9.rs");
    assert_eq!(path_from_uri("http://x"), None);
    assert_eq!(path_from_uri("file:///a%2"), None);
}

#[test]
fn a_written_header_reads_back_its_length() {
    for length in [0usize, 7, 1234567] {
        let header = frame_header(length);
        let (line, rest) = header.split_at(header.find('\n').unwrap() + 1);
        assert_eq!(read_header(line, None), (false, Some(length)));
        assert_eq!(read_header(rest, Some(length)), (true, Some(length)));
    }
    assert_eq!(uri("C:\\dir\\a.rs"), "file://C:/dir/a.rs");
    assert_eq!(path_from_uri(&uri("/plain/path.rs")).as_deref(), Some("/plain/path.rs"));
}
