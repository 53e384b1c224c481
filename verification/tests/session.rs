use tsfrv::session::{
    received, text_writes, BridgeAction, BridgeEvent, ReadAction, ReadEvent, SessionLog,
};
use tsfrv::stamp::{chat_file_name, koukoku_file_name, timestamp, Minute};

fn minute(year: i32, month: u32, day: u32, hour: u32, minute: u32) -> Minute {
    Minute { year, month, day, hour, minute }
}

#[test]
fn short_chunks_are_announcements_and_long_ones_are_chat() {
    let mut log = SessionLog::new();
    assert_eq!(log.record(b"12345678"), "12345678");
    assert_eq!(log.record(b"123456789"), "123456789");
    assert_eq!(log.record(b""), "");
    assert_eq!(log.record("\u{516c}".as_bytes()), "\u{516c}");
    assert_eq!(log.koukoku(), "12345678\u{516c}".as_bytes());
    assert_eq!(log.chat(), b"123456789\n");
}

#[test]
fn bytes_that_are_not_utf8_are_replaced() {
    let mut log = SessionLog::new();
    assert_eq!(log.record(b"a\xffb"), "a\u{fffd}b");
    assert_eq!(log.koukoku(), "a\u{fffd}b".as_bytes());
    assert_eq!(log.record(b"\xe5\x85"), "\u{fffd}");
}

#[test]
fn the_length_of_the_chunk_decides_not_that_of_the_text() {
    let mut log = SessionLog::new();
    log.record_text(8, "a long announcement");
    log.record_text(9, "chat");
    assert_eq!(log.koukoku(), b"a long announcement");
    assert_eq!(log.chat(), b"chat\n");
}

#[test]
fn a_text_of_the_client_becomes_a_line() {
    assert_eq!(text_writes("hi"), vec![b"hi".to_vec(), b"\n".to_vec()]);
    assert_eq!(text_writes("hi\n"), vec![b"hi\n".to_vec()]);
    assert_eq!(text_writes(""), vec![b"".to_vec(), b"\n".to_vec()]);
    assert_eq!(text_writes("hi\r"), vec![b"hi\r".to_vec(), b"\n".to_vec()]);
}

#[test]
fn the_events_of_a_bridge() {
    let mut log = SessionLog::new();
    let text = BridgeEvent::Text("hi".to_string());
    assert!(matches!(log.bridge(&text), BridgeAction::Write(w) if w == vec![b"hi".to_vec(), b"\n".to_vec()]));
    let bytes = BridgeEvent::Bytes(vec![1, 2]);
    assert!(matches!(log.bridge(&bytes), BridgeAction::Write(w) if w == vec![vec![1, 2]]));
    assert!(matches!(log.bridge(&BridgeEvent::OtherMessage), BridgeAction::Ignore));
    assert!(matches!(log.bridge(&BridgeEvent::ClientClosed), BridgeAction::Finish));
    assert!(matches!(log.bridge(&BridgeEvent::ClientFailed), BridgeAction::Fail));
    assert!(matches!(log.bridge(&BridgeEvent::ServerClosed), BridgeAction::Finish));
    assert!(matches!(log.bridge(&BridgeEvent::ServerFailed), BridgeAction::Fail));
    assert!(log.koukoku().is_empty() && log.chat().is_empty());
    let chunk = BridgeEvent::Chunk(b"hello, world".to_vec());
    assert!(matches!(log.bridge(&chunk), BridgeAction::Show(t) if t == "hello, world"));
    assert_eq!(log.chat(), b"hello, world\n");
}

#[test]
fn the_events_of_a_reader() {
    let mut log = SessionLog::new();
    assert!(matches!(log.on_read(&ReadEvent::Failed), ReadAction::Report));
    assert!(matches!(log.on_read(&ReadEvent::Chunk(b"ok".to_vec())), ReadAction::Show(t) if t == "ok"));
    assert!(matches!(log.on_read(&ReadEvent::Closed), ReadAction::Stop));
    assert_eq!(log.koukoku(), b"ok");
}

#[test]
fn the_summary_of_a_session() {
    let mut log = SessionLog::new();
    log.record(b"12345");
    log.record(b"123456789");
    assert_eq!(
        log.summary("202401020304"),
        "Session ended at 202401020304: koukoku=5 bytes, chat=10 bytes"
    );
    assert_eq!(
        SessionLog::new().summary(""),
        "Session ended at : koukoku=0 bytes, chat=0 bytes"
    );
}

#[test]
fn a_read_leaves_a_chunk_in_the_buffer() {
    let buffer = [1u8, 2, 3, 4];
    assert_eq!(received(&buffer, 0), None);
    assert_eq!(received(&buffer, 3), Some(vec![1, 2, 3]));
    assert_eq!(received(&buffer, 4), Some(buffer.to_vec()));
}

#[test]
fn names_carry_the_minute() {
    let m = minute(2024, 2, 29, 3, 4);
    assert_eq!(timestamp(&m).unwrap(), "202402290304");
    assert_eq!(koukoku_file_name(&m).unwrap(), "202402290304koukoku.txt");
    assert_eq!(chat_file_name(&m).unwrap(), "202402290304chat.txt");
    assert_eq!(timestamp(&minute(1, 12, 31, 23, 59)).unwrap(), "000112312359");
    assert_eq!(timestamp(&minute(9999, 10, 10, 10, 10)).unwrap(), "999910101010");
    assert_eq!(timestamp(&minute(-5, 1, 1, 0, 0)).unwrap(), "-000501010000");
    assert_eq!(timestamp(&minute(-12345, 1, 1, 0, 0)).unwrap(), "-1234501010000");
    assert_eq!(timestamp(&minute(12345, 1, 1, 0, 0)).unwrap(), "+1234501010000");
    assert_ne!(timestamp(&m), timestamp(&minute(2024, 2, 29, 3, 5)));
}

#[test]
fn minutes_that_do_not_exist_have_no_name() {
    for m in [
        minute(2023, 2, 29, 0, 0), minute(1900, 2, 29, 0, 0), minute(2024, 0, 1, 0, 0),
        minute(2024, 13, 1, 0, 0), minute(2024, 1, 0, 0, 0), minute(2024, 1, 32, 0, 0),
        minute(2024, 4, 31, 0, 0), minute(2024, 1, 1, 24, 0), minute(2024, 1, 1, 0, 60),
        minute(262143, 1, 1, 0, 0), minute(-262144, 12, 31, 0, 0),
    ] {
        assert_eq!(timestamp(&m), None);
        assert_eq!(koukoku_file_name(&m), None);
        assert_eq!(chat_file_name(&m), None);
    }
    assert!(timestamp(&minute(2000, 2, 29, 0, 0)).is_some());
    assert!(timestamp(&minute(-4, 2, 29, 0, 0)).is_some());
    assert!(timestamp(&minute(262142, 12, 31, 23, 59)).is_some());
    assert!(timestamp(&minute(-262143, 1, 1, 0, 0)).is_some());
}
