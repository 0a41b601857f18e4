use bytes::Bytes;
use redis_lite::command::Command;
use redis_lite::commands::{ConfigExecutor, EchoExecutor, ErrorExecutor, GetExecutor, PingExecutor, SetExecutor};
use redis_lite::config::Config;
use redis_lite::db::Db;
use redis_lite::frame::{Error, Frame};
use redis_lite::session::{next_step, Step};
use redis_lite::text::same_text;

fn bulk(data: &[u8]) -> Frame {
    Frame::Bulk(Bytes::copy_from_slice(data))
}

fn request(parts: &[&[u8]]) -> Frame {
    Frame::Array(parts.iter().map(|p| bulk(p)).collect())
}

fn error_text(c: &Command) -> Option<String> {
    match c {
        Command::ERROR(e) => Some(e.value.clone()),
        _ => None,
    }
}

fn is_bulk(frame: &Frame, data: &[u8]) -> bool {
    matches!(frame, Frame::Bulk(b) if b.as_ref() == data)
}

fn is_simple(frame: &Frame, text: &str) -> bool {
    matches!(frame, Frame::Simple(s) if s == text)
}

#[test]
fn decodes_ping_in_any_case() {
    assert!(matches!(Command::new(request(&[b"PING"])), Ok(Command::PING(_))));
    assert!(matches!(Command::new(request(&[b"ping"])), Ok(Command::PING(_))));
    assert!(matches!(Command::new(request(&[b"PiNg", b"extra"])), Ok(Command::PING(_))));
}

#[test]
fn decodes_get() {
    match Command::new(request(&[b"get", b"key"])).unwrap() {
        Command::GET(g) => assert_eq!(g.key.as_ref(), b"key"),
        _ => panic!("expected GET"),
    }
    let c = Command::new(request(&[b"GET"])).unwrap();
    assert_eq!(error_text(&c).unwrap(), "set needs a key");
    let c = Command::new(Frame::Array(vec![bulk(b"GET"), Frame::Integer(1)])).unwrap();
    assert_eq!(error_text(&c).unwrap(), "invalid frame");
}

#[test]
fn decodes_set_without_expiry() {
    match Command::new(request(&[b"set", b"k", b"v"])).unwrap() {
        Command::SET(s) => {
            assert_eq!(s.key.as_ref(), b"k");
            assert!(is_bulk(&s.value, b"v"));
            assert_eq!(s.px, None);
        }
        _ => panic!("expected SET"),
    }
}

#[test]
fn decodes_set_with_px() {
    match Command::new(request(&[b"SET", b"k", b"v", b"Px", b"100"])).unwrap() {
        Command::SET(s) => assert_eq!(s.px, Some(100)),
        _ => panic!("expected SET"),
    }
    match Command::new(request(&[b"SET", b"k", b"v", b"px", b"-3"])).unwrap() {
        Command::SET(s) => assert_eq!(s.px, Some(-3)),
        _ => panic!("expected SET"),
    }
}

#[test]
fn set_argument_errors() {
    let cases: Vec<(Vec<&[u8]>, &str)> = vec![
        (vec![b"SET"], "set needs a key"),
        (vec![b"SET", b"k"], "set needs a value"),
        (vec![b"SET", b"k", b"v", b"ex", b"1"], "syntax error"),
        (vec![b"SET", b"k", b"v", b"px"], "syntax error"),
        (vec![b"SET", b"k", b"v", b"px", b"soon"], "value is not an integer or out of range"),
    ];
    for (parts, message) in cases {
        let c = Command::new(request(&parts)).unwrap();
        assert_eq!(error_text(&c).unwrap(), message);
    }
    let c = Command::new(Frame::Array(vec![bulk(b"SET"), Frame::Null])).unwrap();
    assert_eq!(error_text(&c).unwrap(), "invalid frame");
    let c = Command::new(Frame::Array(vec![bulk(b"SET"), bulk(b"k"), bulk(b"v"), Frame::Null])).unwrap();
    assert_eq!(error_text(&c).unwrap(), "invalid frame");
    let c = Command::new(Frame::Array(vec![bulk(b"SET"), bulk(b"k"), bulk(b"v"), bulk(b"px"), Frame::Null])).unwrap();
    assert_eq!(error_text(&c).unwrap(), "invalid frame");
}

#[test]
fn set_keeps_any_frame_as_value() {
    match Command::new(Frame::Array(vec![bulk(b"SET"), bulk(b"k"), Frame::Integer(5)])).unwrap() {
        Command::SET(s) => assert!(matches!(s.value, Frame::Integer(5))),
        _ => panic!("expected SET"),
    }
}

#[test]
fn decodes_echo() {
    match Command::new(request(&[b"echo", b"hi"])).unwrap() {
        Command::ECHO(e) => assert_eq!(e.value.as_ref(), b"hi"),
        _ => panic!("expected ECHO"),
    }
    assert_eq!(Command::new(request(&[b"ECHO"])).err().unwrap(), "get needs a value");
    assert_eq!(
        Command::new(Frame::Array(vec![bulk(b"ECHO"), Frame::Null])).err().unwrap(),
        "invalid frame"
    );
}

#[test]
fn rejects_what_is_not_a_command() {
    assert_eq!(Command::new(request(&[b"FLUSHALL"])).err().unwrap(), "invalid command");
    assert_eq!(Command::new(Frame::Array(vec![])).err().unwrap(), "invalid frame");
    assert_eq!(Command::new(Frame::Array(vec![Frame::Integer(1)])).err().unwrap(), "invalid frame");
    assert_eq!(Command::new(bulk(b"PING")).err().unwrap(), "invalid frame");
}

#[test]
fn from_name_takes_the_upper_cased_name() {
    assert!(matches!(Command::from_name("PING", vec![]), Ok(Command::PING(_))));
    assert_eq!(Command::from_name("ping", vec![]).err().unwrap(), "invalid command");
}

#[test]
fn executors_reply() {
    assert!(is_simple(&PingExecutor {}.execute(), "PONG"));
    let echo = EchoExecutor { value: Bytes::from_static(b"hello") };
    assert!(is_bulk(&echo.execute(), b"hello"));
    let error = ErrorExecutor { value: String::from("syntax error") };
    assert!(matches!(error.execute(), Frame::Error(ref m) if m == "syntax error"));
}

#[test]
fn get_after_set_returns_the_encoded_value() {
    let mut db = Db::new();
    let set = SetExecutor { key: Bytes::from_static(b"k"), value: bulk(b"v"), px: None };
    assert!(is_simple(&set.execute(&mut db, 10), "OK"));
    let get = GetExecutor { key: Bytes::from_static(b"k") };
    assert!(is_bulk(&get.execute(&mut db, 1_000_000), b"$1\r\nv\r\n"));
    assert!(is_bulk(&get.execute(&mut db, 2_000_000), b"$1\r\nv\r\n"));
}

#[test]
fn get_of_a_missing_key_is_null() {
    let mut db = Db::new();
    let get = GetExecutor { key: Bytes::from_static(b"nope") };
    assert!(matches!(get.execute(&mut db, 0), Frame::Null));
}

#[test]
fn expiry_hides_and_removes_the_value() {
    let mut db = Db::new();
    let set = SetExecutor { key: Bytes::from_static(b"k"), value: bulk(b"v"), px: Some(100) };
    set.execute(&mut db, 1000);
    let get = GetExecutor { key: Bytes::from_static(b"k") };
    assert!(is_bulk(&get.execute(&mut db, 1099), b"$1\r\nv\r\n"));
    assert!(db.entries.contains_key("k"));
    assert!(matches!(get.execute(&mut db, 1100), Frame::Null));
    assert!(!db.entries.contains_key("k"));
}

#[test]
fn non_positive_expiry_leaves_the_store_alone() {
    let mut db = Db::new();
    let set = SetExecutor { key: Bytes::from_static(b"k"), value: bulk(b"v"), px: Some(0) };
    assert!(is_simple(&set.execute(&mut db, 5), "OK"));
    assert!(!db.entries.contains_key("k"));
    let set = SetExecutor { key: Bytes::from_static(b"k"), value: bulk(b"v"), px: Some(-10) };
    set.execute(&mut db, 5);
    assert!(db.entries.is_empty());
}

#[test]
fn set_replaces_and_keeps_other_keys() {
    let mut db = Db::new();
    SetExecutor { key: Bytes::from_static(b"a"), value: bulk(b"1"), px: None }.execute(&mut db, 0);
    SetExecutor { key: Bytes::from_static(b"b"), value: bulk(b"2"), px: None }.execute(&mut db, 0);
    SetExecutor { key: Bytes::from_static(b"a"), value: bulk(b"3"), px: None }.execute(&mut db, 0);
    assert!(is_bulk(&GetExecutor { key: Bytes::from_static(b"a") }.execute(&mut db, 0), b"$1\r\n3\r\n"));
    assert!(is_bulk(&GetExecutor { key: Bytes::from_static(b"b") }.execute(&mut db, 0), b"$1\r\n2\r\n"));
}

#[test]
fn command_execute_dispatches() {
    let mut db = Db::new();
    let set = Command::new(request(&[b"SET", b"x", b"y"])).unwrap();
    assert!(is_simple(&set.execute(&mut db, 0), "OK"));
    let get = Command::new(request(&[b"GET", b"x"])).unwrap();
    assert!(is_bulk(&get.execute(&mut db, 1), b"$1\r\ny\r\n"));
    let ping = Command::new(request(&[b"PING"])).unwrap();
    assert!(is_simple(&ping.execute(&mut db, 1), "PONG"));
    let bad = Command::new(request(&[b"SET"])).unwrap();
    assert!(matches!(bad.execute(&mut db, 1), Frame::Error(ref m) if m == "set needs a key"));
}

#[test]
fn config_defaults_and_settings() {
    let cfg = Config::default();
    assert_eq!(cfg.dir, ".");
    assert_eq!(cfg.dbfilename, "dump.rdb");
    let table = Config { dir: String::from("/tmp"), dbfilename: String::from("x.rdb") }.settings();
    assert_eq!(table.get("dir").unwrap(), "/tmp");
    assert_eq!(table.get("dbfilename").unwrap(), "x.rdb");
    assert_eq!(table.len(), 2);
}

#[test]
fn config_get_replies_with_encoded_name_and_value() {
    let table = Config { dir: String::from("/tmp"), dbfilename: String::from("x.rdb") }.settings();
    let exec = ConfigExecutor { command: Bytes::from_static(b"GeT"), key: Bytes::from_static(b"dir") };
    match exec.execute(&table) {
        Frame::Array(items) => {
            assert_eq!(items.len(), 2);
            assert!(is_bulk(&items[0], b"$3\r\ndir\r\n"));
            assert!(is_bulk(&items[1], b"$4\r\n/tmp\r\n"));
        }
        other => panic!("unexpected {:?}", other),
    }
    let exec = ConfigExecutor { command: Bytes::from_static(b"SET"), key: Bytes::from_static(b"dir") };
    assert!(matches!(exec.execute(&table), Frame::Error(ref m) if m == "invalid command"));
    let exec = ConfigExecutor { command: Bytes::from_static(b"GET"), key: Bytes::from_static(b"port") };
    assert!(exec.try_execute(&table).is_none());
}

#[test]
fn next_step_for_each_read_outcome() {
    assert!(matches!(next_step(Ok(Some(request(&[b"PING"])))), Step::Run(Command::PING(_))));
    assert!(matches!(next_step(Ok(Some(request(&[b"NOPE"])))), Step::Fail(ref m) if m == "invalid command"));
    assert!(matches!(next_step(Ok(None)), Step::Closed));
    assert!(matches!(next_step(Err(Error::Incomplete)), Step::ClosedAbruptly));
}

#[test]
fn text_helpers() {
    assert!(same_text("abc", "abc"));
    assert!(!same_text("abc", "abd"));
    assert!(!same_text("ab", "abc"));
    assert!(same_text("ü", "ü"));
}
