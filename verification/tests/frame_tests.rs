use bytes::{Bytes, BytesMut};
use redis_lite::connection::Connection;
use redis_lite::frame::{get_decimal, get_line, get_u8, Cursor, Error, Frame, Stop};

fn bulk(data: &[u8]) -> Frame {
    Frame::Bulk(Bytes::copy_from_slice(data))
}

fn is_bulk(frame: &Frame, data: &[u8]) -> bool {
    matches!(frame, Frame::Bulk(b) if b.as_ref() == data)
}

fn other_message(e: &Error) -> String {
    match e {
        Error::Other(m) => m.clone(),
        Error::Incomplete => String::from("<incomplete>"),
    }
}

fn connection_with(data: &[u8]) -> Connection {
    let mut conn = Connection::new();
    conn.buffer.extend_from_slice(data);
    conn
}

#[test]
fn get_u8_reads_one_byte_and_stops_at_the_end() {
    let data = b"ab";
    let mut cursor = Cursor::new(data);
    assert_eq!(get_u8(&mut cursor).unwrap(), b'a');
    assert_eq!(get_u8(&mut cursor).unwrap(), b'b');
    assert!(matches!(get_u8(&mut cursor), Err(Error::Incomplete)));
    assert_eq!(cursor.position(), 2);
}

#[test]
fn get_line_reads_up_to_crlf() {
    let data = b"hello\r\nworld";
    let mut cursor = Cursor::new(data);
    assert_eq!(get_line(&mut cursor).unwrap(), b"hello");
    assert_eq!(cursor.position(), 7);
    assert!(matches!(get_line(&mut cursor), Err(Error::Incomplete)));
    assert_eq!(cursor.position(), 7);
}

#[test]
fn get_line_finds_the_first_crlf_only() {
    let data = b"a\rb\r\nc\r\n";
    let mut cursor = Cursor::new(data);
    assert_eq!(get_line(&mut cursor).unwrap(), b"a\rb");
    assert_eq!(get_line(&mut cursor).unwrap(), b"c");
}

#[test]
fn get_decimal_reads_a_number_line() {
    let data = b"1234\r\n";
    let mut cursor = Cursor::new(data);
    assert_eq!(get_decimal(&mut cursor).unwrap(), 1234);
    assert_eq!(cursor.position(), 6);
}

#[test]
fn get_decimal_rejects_a_line_without_digits() {
    let data = b"abc\r\n";
    let mut cursor = Cursor::new(data);
    let e = get_decimal(&mut cursor).unwrap_err();
    assert_eq!(other_message(&e), "protocol error: invalid frame format");
}

#[test]
fn get_decimal_on_empty_input_is_incomplete() {
    let data: &[u8] = b"";
    let mut cursor = Cursor::new(data);
    assert!(matches!(get_decimal(&mut cursor), Err(Error::Incomplete)));
}

#[test]
fn check_and_parse_a_simple_string() {
    let data = b"+OK\r\n";
    let mut cursor = Cursor::new(data);
    Frame::check(&mut cursor).unwrap();
    assert_eq!(cursor.position(), 5);
    cursor.set_position(0);
    match Frame::parse(&mut cursor).unwrap() {
        Frame::Simple(s) => assert_eq!(s, "OK"),
        other => panic!("unexpected {:?}", other),
    }
}

#[test]
fn check_and_parse_a_bulk_string() {
    let data = b"$5\r\nhello\r\n";
    let mut cursor = Cursor::new(data);
    Frame::check(&mut cursor).unwrap();
    assert_eq!(cursor.position(), data.len());
    cursor.set_position(0);
    let frame = Frame::parse(&mut cursor).unwrap();
    assert!(is_bulk(&frame, b"hello"));
}

#[test]
fn check_and_parse_an_array() {
    let data = b"*2\r\n$3\r\nGET\r\n$3\r\nkey\r\n";
    let mut cursor = Cursor::new(data);
    Frame::check(&mut cursor).unwrap();
    assert_eq!(cursor.position(), data.len());
    cursor.set_position(0);
    match Frame::parse(&mut cursor).unwrap() {
        Frame::Array(items) => {
            assert_eq!(items.len(), 2);
            assert!(is_bulk(&items[0], b"GET"));
            assert!(is_bulk(&items[1], b"key"));
        }
        other => panic!("unexpected {:?}", other),
    }
}

#[test]
fn check_nested_arrays_and_empty_array() {
    let data = b"*2\r\n*0\r\n*1\r\n+x\r\n";
    let mut cursor = Cursor::new(data);
    Frame::check(&mut cursor).unwrap();
    assert_eq!(cursor.position(), data.len());
}

#[test]
fn check_reports_incomplete_frames() {
    for data in [&b"$5\r\nhel"[..], b"*2\r\n$1\r\na\r\n", b"+OK", b"", b"$"] {
        let mut cursor = Cursor::new(data);
        assert!(matches!(Frame::check(&mut cursor), Err(Error::Incomplete)));
    }
}

#[test]
fn check_rejects_a_bulk_of_the_wrong_size() {
    let data = b"$3\r\nhello\r\n";
    let mut cursor = Cursor::new(data);
    let e = Frame::check(&mut cursor).unwrap_err();
    assert_eq!(other_message(&e), "bulk string size not matching");
}

#[test]
fn check_rejects_a_bad_length() {
    let data = b"$x\r\nabc\r\n";
    let mut cursor = Cursor::new(data);
    let e = Frame::check(&mut cursor).unwrap_err();
    assert_eq!(other_message(&e), "protocol error: invalid frame format");
}

#[test]
fn parse_rejects_a_simple_string_that_is_not_utf8() {
    let data = b"+\xff\r\n";
    let mut cursor = Cursor::new(data);
    Frame::check(&mut cursor).unwrap();
    cursor.set_position(0);
    let e = Frame::parse(&mut cursor).unwrap_err();
    assert_eq!(other_message(&e), "protocol error; invalid frame format");
}

#[test]
fn scan_reports_an_unsupported_type_byte() {
    let data = b"*1\r\n:1\r\n";
    let mut cursor = Cursor::new(data);
    assert!(matches!(Frame::scan(&mut cursor), Err(Stop::Unsupported)));
    assert!(connection_with(data).reaches_unsupported());
    assert!(!connection_with(b"+OK\r\n").reaches_unsupported());
}

#[test]
fn error_messages() {
    assert_eq!(Error::Incomplete.message(), "stream ended early");
    assert_eq!(Error::Other(String::from("boom")).message(), "boom");
}

#[test]
fn parse_frame_takes_one_frame_and_keeps_the_rest() {
    let mut conn = connection_with(b"+PING\r\n$1\r\nx");
    let frame = conn.parse_frame().unwrap().unwrap();
    assert!(matches!(frame, Frame::Simple(ref s) if s == "PING"));
    assert_eq!(&conn.buffer[..], b"$1\r\nx");
    assert!(conn.parse_frame().unwrap().is_none());
    assert_eq!(&conn.buffer[..], b"$1\r\nx");
}

#[test]
fn parse_frame_completes_once_more_bytes_arrive() {
    let mut conn = connection_with(b"*1\r\n$4\r\nPI");
    assert!(conn.parse_frame().unwrap().is_none());
    conn.buffer.extend_from_slice(b"NG\r\n");
    match conn.parse_frame().unwrap().unwrap() {
        Frame::Array(items) => assert!(is_bulk(&items[0], b"PING")),
        other => panic!("unexpected {:?}", other),
    }
    assert!(conn.buffer.is_empty());
}

#[test]
fn parse_frame_reports_an_invalid_frame_and_keeps_the_bytes() {
    let mut conn = connection_with(b"$2\r\nabc\r\n");
    let e = conn.parse_frame().unwrap_err();
    assert_eq!(other_message(&e), "bulk string size not matching");
    assert_eq!(&conn.buffer[..], b"$2\r\nabc\r\n");
}

#[test]
fn after_read_decides_at_the_end_of_the_stream() {
    let conn = Connection::new();
    assert!(conn.after_read(5).is_none());
    assert!(matches!(conn.after_read(0), Some(Ok(None))));
    let conn = connection_with(b"+PA");
    match conn.after_read(0) {
        Some(Err(e)) => assert_eq!(other_message(&e), "connection reset by peer"),
        _ => panic!("expected a reset"),
    }
}

#[test]
fn write_frame_bytes_of_simple_and_bulk() {
    let simple = Frame::Simple(String::from("OK"));
    assert_eq!(Connection::write_frame_bytes(&simple), b"+OK\r\n".to_vec());
    let payload = bulk(b"$3\r\nabc\r\n");
    assert_eq!(Connection::write_frame_bytes(&payload), b"$3\r\nabc\r\n".to_vec());
}

#[test]
fn encode_each_kind_of_frame() {
    assert_eq!(&Frame::Simple(String::from("OK")).encode()[..], b"+OK\r\n");
    assert_eq!(&Frame::Error(String::from("bad")).encode()[..], b"-bad\r\n");
    assert_eq!(&Frame::Integer(-42).encode()[..], b":-42\r\n");
    assert_eq!(&Frame::Integer(i64::MIN).encode()[..], b":-9223372036854775808\r\n");
    assert_eq!(&Frame::Integer(7).encode()[..], b":7\r\n");
    assert_eq!(&bulk(b"hello").encode()[..], b"$5\r\nhello\r\n");
    assert_eq!(&bulk(b"").encode()[..], b"$0\r\n\r\n");
    assert_eq!(&Frame::Null.encode()[..], b"$-1\r\n");
    let array = Frame::Array(vec![bulk(b"a"), Frame::Array(vec![]), Frame::Integer(10)]);
    assert_eq!(&array.encode()[..], b"*3\r\n$1\r\na\r\n*0\r\n:10\r\n");
}

#[test]
fn encoded_plain_frames_parse_back() {
    let frame = Frame::Array(vec![
        bulk(b"SET"),
        bulk(b"key"),
        Frame::Array(vec![bulk(b"a\rb"), Frame::Simple(String::from("h\u{e9}"))]),
    ]);
    let mut bytes = frame.encode().to_vec();
    bytes.extend_from_slice(b"+trailing\r\n");
    let mut cursor = Cursor::new(&bytes);
    Frame::check(&mut cursor).unwrap();
    let end = cursor.position();
    assert_eq!(end, frame.encode().len());
    cursor.set_position(0);
    match Frame::parse(&mut cursor).unwrap() {
        Frame::Array(items) => {
            assert_eq!(items.len(), 3);
            assert!(is_bulk(&items[0], b"SET"));
            assert!(is_bulk(&items[1], b"key"));
            match &items[2] {
                Frame::Array(inner) => {
                    assert!(is_bulk(&inner[0], b"a\rb"));
                    assert!(matches!(&inner[1], Frame::Simple(t) if t == "h\u{e9}"));
                }
                other => panic!("unexpected {:?}", other),
            }
        }
        other => panic!("unexpected {:?}", other),
    }
    assert_eq!(cursor.position(), end);
}

#[test]
fn string_and_decimal_from_bulk() {
    assert_eq!(Frame::string_from_bulk(Bytes::from_static(b"key")), "key");
    assert_eq!(Frame::string_from_bulk(Bytes::from_static(b"a\xffb")), "a\u{fffd}b");
    assert_eq!(Frame::decimal_from_bulk(Bytes::from_static(b"100")), Some(100));
    assert_eq!(Frame::decimal_from_bulk(Bytes::from_static(b"-5")), Some(-5));
    assert_eq!(Frame::decimal_from_bulk(Bytes::from_static(b"x")), None);
    assert_eq!(Frame::decimal_from_bulk(Bytes::from_static(b"9223372036854775808")), None);
}

#[test]
fn buffer_of_a_new_connection_is_empty() {
    let conn = Connection::new();
    assert!(conn.buffer.is_empty());
    let _: &BytesMut = &conn.buffer;
}

#[test]
fn a_failed_check_leaves_the_cursor_after_the_last_whole_piece() {
    let data = b"$3\r\nhello\r\n";
    let mut cursor = Cursor::new(data);
    assert!(Frame::check(&mut cursor).is_err());
    assert_eq!(cursor.position(), data.len());
    let data = b"$5\r\nhel";
    let mut cursor = Cursor::new(data);
    assert!(matches!(Frame::check(&mut cursor), Err(Error::Incomplete)));
    assert_eq!(cursor.position(), 4);
    let data = b"*2\r\n+a\r\n$x\r\n";
    let mut cursor = Cursor::new(data);
    assert!(Frame::check(&mut cursor).is_err());
    assert_eq!(cursor.position(), data.len());
}

#[test]
fn a_failed_parse_leaves_the_cursor_after_the_last_whole_piece() {
    let data = b"+\xff\r\n";
    let mut cursor = Cursor::new(data);
    assert!(Frame::parse(&mut cursor).is_err());
    assert_eq!(cursor.position(), 4);
    let data = b"*3\r\n$1\r\na\r\n$4\r\nab";
    let mut cursor = Cursor::new(data);
    assert!(matches!(Frame::parse(&mut cursor), Err(Error::Incomplete)));
    assert_eq!(cursor.position(), 15);
}
