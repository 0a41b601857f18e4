use bytes::Bytes;
use redis_lite::decimal::{write_decimal, write_signed_decimal};
use redis_lite::frame::{get_decimal, Cursor, Error, Frame};

fn read_unsigned(line: &[u8]) -> Option<u64> {
    let mut data = line.to_vec();
    data.extend_from_slice(b"\r\n");
    let mut cursor = Cursor::new(&data);
    match get_decimal(&mut cursor) {
        Ok(v) => Some(v),
        Err(Error::Other(m)) => {
            assert_eq!(m, "protocol error: invalid frame format");
            None
        }
        Err(Error::Incomplete) => panic!("a whole line was given"),
    }
}

fn read_signed(text: &'static [u8]) -> Option<i64> {
    Frame::decimal_from_bulk(Bytes::from_static(text))
}

#[test]
fn unsigned_numbers_read_as_atoi_reads_them() {
    assert_eq!(read_unsigned(b"42"), Some(42));
    assert_eq!(read_unsigned(b"0042xyz"), Some(42));
    assert_eq!(read_unsigned(b"+7"), Some(7));
    assert_eq!(read_unsigned(b"-0"), Some(0));
    assert_eq!(read_unsigned(b"-1"), None);
    assert_eq!(read_unsigned(b"-"), Some(0));
    assert_eq!(read_unsigned(b""), None);
    assert_eq!(read_unsigned(b"x1"), None);
    assert_eq!(read_unsigned(b"18446744073709551615"), Some(u64::MAX));
    assert_eq!(read_unsigned(b"18446744073709551616"), None);
}

#[test]
fn signed_numbers_read_as_atoi_reads_them() {
    assert_eq!(read_signed(b"-42"), Some(-42));
    assert_eq!(read_signed(b"-9223372036854775808"), Some(i64::MIN));
    assert_eq!(read_signed(b"9223372036854775807"), Some(i64::MAX));
    assert_eq!(read_signed(b"9223372036854775808"), None);
    assert_eq!(read_signed(b"abc"), None);
    assert_eq!(read_signed(b"12ms"), Some(12));
}

#[test]
fn decimal_forms() {
    let mut out = b"x".to_vec();
    write_decimal(0, &mut out);
    write_decimal(1234567890, &mut out);
    write_decimal(u64::MAX, &mut out);
    assert_eq!(out, b"x0123456789018446744073709551615".to_vec());
    let mut out = Vec::new();
    write_signed_decimal(-305, &mut out);
    write_signed_decimal(9, &mut out);
    assert_eq!(out, b"-3059".to_vec());
}
