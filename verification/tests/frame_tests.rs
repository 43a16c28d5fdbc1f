use my_redis::frame::{Frame, FrameError};
use my_redis::{Connection, StreamEnd};

#[test]
fn round_trip_simple() {
    let f = Frame::Simple("OK".to_string());
    let enc = f.encode().unwrap();
    assert_eq!(enc, b"+OK\r\n".to_vec());
    let n = Frame::check(&enc, 0).unwrap();
    assert_eq!(n, enc.len());
    assert_eq!(Frame::parse(&enc, 0, n).unwrap(), f);
}

#[test]
fn round_trip_error() {
    let f = Frame::Error("unimplemented".to_string());
    let enc = f.encode().unwrap();
    assert_eq!(enc, b"-unimplemented\r\n".to_vec());
    let n = Frame::check(&enc, 0).unwrap();
    assert_eq!(n, enc.len());
    assert_eq!(Frame::parse(&enc, 0, n).unwrap(), f);
}

#[test]
fn round_trip_null() {
    let f = Frame::Null;
    let enc = f.encode().unwrap();
    assert_eq!(enc, b"$-1\r\n".to_vec());
    let n = Frame::check(&enc, 0).unwrap();
    assert_eq!(n, 5);
    assert_eq!(Frame::parse(&enc, 0, n).unwrap(), Frame::Null);
}

#[test]
fn round_trip_bulk() {
    let f = Frame::Bulk(b"hello\r\nworld".to_vec());
    let enc = f.encode().unwrap();
    assert_eq!(enc, b"$12\r\nhello\r\nworld\r\n".to_vec());
    let n = Frame::check(&enc, 0).unwrap();
    assert_eq!(n, enc.len());
    assert_eq!(Frame::parse(&enc, 0, n).unwrap(), f);
}

#[test]
fn lone_cr_and_lf_in_text_round_trip() {
    let f = Frame::Simple("a\rb".to_string());
    let enc = f.encode().unwrap();
    assert_eq!(enc, b"+a\rb\r\n".to_vec());
    let n = Frame::check(&enc, 0).unwrap();
    assert_eq!(n, enc.len());
    assert_eq!(Frame::parse(&enc, 0, n).unwrap(), f);

    let f = Frame::Error("a\nb".to_string());
    let enc = f.encode().unwrap();
    assert_eq!(enc, b"-a\nb\r\n".to_vec());
    let n = Frame::check(&enc, 0).unwrap();
    assert_eq!(n, enc.len());
    assert_eq!(Frame::parse(&enc, 0, n).unwrap(), f);
}

#[test]
fn integer_encode_decode() {
    let enc = Frame::Integer(1000).encode().unwrap();
    assert_eq!(enc, b":1000\r\n".to_vec());
    let n = Frame::check(&enc, 0).unwrap();
    assert_eq!(n, 7);
    assert_eq!(Frame::parse(&enc, 0, n).unwrap(), Frame::Integer(1000));
}

#[test]
fn integer_zero_and_max() {
    assert_eq!(Frame::Integer(0).encode().unwrap(), b":0\r\n".to_vec());
    let enc = Frame::Integer(u64::MAX).encode().unwrap();
    assert_eq!(enc, b":18446744073709551615\r\n".to_vec());
    let n = Frame::check(&enc, 0).unwrap();
    assert_eq!(Frame::parse(&enc, 0, n).unwrap(), Frame::Integer(u64::MAX));
}

#[test]
fn integer_leading_zeros_accepted() {
    let buf = b":007\r\n".to_vec();
    let n = Frame::check(&buf, 0).unwrap();
    assert_eq!(n, 6);
    assert_eq!(Frame::parse(&buf, 0, n).unwrap(), Frame::Integer(7));
}

#[test]
fn integer_overflow_is_malformed() {
    let buf = b":18446744073709551616\r\n".to_vec();
    assert_eq!(Frame::check(&buf, 0), Err(FrameError::Malformed));
}

#[test]
fn integer_non_digits_malformed() {
    let buf = b":12a\r\n".to_vec();
    assert_eq!(Frame::check(&buf, 0), Err(FrameError::Malformed));
}

#[test]
fn empty_bulk() {
    let buf = b"$0\r\n\r\n".to_vec();
    let n = Frame::check(&buf, 0).unwrap();
    assert_eq!(n, 6);
    assert_eq!(Frame::parse(&buf, 0, n).unwrap(), Frame::Bulk(Vec::new()));
}

#[test]
fn bulk_bad_terminator_malformed() {
    let buf = b"$3\r\nabcXY".to_vec();
    assert_eq!(Frame::check(&buf, 0), Err(FrameError::Malformed));
}

#[test]
fn bulk_over_sanity_bound_malformed() {
    let buf = b"$536870913\r\n".to_vec();
    assert_eq!(Frame::check(&buf, 0), Err(FrameError::Malformed));
}

#[test]
fn bad_null_marker_malformed() {
    let buf = b"$-2\r\n".to_vec();
    assert_eq!(Frame::check(&buf, 0), Err(FrameError::Malformed));
}

#[test]
fn check_needs_more_data() {
    assert_eq!(Frame::check(&Vec::new(), 0), Err(FrameError::NeedMoreData));
    assert_eq!(Frame::check(&b"+abc".to_vec(), 0), Err(FrameError::NeedMoreData));
    assert_eq!(Frame::check(&b"$".to_vec(), 0), Err(FrameError::NeedMoreData));
    assert_eq!(Frame::check(&b"$5\r\nhel".to_vec(), 0), Err(FrameError::NeedMoreData));
}

#[test]
fn check_at_offset() {
    let buf = b"XYZ:42\r\n".to_vec();
    let n = Frame::check(&buf, 3).unwrap();
    assert_eq!(n, 5);
    assert_eq!(Frame::parse(&buf, 3, n).unwrap(), Frame::Integer(42));
}

#[test]
fn array_encode_unsupported() {
    let f = Frame::Array(vec![Frame::Integer(1)]);
    assert_eq!(f.encode(), Err(FrameError::UnsupportedVariant));
}

#[test]
fn array_decode_unsupported() {
    let buf = b"*1\r\n:5\r\n".to_vec();
    assert_eq!(Frame::check(&buf, 0), Err(FrameError::UnsupportedVariant));
}

#[test]
fn crlf_in_simple_text_rejected() {
    let f = Frame::Simple("a\r\nb".to_string());
    assert_eq!(f.encode(), Err(FrameError::Malformed));
    let f = Frame::Error("x\r\n".to_string());
    assert_eq!(f.encode(), Err(FrameError::Malformed));
}

#[test]
fn utf8_simple_text_round_trips() {
    let f = Frame::Simple("héllo".to_string());
    let enc = f.encode().unwrap();
    assert_eq!(enc, "+héllo\r\n".as_bytes().to_vec());
    let n = Frame::check(&enc, 0).unwrap();
    assert_eq!(n, enc.len());
    assert_eq!(Frame::parse(&enc, 0, n).unwrap(), f);
}

#[test]
fn invalid_utf8_line_is_malformed() {
    let buf = b"+h\xC3\r\n".to_vec();
    let n = Frame::check(&buf, 0).unwrap();
    assert_eq!(n, buf.len());
    assert_eq!(Frame::parse(&buf, 0, n), Err(FrameError::Malformed));

    let mut conn = Connection::new();
    conn.feed(b"+h\xC3\r\n");
    assert_eq!(conn.parse_frame(), Err(FrameError::Malformed));
}

#[test]
fn incremental_bulk_delivery() {
    let wire = b"$5\r\nhello\r\n";
    let mut conn = Connection::new();
    for (i, byte) in wire.iter().enumerate() {
        if i + 1 < wire.len() {
            conn.feed(&[*byte]);
            assert_eq!(conn.parse_frame(), Ok(None));
        } else {
            conn.feed(&[*byte]);
        }
    }
    assert_eq!(conn.parse_frame(), Ok(Some(Frame::Bulk(b"hello".to_vec()))));
    assert_eq!(conn.end_of_stream(), StreamEnd::CleanEof);
}

#[test]
fn two_frames_one_read() {
    let mut conn = Connection::new();
    conn.feed(b"+one\r\n:42\r\n");
    assert_eq!(conn.parse_frame(), Ok(Some(Frame::Simple("one".to_string()))));
    assert_eq!(conn.parse_frame(), Ok(Some(Frame::Integer(42))));
    assert_eq!(conn.end_of_stream(), StreamEnd::CleanEof);
    assert_eq!(conn.parse_frame(), Ok(None));
}

#[test]
fn clean_eof_on_empty_buffer() {
    let conn = Connection::new();
    assert_eq!(conn.end_of_stream(), StreamEnd::CleanEof);
}

#[test]
fn reset_detected_mid_frame() {
    let mut conn = Connection::new();
    conn.feed(b"$5\r\nhel");
    assert_eq!(conn.parse_frame(), Ok(None));
    assert_eq!(conn.end_of_stream(), StreamEnd::PeerResetIncomplete);
}

#[test]
fn malformed_sigil_fails_fast() {
    let mut conn = Connection::new();
    conn.feed(b"!oops\r\n");
    assert_eq!(conn.parse_frame(), Err(FrameError::Malformed));
}

#[test]
fn array_sigil_on_wire_unsupported() {
    let mut conn = Connection::new();
    conn.feed(b"*2\r\n");
    assert_eq!(conn.parse_frame(), Err(FrameError::UnsupportedVariant));
}

#[test]
fn write_path_batches_and_flushes() {
    let mut conn = Connection::new();
    conn.write_frame(&Frame::Simple("OK".to_string())).unwrap();
    conn.write_frame(&Frame::Integer(7)).unwrap();
    assert_eq!(conn.take_write_buffer(), b"+OK\r\n:7\r\n".to_vec());
    assert_eq!(conn.take_write_buffer(), Vec::<u8>::new());
    assert_eq!(
        conn.write_frame(&Frame::Array(Vec::new())),
        Err(FrameError::UnsupportedVariant)
    );
    assert_eq!(conn.take_write_buffer(), Vec::<u8>::new());
}
