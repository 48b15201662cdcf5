use bytes::{BufMut, BytesMut};
use std::collections::hash_map::DefaultHasher;
use std::hash::{Hash, Hasher};
use simple_redis::{
    BulkString, Double, RespArray, RespError, RespFrame, RespFrameCodec, RespMap, RespNull,
    SimpleError, SimpleString,
};

fn hash_of(f: &RespFrame) -> u64 {
    let mut h = DefaultHasher::new();
    f.hash(&mut h);
    h.finish()
}

fn bulk(s: &str) -> RespFrame {
    Some(BulkString::new(s.as_bytes())).into()
}

#[test]
fn test_array_encode() {
    let frame: RespFrame = Some(RespArray::new(vec![bulk("set"), bulk("hello"), bulk("world")])).into();
    assert_eq!(
        &frame.encode(),
        b"*3\r\n$3\r\nset\r\n$5\r\nhello\r\n$5\r\nworld\r\n"
    );
}

#[test]
fn test_array_decode() {
    let mut buf = BytesMut::new();
    buf.extend_from_slice(b"*2\r\n$4\r\necho\r\n$5\r\nhello\r\n");

    assert_eq!(RespFrame::expect_length(&buf), Ok(25));

    let frame = RespFrame::decode(&mut buf).unwrap();
    assert_eq!(frame, RespFrame::Array(Some(RespArray::new(vec![bulk("echo"), bulk("hello")]))));

    buf.extend_from_slice(b"*2\r\n$4\r\necho\r\n");
    assert_eq!(RespFrame::expect_length(&buf), Err(RespError::NotComplete));
    let ret = RespFrame::decode(&mut buf);
    assert_eq!(ret.unwrap_err(), RespError::NotComplete);

    buf.extend_from_slice(b"$5\r\nhello\r\n");
    assert_eq!(RespFrame::expect_length(&buf), Ok(25));
    let frame = RespFrame::decode(&mut buf).unwrap();
    assert_eq!(frame, RespFrame::Array(Some(RespArray::new(vec![bulk("echo"), bulk("hello")]))));
}

#[test]
fn test_null_array_encode() {
    let frame: RespFrame = RespFrame::Array(None);
    assert_eq!(frame.encode(), b"*-1\r\n");
}

#[test]
fn test_null_array_decode() {
    let mut buf = BytesMut::new();
    buf.extend_from_slice(b"*-1\r\n");

    assert_eq!(RespFrame::expect_length(&buf), Ok(5));

    let frame = RespFrame::decode(&mut buf).unwrap();
    assert_eq!(frame, RespFrame::Array(None));
}

#[test]
fn test_zero_array_encode() {
    let frame: RespFrame = Some(RespArray::new(Vec::new())).into();
    assert_eq!(frame.encode(), b"*0\r\n");
}

#[test]
fn test_zero_array_decode() {
    let mut buf = BytesMut::new();
    buf.extend_from_slice(b"*0\r\n");

    assert_eq!(RespFrame::expect_length(&buf), Ok(4));

    let frame = RespFrame::decode(&mut buf).unwrap();
    assert_eq!(frame, RespFrame::Array(Some(RespArray::new(Vec::new()))));
}

#[test]
fn test_bulk_string_encode() {
    let frame: RespFrame = Some(BulkString::new(b"hello")).into();
    assert_eq!(frame.encode(), b"$5\r\nhello\r\n");
}

#[test]
fn test_bulk_string_decode() {
    let mut buf = BytesMut::new();
    buf.extend_from_slice(b"$5\r\nhello\r\n");

    assert_eq!(RespFrame::expect_length(&buf), Ok(11));

    let frame = RespFrame::decode(&mut buf).unwrap();
    assert_eq!(frame, RespFrame::BulkString(Some(BulkString::new(b"hello"))));

    buf.extend_from_slice(b"$5\r\nhello");
    let ret = RespFrame::decode(&mut buf);
    assert_eq!(ret.unwrap_err(), RespError::NotComplete);

    buf.extend_from_slice(b"\r\n");
    let frame = RespFrame::decode(&mut buf).unwrap();
    assert_eq!(frame, RespFrame::BulkString(Some(BulkString::new(b"hello"))));
}

#[test]
fn test_null_bulk_string_encode() {
    let frame: RespFrame = RespFrame::BulkString(None);
    assert_eq!(frame.encode(), b"$-1\r\n");
}

#[test]
fn test_null_bulk_string_decode() {
    let mut buf = BytesMut::new();
    buf.extend_from_slice(b"$-1\r\n");

    assert_eq!(RespFrame::expect_length(&buf), Ok(5));

    let frame = RespFrame::decode(&mut buf).unwrap();
    assert_eq!(frame, RespFrame::BulkString(None));
}

#[test]
fn test_zero_bulk_string_encode() {
    let frame: RespFrame = Some(BulkString::new(&[])).into();
    assert_eq!(frame.encode(), b"$0\r\n\r\n");
}

#[test]
fn test_zero_bulk_string_decode() {
    let mut buf = BytesMut::new();
    buf.extend_from_slice(b"$0\r\n\r\n");

    assert_eq!(RespFrame::expect_length(&buf), Ok(6));

    let frame = RespFrame::decode(&mut buf).unwrap();
    assert_eq!(frame, RespFrame::BulkString(Some(BulkString::new(&[]))));
}

#[test]
fn test_simple_error_encode() {
    let frame: RespFrame = SimpleError::new("ERROR").into();
    assert_eq!(frame.encode(), b"-ERROR\r\n");
}

#[test]
fn test_simple_error_decode() {
    let mut buf = BytesMut::new();
    buf.extend_from_slice(b"-ERROR\r\n");

    let frame = RespFrame::decode(&mut buf).unwrap();
    assert_eq!(frame, RespFrame::Error(SimpleError::new("ERROR")));

    buf.extend_from_slice(b"-hello\r");

    let ret = RespFrame::decode(&mut buf);
    assert_eq!(ret.unwrap_err(), RespError::NotComplete);

    buf.put_u8(b'\n');
    let frame = RespFrame::decode(&mut buf).unwrap();
    assert_eq!(frame, RespFrame::Error(SimpleError::new("hello")));
}

const PIPELINE: &str = "*3\r\n$3\r\nSET\r\n$3\r\nkey\r\n$5\r\nvalue\r\n*1\r\n+OK\r\n*2\r\n$3\r\nGET\r\n$3\r\nkey\r\n$5\r\nvalue\r\n*4\r\n$4\r\nHSET\r\n$3\r\nkey\r\n$5\r\nfield\r\n$5\r\nvalue\r\n*1\r\n-ERR\r\n*3\r\n$4\r\nHGET\r\n$3\r\nkey\r\n$5\r\nfield\r\n$5\r\nvalue\r\n*3\r\n$4\r\nSADD\r\n$3\r\nkey\r\n$6\r\nmember\r\n:1\r\n";

fn decode_simple_string_ok() {
    let mut buf = BytesMut::from("+OK\r\n");
    let resp = RespFrame::decode(&mut buf).unwrap();
    assert_eq!(RespFrame::SimpleString(SimpleString::new("OK")), resp)
}

fn decode_incomplete_simple_string() {
    let mut buf = BytesMut::from("+OK\r");
    let resp = RespFrame::decode(&mut buf);
    assert_eq!(RespError::NotComplete, resp.unwrap_err())
}

fn decode_integers() {
    let mut buf = BytesMut::from(":10\r\n");
    let resp = RespFrame::decode(&mut buf).unwrap();
    assert_eq!(RespFrame::Integer(10), resp);

    let mut buf = BytesMut::from(":-10\r\n");
    let resp = RespFrame::decode(&mut buf).unwrap();
    assert_eq!(RespFrame::Integer(-10), resp)
}

fn decode_error() {
    let mut buf = BytesMut::from("-ERR\r\n");
    let resp = RespFrame::decode(&mut buf).unwrap();
    assert_eq!(RespFrame::Error(SimpleError::new("ERR")), resp)
}

fn decode_three_in_a_row() {
    let mut buf = BytesMut::from("+OK\r\n_\r\n+OK\r\n");

    let resp = RespFrame::decode(&mut buf).unwrap();
    assert_eq!(RespFrame::SimpleString(SimpleString::new("OK")), resp);

    let resp = RespFrame::decode(&mut buf).unwrap();
    assert_eq!(RespFrame::Null(RespNull), resp);

    let resp = RespFrame::decode(&mut buf).unwrap();
    assert_eq!(RespFrame::SimpleString(SimpleString::new("OK")), resp);
    assert!(buf.is_empty());
}

fn decode_bulk_strings() {
    let test_cases = ["$5\r\nhello\r\n", "$0\r\n\r\n", "$-1\r\n"];
    let test_expecteds = [
        RespFrame::BulkString(Some(BulkString::new(b"hello"))),
        RespFrame::BulkString(Some(BulkString::new(b""))),
        RespFrame::BulkString(None),
    ];

    for (&test, excepted) in test_cases.iter().zip(test_expecteds) {
        let mut buf = BytesMut::from(test);
        let result = RespFrame::decode(&mut buf);
        assert!(result.is_ok());
        assert_eq!(excepted, result.unwrap());
    }
}

fn decode_arrays() {
    let test_cases = ["*-1\r\n", "*0\r\n", "*3\r\n$4\r\necho\r\n$5\r\nhello\r\n+OK\r\n"];
    let test_expecteds = [
        RespFrame::Array(None),
        RespFrame::Array(Some(RespArray::new(vec![]))),
        RespFrame::Array(Some(RespArray::new(vec![
            bulk("echo"),
            bulk("hello"),
            RespFrame::SimpleString(SimpleString::new("OK")),
        ]))),
    ];

    for (&test, excepted) in test_cases.iter().zip(test_expecteds) {
        let mut buf = BytesMut::from(test);
        let result = RespFrame::decode(&mut buf);
        assert!(result.is_ok());
        assert_eq!(excepted, result.unwrap());
    }
}

#[test]
fn respv2_should_work() {
    let mut buf = BytesMut::from(PIPELINE);
    let resp = RespFrame::decode(&mut buf);
    assert!(resp.is_ok());
}

#[test]
fn respv3_should_work() {
    let mut buf = BytesMut::from(PIPELINE);
    let resp = RespFrame::decode(&mut buf);
    assert!(resp.is_ok());
}

#[test]
fn respv2_decode_simple_string_should_work() {
    decode_simple_string_ok();
}

#[test]
fn respv3_decode_simple_string_should_work() {
    decode_simple_string_ok();
}

#[test]
fn respv2_decode_uncomple_simple_string_should_fail() {
    decode_incomplete_simple_string();
}

#[test]
fn respv3_decode_uncomple_simple_string_should_fail() {
    decode_incomplete_simple_string();
}

#[test]
fn respv2_decode_integer_should_work() {
    decode_integers();
}

#[test]
fn respv3_decode_integer_should_work() {
    decode_integers();
}

#[test]
fn respv2_decode_error_should_work() {
    decode_error();
}

#[test]
fn respv3_decode_error_should_work() {
    decode_error();
}

#[test]
fn respv2_decode_null_should_work() {
    decode_three_in_a_row();
}

#[test]
fn respv3_decode_null_should_work() {
    decode_three_in_a_row();
}

#[test]
fn respv2_decode_bulk_string_should_work() {
    decode_bulk_strings();
}

#[test]
fn respv3_decode_bulk_string_should_work() {
    decode_bulk_strings();
}

#[test]
fn respv2_decode_array_string_should_work() {
    decode_arrays();
}

#[test]
fn respv3_decode_array_string_should_work() {
    decode_arrays();
}

#[test]
fn parse_respv2_simple_string_should_work() {
    let resp = RespFrame::decode_exact(b"+OK\r\n").unwrap();
    assert_eq!(RespFrame::SimpleString(SimpleString::new("OK")), resp)
}

#[test]
fn respv2_map_should_work() {
    let s = b"%2\r\n+hello\r\n$5\r\nworld\r\n+foo\r\n$3\r\nbar\r\n";
    let resp = RespFrame::decode_exact(s);
    let mut map = RespMap::new();
    map.insert(SimpleString::new("hello").into(), bulk("world"));
    map.insert(SimpleString::new("foo").into(), bulk("bar"));
    assert!(resp.is_ok());
    assert_eq!(RespFrame::Dict(map), resp.unwrap());

    let resp = RespFrame::decode_exact(b"%0\r\n");
    assert!(resp.is_ok());
    assert_eq!(RespFrame::Dict(RespMap::new()), resp.unwrap())
}

#[test]
fn codec_reports_partial_frames_as_none() {
    let mut codec = RespFrameCodec;
    let mut buf = BytesMut::from("$5\r\nhel");
    assert_eq!(codec.decode(&mut buf), Ok(None));
    assert_eq!(&buf[..], b"$5\r\nhel");
    buf.extend_from_slice(b"lo\r\n");
    assert_eq!(codec.decode(&mut buf), Ok(Some(bulk("hello"))));
    assert!(buf.is_empty());
}

#[test]
fn codec_encodes_onto_the_buffer() {
    let mut codec = RespFrameCodec;
    let mut buf = BytesMut::from("+A\r\n");
    codec.encode(RespFrame::Integer(-42), &mut buf);
    assert_eq!(&buf[..], b"+A\r\n:-42\r\n");
}

#[test]
fn map_with_reversed_wire_order_encodes_sorted() {
    let frame = RespFrame::decode_exact(b"%2\r\n+hello\r\n$5\r\nworld\r\n+foo\r\n$3\r\nbar\r\n").unwrap();
    assert_eq!(frame.encode(), b"%2\r\n+foo\r\n$3\r\nbar\r\n+hello\r\n$5\r\nworld\r\n");
}

#[test]
fn map_duplicate_key_keeps_last_value() {
    let frame = RespFrame::decode_exact(b"%2\r\n:1\r\n+a\r\n:1\r\n+b\r\n").unwrap();
    let mut map = RespMap::new();
    map.insert(RespFrame::Integer(1), RespFrame::SimpleString(SimpleString::new("b")));
    assert_eq!(frame, RespFrame::Dict(map));
    assert_eq!(frame.encode(), b"%1\r\n:1\r\n+b\r\n");
}

#[test]
fn map_orders_integer_keys_by_value() {
    let mut map = RespMap::new();
    map.insert(RespFrame::Integer(10), RespFrame::Boolean(true));
    map.insert(RespFrame::Integer(9), RespFrame::Boolean(false));
    map.insert(RespFrame::Integer(-3), RespFrame::Null(RespNull));
    assert_eq!(map.len(), 3);
    assert_eq!(
        RespFrame::Dict(map).encode(),
        b"%3\r\n:-3\r\n_\r\n:9\r\n#f\r\n:10\r\n#t\r\n"
    );
}

#[test]
fn null_bulk_string_is_not_empty_bulk_string() {
    let null = RespFrame::BulkString(None);
    let empty = RespFrame::BulkString(Some(BulkString::new(b"")));
    assert_ne!(null, empty);
    assert_eq!(null.encode(), b"$-1\r\n");
    assert_eq!(empty.encode(), b"$0\r\n\r\n");
    let null_array = RespFrame::Array(None);
    let empty_array = RespFrame::Array(Some(RespArray::new(vec![])));
    assert_ne!(null_array, empty_array);
    assert_eq!(null_array.encode(), b"*-1\r\n");
    assert_eq!(empty_array.encode(), b"*0\r\n");
}

#[test]
fn null_bulk_string_round_trips_byte_for_byte() {
    let frame = RespFrame::decode_exact(b"$-1\r\n").unwrap();
    assert_eq!(frame, RespFrame::BulkString(None));
    assert_eq!(frame.encode(), b"$-1\r\n");
}

#[test]
fn every_proper_prefix_is_incomplete() {
    let whole = b"*3\r\n$4\r\necho\r\n%1\r\n#t\r\n,1.5e3\r\n*-1\r\n";
    for end in 0..whole.len() {
        assert_eq!(RespFrame::expect_length(&whole[..end]), Err(RespError::NotComplete));
    }
    assert_eq!(RespFrame::expect_length(whole), Ok(whole.len()));
}

#[test]
fn chunked_arrival_decodes_once_complete() {
    let whole = b"*2\r\n$3\r\nget\r\n:-7\r\n";
    let mut buf = BytesMut::new();
    for (i, byte) in whole.iter().enumerate() {
        buf.put_u8(*byte);
        let r = RespFrame::decode(&mut buf);
        if i + 1 < whole.len() {
            assert_eq!(r, Err(RespError::NotComplete));
            assert_eq!(buf.len(), i + 1);
        } else {
            assert_eq!(
                r,
                Ok(RespFrame::Array(Some(RespArray::new(vec![bulk("get"), RespFrame::Integer(-7)]))))
            );
        }
    }
    assert!(buf.is_empty());
}

#[test]
fn round_trip_of_every_kind() {
    let mut map = RespMap::new();
    map.insert(RespFrame::Boolean(false), RespFrame::Double(Double::new("-2.5E-3").unwrap()));
    let frames = vec![
        RespFrame::Null(RespNull),
        RespFrame::SimpleString(SimpleString::new("héllo")),
        RespFrame::Error(SimpleError::new("ERR x")),
        RespFrame::Integer(i64::MIN),
        RespFrame::Integer(i64::MAX),
        RespFrame::Boolean(true),
        RespFrame::BulkString(Some(BulkString::new(b"a\r\nb"))),
        RespFrame::Double(Double::new("inf").unwrap()),
        RespFrame::Dict(map),
    ];
    for f in frames {
        let bytes = f.encode();
        assert_eq!(RespFrame::expect_length(&bytes), Ok(bytes.len()));
        assert_eq!(RespFrame::decode_exact(&bytes), Ok(f));
    }
}

#[test]
fn integer_and_boolean_encodings() {
    assert_eq!(RespFrame::Integer(0).encode(), b":0\r\n");
    assert_eq!(RespFrame::Integer(-9223372036854775808).encode(), b":-9223372036854775808\r\n");
    assert_eq!(RespFrame::Boolean(false).encode(), b"#f\r\n");
    assert_eq!(RespFrame::Null(RespNull).encode(), b"_\r\n");
    assert_eq!(RespFrame::Double(Double::new("3.14").unwrap()).encode(), b",3.14\r\n");
}

#[test]
fn malformed_input_is_a_structural_error() {
    assert_eq!(RespFrame::expect_length(b"?x\r\n"), Err(RespError::InvalidFrameType(b'?')));
    assert_eq!(RespFrame::expect_length(b"$-2\r\n"), Err(RespError::InvalidFrameLength(-2)));
    assert_eq!(RespFrame::expect_length(b"%-1\r\n"), Err(RespError::InvalidFrameLength(-1)));
    assert_eq!(RespFrame::expect_length(b"*x1\r\n"), Err(RespError::InvalidFrame));
    assert_eq!(RespFrame::expect_length(b"$1\r\nab\r\n"), Err(RespError::InvalidFrame));
    assert_eq!(RespFrame::expect_length(b""), Err(RespError::NotComplete));
    assert_eq!(RespFrame::decode_exact(b":12a\r\n"), Err(RespError::InvalidFrame));
    assert_eq!(RespFrame::decode_exact(b":9223372036854775808\r\n"), Err(RespError::InvalidFrame));
    assert_eq!(RespFrame::decode_exact(b"#x\r\n"), Err(RespError::InvalidFrame));
    assert_eq!(RespFrame::decode_exact(b",1.e\r\n"), Err(RespError::InvalidFrame));
    assert_eq!(RespFrame::decode_exact(b",.\r\n"), Err(RespError::InvalidFrame));
    let mut buf = BytesMut::from("*1\r\n:oops\r\n");
    assert_eq!(RespFrame::decode(&mut buf), Err(RespError::InvalidFrame));
    assert_eq!(buf.len(), 11);
}

#[test]
fn invalid_utf8_text_is_replaced() {
    let frame = RespFrame::decode_exact(b"+a\xffb\r\n").unwrap();
    assert_eq!(frame, RespFrame::SimpleString(SimpleString("a\u{fffd}b".to_string())));
}

fn double_of(x: f64) -> RespFrame {
    RespFrame::Double(Double::new(&format!("{}", x).to_lowercase()).unwrap())
}

#[test]
fn doubles_from_equal_bits_are_equal_frames() {
    let nan_a = double_of(f64::from_bits(f64::NAN.to_bits()));
    let nan_b = double_of(f64::from_bits(f64::NAN.to_bits()));
    assert_eq!(nan_a, nan_b);
    assert_eq!(hash_of(&nan_a), hash_of(&nan_b));
    assert_eq!(double_of(1.5), double_of(1.5));
    assert_eq!(hash_of(&double_of(1.5)), hash_of(&double_of(1.5)));
    assert_ne!(double_of(0.0), double_of(-0.0));
    assert_eq!(double_of(-0.0).encode(), b",-0\r\n");
    assert_eq!(double_of(f64::INFINITY).encode(), b",inf\r\n");
    assert!(Double::new("1e").is_none());
    assert!(Double::new("abc").is_none());
    assert!(Double::new(".").is_none());
    assert!(Double::new("-2.5E+10").is_some());
    for ok in ["1.", ".5", "+inf", "-Infinity", "NaN", "nan", "+1e-3"] {
        assert!(Double::new(ok).is_some(), "{}", ok);
    }
    assert_eq!(
        RespFrame::decode_exact(b",.5\r\n"),
        Ok(RespFrame::Double(Double::new(".5").unwrap()))
    );
}

#[test]
fn respv2_simple_string_should_fail() {
    let resp = RespFrame::decode_exact(b"+OK\r");
    assert!(resp.is_err());
}

#[test]
fn decode_exact_refuses_trailing_bytes() {
    assert_eq!(RespFrame::decode_exact(b"+OK\r\n+"), Err(RespError::InvalidFrame));
    assert_eq!(RespFrame::decode_exact(b"+OK\r"), Err(RespError::NotComplete));
}

#[test]
fn clone_copies_nested_frames() {
    let mut map = RespMap::new();
    map.insert(bulk("k"), RespFrame::Array(Some(RespArray::new(vec![RespFrame::Integer(7)]))));
    let frame = RespFrame::Array(Some(RespArray::new(vec![RespFrame::Dict(map), bulk("x")])));
    let copy = frame.clone();
    assert_eq!(copy, frame);
    assert_eq!(copy.encode(), frame.encode());
}

#[test]
fn mod_respv2_simple_string_should_work() {
    let resp = RespFrame::decode_exact(b"+OK\r\n").unwrap();
    assert_eq!(RespFrame::SimpleString(SimpleString::new("OK")), resp)
}

#[test]
fn map_orders_bulk_string_keys_by_content() {
    let mut map = RespMap::new();
    map.insert(bulk("bbbbbbbbbb"), RespFrame::Integer(2));
    map.insert(bulk("aa"), RespFrame::Integer(1));
    assert_eq!(
        RespFrame::Dict(map).encode(),
        b"%2\r\n$2\r\naa\r\n:1\r\n$10\r\nbbbbbbbbbb\r\n:2\r\n"
    );
}

#[test]
fn map_orders_text_keys_with_a_prefix_first() {
    let mut map = RespMap::new();
    map.insert(RespFrame::SimpleString(SimpleString::new("a\u{1}")), RespFrame::Boolean(true));
    map.insert(RespFrame::SimpleString(SimpleString::new("a")), RespFrame::Boolean(false));
    assert_eq!(RespFrame::Dict(map).encode(), b"%2\r\n+a\r\n#f\r\n+a\x01\r\n#t\r\n");
}

#[test]
fn map_orders_kinds_then_values() {
    let mut map = RespMap::new();
    map.insert(RespFrame::Array(Some(RespArray::new(vec![RespFrame::Integer(2)]))), RespFrame::Null(RespNull));
    map.insert(RespFrame::Array(Some(RespArray::new(vec![RespFrame::Integer(10)]))), RespFrame::Null(RespNull));
    map.insert(RespFrame::Array(None), RespFrame::Null(RespNull));
    map.insert(RespFrame::BulkString(None), RespFrame::Null(RespNull));
    map.insert(RespFrame::Boolean(true), RespFrame::Null(RespNull));
    map.insert(RespFrame::Null(RespNull), RespFrame::Null(RespNull));
    assert_eq!(
        RespFrame::Dict(map).encode(),
        b"%6\r\n_\r\n_\r\n#t\r\n_\r\n$-1\r\n_\r\n*-1\r\n_\r\n*1\r\n:2\r\n_\r\n*1\r\n:10\r\n_\r\n"
    );
}
