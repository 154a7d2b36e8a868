use hello_redis::Command;
use hello_redis::Decoder;
use hello_redis::Error;
use hello_redis::RedisData;
use hello_redis::encode;
use hello_redis::send;

fn decode_all_of(bytes: &[u8]) -> Result<Option<RedisData>, Error> {
    let mut d = Decoder::new();
    d.feed(bytes);
    d.decode()
}

#[test]
fn decodes_pong_simple_string() {
    let r = decode_all_of(b"+PONG\r\n");
    assert_eq!(r, Ok(Some(RedisData::SimpleString(b"PONG".to_vec()))));
}

#[test]
fn decodes_empty_simple_string() {
    let r = decode_all_of(b"+\r\n");
    assert_eq!(r, Ok(Some(RedisData::SimpleString(Vec::new()))));
}

#[test]
fn error_reply_is_a_value_not_a_failure() {
    let r = decode_all_of(b"-ERR wrong type\r\n");
    assert_eq!(r, Ok(Some(RedisData::Error(b"ERR wrong type".to_vec()))));
}

#[test]
fn decodes_integers() {
    assert_eq!(decode_all_of(b":0\r\n"), Ok(Some(RedisData::Integer(0))));
    assert_eq!(decode_all_of(b":1000\r\n"), Ok(Some(RedisData::Integer(1000))));
    assert_eq!(decode_all_of(b":-42\r\n"), Ok(Some(RedisData::Integer(-42))));
}

#[test]
fn decodes_integer_extremes() {
    assert_eq!(
        decode_all_of(b":9223372036854775807\r\n"),
        Ok(Some(RedisData::Integer(i64::MAX)))
    );
    assert_eq!(
        decode_all_of(b":-9223372036854775808\r\n"),
        Ok(Some(RedisData::Integer(i64::MIN)))
    );
}

#[test]
fn integer_overflow_is_a_framing_error() {
    assert_eq!(decode_all_of(b":9223372036854775808\r\n"), Err(Error::BadInteger));
    assert_eq!(decode_all_of(b":-9223372036854775809\r\n"), Err(Error::BadInteger));
}

#[test]
fn non_numeric_integer_is_bad_integer() {
    assert_eq!(decode_all_of(b":abc\r\n"), Err(Error::BadInteger));
    assert_eq!(decode_all_of(b":\r\n"), Err(Error::BadInteger));
    assert_eq!(decode_all_of(b":-\r\n"), Err(Error::BadInteger));
}

#[test]
fn null_bulk_string_is_distinct_from_empty() {
    let null_bulk = decode_all_of(b"$-1\r\n");
    let empty_bulk = decode_all_of(b"$0\r\n\r\n");
    assert_eq!(null_bulk, Ok(Some(RedisData::BulkString(None))));
    assert_eq!(empty_bulk, Ok(Some(RedisData::BulkString(Some(Vec::new())))));
    assert_ne!(null_bulk, empty_bulk);
}

#[test]
fn null_array_is_distinct_from_empty() {
    let null_array = decode_all_of(b"*-1\r\n");
    let empty_array = decode_all_of(b"*0\r\n");
    assert_eq!(null_array, Ok(Some(RedisData::Array(None))));
    assert_eq!(empty_array, Ok(Some(RedisData::Array(Some(Vec::new())))));
    assert_ne!(null_array, empty_array);
}

#[test]
fn decodes_array_of_bulk_strings() {
    let r = decode_all_of(b"*2\r\n$3\r\nfoo\r\n$3\r\nbar\r\n");
    assert_eq!(
        r,
        Ok(Some(RedisData::Array(Some(vec![
            RedisData::BulkString(Some(b"foo".to_vec())),
            RedisData::BulkString(Some(b"bar".to_vec())),
        ]))))
    );
}

#[test]
fn decodes_nested_arrays() {
    let r = decode_all_of(b"*2\r\n*1\r\n:7\r\n$2\r\nhi\r\n");
    assert_eq!(
        r,
        Ok(Some(RedisData::Array(Some(vec![
            RedisData::Array(Some(vec![RedisData::Integer(7)])),
            RedisData::BulkString(Some(b"hi".to_vec())),
        ]))))
    );
}

#[test]
fn bulk_string_payload_may_hold_crlf() {
    let r = decode_all_of(b"$4\r\na\r\nb\r\n");
    assert_eq!(r, Ok(Some(RedisData::BulkString(Some(b"a\r\nb".to_vec())))));
}

#[test]
fn fragmented_bulk_string_decodes_once_complete() {
    let frame = b"$10\r\nhello\r\nwld\r\n";
    let mut d = Decoder::new();
    for i in 0..frame.len() {
        if i + 1 < frame.len() {
            d.feed(&frame[i..i + 1]);
            assert_eq!(d.decode(), Ok(None));
        } else {
            d.feed(&frame[i..i + 1]);
        }
    }
    assert_eq!(
        d.decode(),
        Ok(Some(RedisData::BulkString(Some(b"hello\r\nwld".to_vec()))))
    );
}

#[test]
fn incomplete_decode_consumes_nothing() {
    let mut d = Decoder::new();
    d.feed(b"*2\r\n$3\r\nfo");
    assert_eq!(d.decode(), Ok(None));
    assert_eq!(d.decode(), Ok(None));
    d.feed(b"o\r\n$3\r\nbar\r\n");
    assert_eq!(
        d.decode(),
        Ok(Some(RedisData::Array(Some(vec![
            RedisData::BulkString(Some(b"foo".to_vec())),
            RedisData::BulkString(Some(b"bar".to_vec())),
        ]))))
    );
}

#[test]
fn consecutive_frames_on_one_stream() {
    let mut d = Decoder::new();
    d.feed(b"+OK\r\n:5\r\n");
    assert_eq!(d.decode(), Ok(Some(RedisData::SimpleString(b"OK".to_vec()))));
    assert_eq!(d.decode(), Ok(Some(RedisData::Integer(5))));
    assert_eq!(d.decode(), Ok(None));
}

#[test]
fn non_numeric_bulk_length_is_bad_bulk_string() {
    assert_eq!(decode_all_of(b"$abc\r\n"), Err(Error::BadBulkString));
}

#[test]
fn unknown_prefix_is_invalid_prefix() {
    assert_eq!(decode_all_of(b"X\r\n"), Err(Error::InvalidPrefix));
}

#[test]
fn negative_bulk_length_other_than_null_is_rejected() {
    assert_eq!(decode_all_of(b"$-2\r\n"), Err(Error::BadBulkString));
}

#[test]
fn negative_array_count_other_than_null_is_rejected() {
    assert_eq!(decode_all_of(b"*-2\r\n"), Err(Error::BadArray));
}

#[test]
fn non_numeric_array_count_is_bad_array() {
    assert_eq!(decode_all_of(b"*abc\r\n"), Err(Error::BadArray));
}

#[test]
fn stray_line_break_in_simple_string_is_rejected() {
    assert_eq!(decode_all_of(b"+ab\ncd\r\n"), Err(Error::BadSimpleString));
    assert_eq!(decode_all_of(b"+ab\rcd\r\n"), Err(Error::BadSimpleString));
}

#[test]
fn missing_bulk_terminator_is_rejected() {
    assert_eq!(decode_all_of(b"$3\r\nfooXY"), Err(Error::BadBulkString));
}

#[test]
fn nesting_beyond_the_depth_cap_is_rejected() {
    let mut bytes: Vec<u8> = Vec::new();
    for _ in 0..65 {
        bytes.extend_from_slice(b"*1\r\n");
    }
    bytes.extend_from_slice(b":1\r\n");
    assert_eq!(decode_all_of(&bytes), Err(Error::DepthExceeded));
}

#[test]
fn nesting_at_the_depth_cap_decodes() {
    let mut bytes: Vec<u8> = Vec::new();
    for _ in 0..64 {
        bytes.extend_from_slice(b"*1\r\n");
    }
    bytes.extend_from_slice(b":1\r\n");
    let mut expected = RedisData::Integer(1);
    for _ in 0..64 {
        expected = RedisData::Array(Some(vec![expected]));
    }
    assert_eq!(decode_all_of(&bytes), Ok(Some(expected)));
}

#[test]
fn set_command_round_trips_through_decoder() {
    let mut writer: Vec<u8> = Vec::new();
    send(&mut writer, Command::SetCmd("abc".to_string(), "123".to_string()));
    let r = decode_all_of(&writer);
    assert_eq!(
        r,
        Ok(Some(RedisData::Array(Some(vec![
            RedisData::BulkString(Some(b"SET".to_vec())),
            RedisData::BulkString(Some(b"abc".to_vec())),
            RedisData::BulkString(Some(b"123".to_vec())),
        ]))))
    );
}

#[test]
fn binary_arguments_round_trip_through_decoder() {
    let payload: Vec<u8> = vec![0, 13, 10, 255, 13, 10, 1];
    let args: Vec<Vec<u8>> = vec![payload.clone(), Vec::new()];
    let frame = encode(b"BLOB", &args);
    let r = decode_all_of(&frame);
    assert_eq!(
        r,
        Ok(Some(RedisData::Array(Some(vec![
            RedisData::BulkString(Some(b"BLOB".to_vec())),
            RedisData::BulkString(Some(payload)),
            RedisData::BulkString(Some(Vec::new())),
        ]))))
    );
}
