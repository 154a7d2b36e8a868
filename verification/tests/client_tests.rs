use hello_redis::Error;
use hello_redis::RedisData;
use hello_redis::RedisKey;
use hello_redis::RespPrefix;
use hello_redis::check_error;
use hello_redis::client::check_get_reply;
use hello_redis::client::check_ping_reply;
use hello_redis::client::check_set_reply;

#[test]
fn check_error_empty_buffer() {
    assert_eq!(check_error(b"", b'+'), Err(Error::UnknownError));
}

#[test]
fn check_error_surfaces_server_error() {
    assert_eq!(
        check_error(b"-oops", b'+'),
        Err(Error::ServerError(b"oops".to_vec()))
    );
}

#[test]
fn check_error_accepts_expected_prefix() {
    assert_eq!(check_error(b"+OK", b'+'), Ok(()));
}

#[test]
fn check_error_rejects_unexpected_prefix() {
    assert_eq!(check_error(b":1", b'+'), Err(Error::UnknownError));
}

#[test]
fn ping_reply_pong_is_success() {
    assert_eq!(
        check_ping_reply(RedisData::SimpleString(b"PONG".to_vec())),
        Ok(())
    );
}

#[test]
fn ping_reply_other_text_is_unknown() {
    assert_eq!(
        check_ping_reply(RedisData::SimpleString(b"NOPE".to_vec())),
        Err(Error::UnknownError)
    );
    assert_eq!(
        check_ping_reply(RedisData::Integer(1)),
        Err(Error::UnknownError)
    );
}

#[test]
fn ping_reply_server_error_is_surfaced() {
    assert_eq!(
        check_ping_reply(RedisData::Error(b"ERR down".to_vec())),
        Err(Error::ServerError(b"ERR down".to_vec()))
    );
}

#[test]
fn set_reply_ok_is_success() {
    assert_eq!(check_set_reply(RedisData::SimpleString(b"OK".to_vec())), Ok(()));
    assert_eq!(
        check_set_reply(RedisData::SimpleString(b"NO".to_vec())),
        Err(Error::UnknownError)
    );
}

#[test]
fn get_reply_value_and_null() {
    assert_eq!(
        check_get_reply(RedisData::BulkString(Some(b"123".to_vec()))),
        Ok(Some(b"123".to_vec()))
    );
    assert_eq!(check_get_reply(RedisData::BulkString(None)), Ok(None));
    assert_eq!(
        check_get_reply(RedisData::SimpleString(b"OK".to_vec())),
        Err(Error::UnknownError)
    );
    assert_eq!(
        check_get_reply(RedisData::Error(b"ERR bad".to_vec())),
        Err(Error::ServerError(b"ERR bad".to_vec()))
    );
}

#[test]
fn prefix_byte_and_char_forms_agree() {
    let cases = [
        (RespPrefix::SimpleString, b'+', '+'),
        (RespPrefix::Error, b'-', '-'),
        (RespPrefix::Integer, b':', ':'),
        (RespPrefix::BulkString, b'$', '$'),
        (RespPrefix::Array, b'*', '*'),
    ];
    for (p, b, c) in cases {
        assert_eq!(p.byte_repr(), b);
        assert_eq!(p.char_repr(), c);
    }
}

#[test]
fn prefix_from_byte() {
    assert_eq!(RespPrefix::try_from_byte(b'*'), Ok(RespPrefix::Array));
    assert_eq!(RespPrefix::try_from_byte(b'+'), Ok(RespPrefix::SimpleString));
    assert_eq!(RespPrefix::try_from_byte(b'X'), Err(Error::InvalidPrefix));
}

#[test]
fn redis_key_holds_bytes() {
    let k = RedisKey::from_bytes(vec![1, 2, 3]);
    assert_eq!(k.bytes(), &vec![1, 2, 3]);
    let t = RedisKey::from_text("abc");
    assert_eq!(t.bytes(), &b"abc".to_vec());
}
