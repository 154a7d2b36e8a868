use hello_redis::Command;
use hello_redis::encode;
use hello_redis::resp_array;
use hello_redis::resp_bulk_string;
use hello_redis::send;
use hello_redis::write_number;

#[test]
fn lib_set_test() {
    let mut writer: Vec<u8> = Vec::new();
    send(&mut writer, Command::SetCmd("abc".to_string(), "123".to_string()));
    let result_string = String::from_utf8(writer).unwrap();
    assert_eq!(result_string, "*3\r\n$3\r\nSET\r\n$3\r\nabc\r\n$3\r\n123\r\n");
    println!("{}", result_string);
}

#[test]
fn resp_set_test() {
    let mut writer: Vec<u8> = Vec::new();
    send(&mut writer, Command::SetCmd("abc".to_string(), "123".to_string()));
    let result_string = String::from_utf8(writer).unwrap();
    assert_eq!(result_string, "*3\r\n$3\r\nSET\r\n$3\r\nabc\r\n$3\r\n123\r\n");
    println!("{}", result_string);
}

#[test]
fn ping_encodes_as_one_element_array() {
    let mut writer: Vec<u8> = Vec::new();
    send(&mut writer, Command::Ping);
    assert_eq!(writer, b"*1\r\n$4\r\nPING\r\n".to_vec());
}

#[test]
fn get_encodes_as_two_element_array() {
    let mut writer: Vec<u8> = Vec::new();
    send(&mut writer, Command::Get("abc".to_string()));
    assert_eq!(writer, b"*2\r\n$3\r\nGET\r\n$3\r\nabc\r\n".to_vec());
}

#[test]
fn general_encoder_matches_set_frame() {
    let args: Vec<Vec<u8>> = vec![b"abc".to_vec(), b"123".to_vec()];
    let out = encode(b"SET", &args);
    assert_eq!(out, b"*3\r\n$3\r\nSET\r\n$3\r\nabc\r\n$3\r\n123\r\n".to_vec());
}

#[test]
fn general_encoder_zero_arguments() {
    let args: Vec<Vec<u8>> = Vec::new();
    let out = encode(b"PING", &args);
    assert_eq!(out, b"*1\r\n$4\r\nPING\r\n".to_vec());
}

#[test]
fn bulk_string_is_binary_safe() {
    let mut writer: Vec<u8> = Vec::new();
    resp_bulk_string(&mut writer, b"a\r\nb");
    assert_eq!(writer, b"$4\r\na\r\nb\r\n".to_vec());
}

#[test]
fn bulk_string_empty_payload() {
    let mut writer: Vec<u8> = Vec::new();
    resp_bulk_string(&mut writer, b"");
    assert_eq!(writer, b"$0\r\n\r\n".to_vec());
}

#[test]
fn array_header_bytes() {
    let mut writer: Vec<u8> = Vec::new();
    resp_array(&mut writer, 13);
    assert_eq!(writer, b"*13\r\n".to_vec());
}

#[test]
fn write_number_zero_and_max() {
    let mut writer: Vec<u8> = Vec::new();
    write_number(&mut writer, 0);
    assert_eq!(writer, b"0".to_vec());
    let mut writer2: Vec<u8> = Vec::new();
    write_number(&mut writer2, 4294967295);
    assert_eq!(writer2, b"4294967295".to_vec());
}
