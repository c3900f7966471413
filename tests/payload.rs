use redis_server::client::get_empty_rdb;
use redis_server::{
    Command, ContentError, Payload, PayloadVec, ProtocolError, RedisEncodable, Value, DELIMITER,
};

#[test]
fn test_from_simple_string() {
    let input = format!("+OK{}", DELIMITER);
    let result = Payload::from_simple_string(&input);
    assert!(result.is_ok());
    let (payload, length) = result.unwrap();
    assert_eq!(payload, Payload::SimpleString("OK".to_string()));
    assert_eq!(length, 5);
}

#[test]
fn test_from_bulk_string() {
    let input = format!("$4{}PING{}", DELIMITER, DELIMITER);
    let result = Payload::from_bulk_string(&input);
    assert!(result.is_ok());
    let (payload, consumed) = result.unwrap();
    assert_eq!(payload, Payload::BulkString("PING".to_string()));
    assert_eq!(consumed, 10);
}

#[test]
fn test_bulk_string_correct_length() {
    let input = format!("$4{}PING{}", DELIMITER, DELIMITER);
    let result = Payload::from_bulk_string(&input);
    assert!(result.is_ok());
    let (payload, consumed) = result.unwrap();
    assert_eq!(payload, Payload::BulkString("PING".to_string()));
    assert_eq!(consumed, 10);
}

#[test]
fn test_array_with_multiple_elements() {
    let input = format!(
        "*2{delim}$4{delim}ECHO{delim}$5{delim}mykey{delim}",
        delim = DELIMITER
    );
    let result = Payload::from_array(&input);
    println!("result is {:?}", result);
    assert!(result.is_ok());
    let (payload, consumed) = result.unwrap();
    match payload {
        Payload::Array(elements) => {
            assert_eq!(elements.len(), 2);
            assert_eq!(elements[0], Payload::BulkString("ECHO".to_string()));
            assert_eq!(elements[1], Payload::BulkString("mykey".to_string()));
        }
        _ => panic!("Expected Payload::Array"),
    }
    assert_eq!(consumed, 25);
}

#[test]
fn encode_then_decode_gives_the_payload_back() {
    let p = Payload::Array(vec![
        Payload::BulkString("SET".to_string()),
        Payload::SimpleString("status".to_string()),
        Payload::Array(vec![Payload::BulkString("nested value".to_string())]),
        Payload::BulkString(String::new()),
    ]);
    let bytes = p.to_bytes();
    assert_eq!(
        bytes,
        b"*4\r\n$3\r\nSET\r\n+status\r\n*1\r\n$12\r\nnested value\r\n$0\r\n\r\n".to_vec()
    );
    let (q, used) = Payload::decode_at(&bytes, 0).unwrap();
    assert_eq!(q, p);
    assert_eq!(used, bytes.len());
}

#[test]
fn decode_leaves_what_follows_the_frame() {
    let bytes = b"$3\r\nfoo\r\n+OK\r\n";
    let (p, used) = Payload::decode_at(bytes, 0).unwrap();
    assert_eq!(p, Payload::BulkString("foo".to_string()));
    assert_eq!(used, 9);
    let (q, used2) = Payload::decode_at(bytes, used).unwrap();
    assert_eq!(q, Payload::SimpleString("OK".to_string()));
    assert_eq!(used2, 5);
}

#[test]
fn bulk_length_counts_bytes_of_multibyte_text() {
    let p = Payload::BulkString("h\u{e9}llo".to_string());
    let bytes = p.to_bytes();
    assert_eq!(&bytes[..4], b"$6\r\n");
    let (q, used) = Payload::decode_at(&bytes, 0).unwrap();
    assert_eq!(q, p);
    assert_eq!(used, 12);
}

#[test]
fn long_bulk_string_has_a_two_digit_length() {
    let text = "abcdefghijkl";
    let encoded = Payload::BulkString(text.to_string()).redis_encode();
    assert_eq!(encoded, "$12\r\nabcdefghijkl\r\n");
}

#[test]
fn truncated_bulk_string_is_incomplete() {
    assert_eq!(
        Payload::decode_at(b"$4\r\nPI", 0),
        Err(ProtocolError::Incomplete)
    );
    assert_eq!(Payload::decode_at(b"+OK", 0), Err(ProtocolError::Incomplete));
    assert_eq!(Payload::decode_at(b"", 0), Err(ProtocolError::Incomplete));
}

#[test]
fn non_decimal_length_is_refused() {
    assert_eq!(
        Payload::decode_at(b"$x\r\nab\r\n", 0),
        Err(ProtocolError::BadLength)
    );
    assert_eq!(
        Payload::decode_at(b"*\r\n", 0),
        Err(ProtocolError::BadLength)
    );
}

#[test]
fn bulk_body_without_crlf_is_refused() {
    assert_eq!(
        Payload::decode_at(b"$4\r\nPINGxx", 0),
        Err(ProtocolError::MissingTerminator)
    );
}

#[test]
fn unknown_type_byte_is_refused() {
    assert_eq!(
        Payload::decode_at(b":12\r\n", 0),
        Err(ProtocolError::UnknownType)
    );
    assert_eq!(
        Payload::from_byte(b'+', "$3\r\nfoo\r\n"),
        Err(ProtocolError::UnknownType)
    );
    assert_eq!(
        Payload::from_char('\u{e9}', "+OK\r\n"),
        Err(ProtocolError::UnknownType)
    );
}

#[test]
fn text_that_is_not_utf8_is_refused() {
    assert_eq!(
        Payload::decode_at(b"$1\r\n\xff\r\n", 0),
        Err(ProtocolError::InvalidText)
    );
    assert_eq!(
        Payload::decode_at(b"+\xfe\r\n", 0),
        Err(ProtocolError::InvalidText)
    );
}

#[test]
fn snapshot_blob_has_no_trailing_crlf() {
    let blob = get_empty_rdb();
    assert_eq!(&blob[..5], b"$88\r\n");
    assert_eq!(blob.len(), 93);
    let (p, used) = Payload::from_rdb(&blob).unwrap();
    assert_eq!(used, 93);
    match p {
        Payload::RdbFile(bytes) => {
            assert_eq!(bytes.len(), 88);
            assert_eq!(&bytes[..9], b"REDIS0011");
        }
        _ => panic!("expected a snapshot"),
    }
    assert_eq!(Payload::RdbFile(vec![1, 2, 3]).to_bytes(), b"$3\r\n\x01\x02\x03".to_vec());
    assert_eq!(Payload::RdbFile(vec![0xff]).redis_encode(), "");
}

#[test]
fn bulk_string_array_holds_each_string() {
    let p = Payload::build_bulk_string_array(vec!["SET", "key", "value"]);
    assert_eq!(
        p.redis_encode(),
        "*3\r\n$3\r\nSET\r\n$3\r\nkey\r\n$5\r\nvalue\r\n"
    );
}

#[test]
fn payload_vec_joins_with_commas() {
    let v = PayloadVec(vec![
        Payload::BulkString("a".to_string()),
        Payload::SimpleString("b".to_string()),
    ]);
    assert_eq!(v.redis_encode(), "$1\r\na\r\n, +b\r\n");
    assert_eq!(PayloadVec(vec![]).redis_encode(), "");
}

#[test]
fn commands_are_recognised_in_any_case() {
    for name in ["ping", "PING", "PiNg"] {
        assert_eq!(Command::parse(name), Some(Command::Ping));
    }
    assert_eq!(Command::parse("rEpLcOnF"), Some(Command::ReplConf));
    assert_eq!(Command::parse("xadd"), Some(Command::XAdd));
    assert_eq!(Command::parse("notacommand"), None);
    assert_eq!(Command::parse("pin"), None);
    assert_eq!(Command::SetValue.to_string(), "SET");
    assert_eq!(Command::PSync.to_string(), "PSYNC");
}

#[test]
fn is_command_needs_a_bulk_string_naming_a_command() {
    assert!(Payload::BulkString("get".to_string()).is_command());
    assert!(!Payload::SimpleString("GET".to_string()).is_command());
    assert!(!Payload::BulkString("key".to_string()).is_command());
}

#[test]
fn retrieve_content_splits_command_and_arguments() {
    let p = Payload::build_bulk_string_array(vec!["get", "key"]);
    let (c, v) = p.retrieve_content().unwrap();
    assert_eq!(c, Some(Command::Get));
    match v {
        Value::Array(x) => assert_eq!(x, vec![Payload::BulkString("key".to_string())]),
        other => panic!("unexpected {:?}", other),
    }
    let (c, v) = Payload::BulkString("PING".to_string()).retrieve_content().unwrap();
    assert_eq!(c, Some(Command::Ping));
    assert!(matches!(v, Value::Empty));
    let (c, v) = Payload::BulkString("hello".to_string()).retrieve_content().unwrap();
    assert_eq!(c, None);
    assert!(matches!(v, Value::String(s) if s == "hello"));
    let (c, v) = Payload::build_bulk_string_array(vec!["foo", "bar"]).retrieve_content().unwrap();
    assert_eq!(c, None);
    assert!(matches!(v, Value::Array(x) if x.len() == 2));
}

#[test]
fn retrieve_content_refuses_other_payloads() {
    let r = Payload::SimpleString("OK".to_string()).retrieve_content();
    assert_eq!(r.err(), Some(ContentError::UnsupportedPayload));
    let r = Payload::Array(vec![Payload::SimpleString("GET".to_string())]).retrieve_content();
    assert_eq!(r.err(), Some(ContentError::NoLeadingBulkString));
    let r = Payload::Array(vec![]).retrieve_content();
    assert_eq!(r.err(), Some(ContentError::NoLeadingBulkString));
}
