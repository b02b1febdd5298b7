use redisrs::server::connection::{next_action, Action};
use redisrs::server::protocol::{ProtocolError, RespParser, RespValue};

fn bulk(s: &str) -> RespValue {
    RespValue::BulkString(Some(s.to_string()))
}

#[test]
fn test_simple_string() {
    let mut parser = RespParser::new();
    parser.append(b"+OK\r\n");
    let result = parser.parse().unwrap().unwrap();
    assert_eq!(result, RespValue::SimpleString("OK".to_string()));
}

#[test]
fn test_integer() {
    let mut parser = RespParser::new();
    parser.append(b":1000\r\n");
    let result = parser.parse().unwrap().unwrap();
    assert_eq!(result, RespValue::Integer(1000));
}

#[test]
fn test_bulk_string() {
    let mut parser = RespParser::new();
    parser.append(b"$6\r\nfoobar\r\n");
    let result = parser.parse().unwrap().unwrap();
    assert_eq!(result, RespValue::BulkString(Some("foobar".to_string())));
}

#[test]
fn test_array() {
    let mut parser = RespParser::new();
    parser.append(b"*2\r\n$3\r\nfoo\r\n$3\r\nbar\r\n");
    let result = parser.parse().unwrap().unwrap();
    assert_eq!(
        result,
        RespValue::Array(vec![
            RespValue::BulkString(Some("foo".to_string())),
            RespValue::BulkString(Some("bar".to_string())),
        ])
    );
}

#[test]
fn test_command() {
    let mut parser = RespParser::new();
    parser.append(b"*3\r\n$3\r\nSET\r\n$3\r\nfoo\r\n$3\r\nbar\r\n");
    let result = parser.parse().unwrap().unwrap();
    assert_eq!(
        result,
        RespValue::Array(vec![
            RespValue::BulkString(Some("SET".to_string())),
            RespValue::BulkString(Some("foo".to_string())),
            RespValue::BulkString(Some("bar".to_string())),
        ])
    );
}

#[test]
fn test_multiple_commands() {
    let mut parser = RespParser::new();
    // Two commands: SET and GET
    parser.append(b"*3\r\n$3\r\nSET\r\n$3\r\nfoo\r\n$3\r\nbar\r\n*2\r\n$3\r\nGET\r\n$3\r\nfoo\r\n");

    // Parse first command
    let result1 = parser.parse().unwrap().unwrap();
    assert_eq!(
        result1,
        RespValue::Array(vec![
            RespValue::BulkString(Some("SET".to_string())),
            RespValue::BulkString(Some("foo".to_string())),
            RespValue::BulkString(Some("bar".to_string())),
        ])
    );

    // Reset and parse second command
    parser.reset();
    let result2 = parser.parse().unwrap().unwrap();
    assert_eq!(
        result2,
        RespValue::Array(vec![
            RespValue::BulkString(Some("GET".to_string())),
            RespValue::BulkString(Some("foo".to_string())),
        ])
    );
}

#[test]
fn test_lpush_format() {
    let mut parser = RespParser::new();
    // LPUSH mylist a b - note: $6 for mylist (6 chars)
    parser.append(b"*4\r\n$5\r\nLPUSH\r\n$6\r\nmylist\r\n$1\r\na\r\n$1\r\nb\r\n");

    let result = parser.parse().unwrap().unwrap();

    assert_eq!(
        result,
        RespValue::Array(vec![
            RespValue::BulkString(Some("LPUSH".to_string())),
            RespValue::BulkString(Some("mylist".to_string())),
            RespValue::BulkString(Some("a".to_string())),
            RespValue::BulkString(Some("b".to_string())),
        ])
    );
}

#[test]
fn parse_error_value_and_negative_integer() {
    let mut parser = RespParser::new();
    parser.append(b"-ERR boom\r\n:-42\r\n");
    assert_eq!(parser.parse().unwrap().unwrap(), RespValue::Error("ERR boom".to_string()));
    assert_eq!(parser.position, 11);
    assert_eq!(parser.parse().unwrap().unwrap(), RespValue::Integer(-42));
    assert_eq!(parser.position, 17);
}

#[test]
fn parse_nulls_and_empty_bulk() {
    let mut parser = RespParser::new();
    parser.append(b"$-1\r\n*-1\r\n$0\r\n\r\n");
    assert_eq!(parser.parse().unwrap().unwrap(), RespValue::BulkString(None));
    assert_eq!(parser.parse().unwrap().unwrap(), RespValue::Null);
    assert_eq!(parser.parse().unwrap().unwrap(), bulk(""));
    assert_eq!(parser.parse().unwrap(), None);
}

#[test]
fn parse_unknown_type_byte() {
    let mut parser = RespParser::new();
    parser.append(b"?x\r\n");
    match parser.parse() {
        Err(ProtocolError::Invalid(m)) => assert_eq!(m, "Unknown type byte: 63 ('?')"),
        other => panic!("unexpected {:?}", other),
    }
    assert_eq!(parser.position, 0);
}

#[test]
fn parse_missing_line_end_waits_for_more() {
    let mut parser = RespParser::new();
    parser.append(b"+OK");
    assert_eq!(parser.parse().unwrap(), None);
    assert_eq!(parser.position, 0);
    parser.append(b"\r\n");
    assert_eq!(parser.parse().unwrap().unwrap(), RespValue::SimpleString("OK".to_string()));
}

#[test]
fn parse_invalid_integer_messages() {
    let mut parser = RespParser::new();
    parser.append(b":12a\r\n");
    match parser.parse() {
        Err(ProtocolError::Invalid(m)) => assert_eq!(m, "Invalid integer: invalid digit found in string"),
        other => panic!("unexpected {:?}", other),
    }
    let mut parser = RespParser::new();
    parser.append(b":\r\n");
    match parser.parse() {
        Err(ProtocolError::Invalid(m)) => {
            assert_eq!(m, "Invalid integer: cannot parse integer from empty string")
        }
        other => panic!("unexpected {:?}", other),
    }
    let mut parser = RespParser::new();
    parser.append(b":99999999999999999999\r\n");
    match parser.parse() {
        Err(ProtocolError::Invalid(m)) => {
            assert_eq!(m, "Invalid integer: number too large to fit in target type")
        }
        other => panic!("unexpected {:?}", other),
    }
    let mut parser = RespParser::new();
    parser.append(b"$x\r\n");
    match parser.parse() {
        Err(ProtocolError::Invalid(m)) => {
            assert_eq!(m, "Invalid bulk string length: invalid digit found in string")
        }
        other => panic!("unexpected {:?}", other),
    }
    let mut parser = RespParser::new();
    parser.append(b"*-\r\n");
    match parser.parse() {
        Err(ProtocolError::Invalid(m)) => {
            assert_eq!(m, "Invalid array count: invalid digit found in string")
        }
        other => panic!("unexpected {:?}", other),
    }
}

#[test]
fn parse_partial_bulk_then_complete() {
    let mut parser = RespParser::new();
    parser.append(b"$6\r\nfoo");
    assert_eq!(parser.parse().unwrap(), None);
    // the parser stays at the start of the value
    assert_eq!(parser.position, 0);
    parser.append(b"bar\r\n");
    assert_eq!(parser.parse().unwrap().unwrap(), bulk("foobar"));
}

#[test]
fn parse_invalid_utf8_bulk() {
    let mut parser = RespParser::new();
    parser.append(b"$2\r\n\xff\xfe\r\n");
    match parser.parse() {
        Err(ProtocolError::Invalid(_)) => {}
        other => panic!("unexpected {:?}", other),
    }
}

#[test]
fn parse_nested_array() {
    let mut parser = RespParser::new();
    parser.append(b"*2\r\n*1\r\n:1\r\n+x\r\n");
    assert_eq!(
        parser.parse().unwrap().unwrap(),
        RespValue::Array(vec![
            RespValue::Array(vec![RespValue::Integer(1)]),
            RespValue::SimpleString("x".to_string()),
        ])
    );
}

#[test]
fn try_parse_reports_negative_lengths() {
    let mut parser = RespParser::new();
    parser.append(b"$-2\r\nab\r\n");
    assert!(parser.try_parse().is_none());
    let mut parser = RespParser::new();
    parser.append(b"*-2\r\n");
    assert!(parser.try_parse().is_none());
    let mut parser = RespParser::new();
    parser.append(b"$-100\r\n");
    assert_eq!(parser.try_parse().unwrap().unwrap(), None);
    let mut parser = RespParser::new();
    parser.append(b"+OK\r\n");
    assert_eq!(parser.try_parse().unwrap().unwrap().unwrap(), RespValue::SimpleString("OK".to_string()));
}

#[test]
fn reset_drops_consumed_bytes() {
    let mut parser = RespParser::new();
    parser.append(b"+A\r\n+B\r\n");
    parser.parse().unwrap().unwrap();
    parser.reset();
    assert_eq!(parser.buffer, b"+B\r\n".to_vec());
    assert_eq!(parser.position, 0);
    parser.reset();
    assert_eq!(parser.buffer, b"+B\r\n".to_vec());
}

#[test]
fn parser_default_is_empty() {
    let parser = RespParser::default();
    assert!(parser.buffer.is_empty());
    assert_eq!(parser.position, 0);
}

#[test]
fn to_resp_of_each_kind() {
    assert_eq!(RespValue::ok().to_resp(), "+OK\r\n");
    assert_eq!(RespValue::simple_string("PONG").to_resp(), "+PONG\r\n");
    assert_eq!(RespValue::error("bad").to_resp(), "-ERR bad\r\n");
    assert_eq!(RespValue::Integer(-12).to_resp(), ":-12\r\n");
    assert_eq!(RespValue::Integer(i64::MIN).to_resp(), ":-9223372036854775808\r\n");
    assert_eq!(RespValue::bulk_string(Some("héllo".to_string())).to_resp(), "$6\r\nhéllo\r\n");
    assert_eq!(RespValue::bulk_string(None).to_resp(), "$-1\r\n");
    assert_eq!(RespValue::Null.to_resp(), "*-1\r\n");
    assert_eq!(
        RespValue::Array(vec![bulk("a"), RespValue::Integer(0), RespValue::Array(vec![])]).to_resp(),
        "*3\r\n$1\r\na\r\n:0\r\n*0\r\n"
    );
}

#[test]
fn parse_reads_back_what_to_resp_writes() {
    let v = RespValue::Array(vec![
        bulk("SET"),
        bulk("ключ"),
        RespValue::Integer(7),
        RespValue::BulkString(None),
        RespValue::SimpleString("OK".to_string()),
        RespValue::Null,
    ]);
    let mut parser = RespParser::new();
    parser.append(v.to_resp().as_bytes());
    assert_eq!(parser.parse().unwrap().unwrap(), v);
    assert_eq!(parser.position, parser.buffer.len());
}

#[test]
fn clone_keeps_the_value() {
    let v = RespValue::Array(vec![bulk("a"), RespValue::Array(vec![RespValue::Integer(3)])]);
    assert_eq!(v.clone(), v);
    assert_eq!(v.deep_clone(), v);
}

#[test]
fn parse_reads_back_between_other_bytes() {
    let v = RespValue::Array(vec![bulk("a\r\nb"), RespValue::SimpleString("x\ry".to_string())]);
    let mut parser = RespParser::new();
    parser.append(b"+first\r\n");
    parser.append(v.to_resp().as_bytes());
    parser.append(b":1\r\n");
    assert_eq!(parser.parse().unwrap().unwrap(), RespValue::SimpleString("first".to_string()));
    assert_eq!(parser.parse().unwrap().unwrap(), v);
    assert_eq!(parser.parse().unwrap().unwrap(), RespValue::Integer(1));
}

#[test]
fn error_reply_reads_back_with_its_prefix() {
    let mut parser = RespParser::new();
    parser.append(RespValue::error("bad").to_resp().as_bytes());
    assert_eq!(parser.parse().unwrap().unwrap(), RespValue::Error("ERR bad".to_string()));
}

#[test]
fn simple_string_with_line_end_reads_back_cut() {
    let mut parser = RespParser::new();
    parser.append(RespValue::simple_string("a\r\nb").to_resp().as_bytes());
    assert_eq!(parser.parse().unwrap().unwrap(), RespValue::SimpleString("a".to_string()));
    assert_eq!(parser.position, 4);
}

#[test]
fn reset_keeps_what_parse_gives_next() {
    let mut parser = RespParser::new();
    parser.append(b"+A\r\n$5\r\nhel");
    parser.parse().unwrap().unwrap();
    let mut kept = RespParser::new();
    kept.append(&parser.buffer);
    kept.position = parser.position;
    assert_eq!(kept.parse().unwrap(), None);
    assert_eq!(kept.position, 4);
    parser.reset();
    assert_eq!(parser.parse().unwrap(), None);
    assert_eq!(parser.position, 0);
}

#[test]
fn reset_changes_outcome_only_where_parser_would_panic() {
    let mut parser = RespParser::new();
    parser.append(b"+A\r\n$-8\r\n");
    parser.parse().unwrap().unwrap();
    let mut kept = RespParser::new();
    kept.append(&parser.buffer);
    kept.position = parser.position;
    assert!(kept.try_parse().is_none());
    parser.reset();
    assert_eq!(parser.try_parse().unwrap().unwrap(), None);
}

#[test]
fn next_action_steps_through_received_bytes() {
    let mut parser = RespParser::new();
    parser.append(b"*1\r\n$4\r\nPING\r\n+x");
    match next_action(&mut parser) {
        Action::Run(v) => assert_eq!(v, RespValue::Array(vec![bulk("PING")])),
        _ => panic!("expected a request"),
    }
    assert_eq!(parser.buffer, b"+x".to_vec());
    assert_eq!(parser.position, 0);
    assert!(matches!(next_action(&mut parser), Action::Read));
    assert_eq!(parser.position, 0);
    parser.append(b"\r\n");
    match next_action(&mut parser) {
        Action::Run(v) => assert_eq!(v, RespValue::SimpleString("x".to_string())),
        _ => panic!("expected a request"),
    }
    let mut parser = RespParser::new();
    parser.append(b"?\r\n");
    match next_action(&mut parser) {
        Action::Fail(e) => assert!(matches!(e, ProtocolError::Invalid(_))),
        _ => panic!("expected an error"),
    }

    let mut parser = RespParser::new();
    parser.append(b"$5\r\nab");
    assert!(matches!(next_action(&mut parser), Action::Read));
    assert_eq!(parser.buffer, b"$5\r\nab".to_vec());

    let mut parser = RespParser::new();
    parser.append(b"*-2\r\n");
    assert!(matches!(next_action(&mut parser), Action::Abort));
}

#[test]
fn request_split_across_reads_is_parsed_whole() {
    let v = RespValue::Array(vec![bulk("SET"), bulk("key"), bulk("value")]);
    let bytes = v.to_resp().into_bytes();
    for cut in 0..bytes.len() {
        let mut parser = RespParser::new();
        parser.append(&bytes[..cut]);
        assert!(matches!(next_action(&mut parser), Action::Read));
        assert_eq!(parser.position, 0);
        parser.append(&bytes[cut..]);
        match next_action(&mut parser) {
            Action::Run(got) => assert_eq!(got, v),
            _ => panic!("expected the request at cut {}", cut),
        }
    }
}
