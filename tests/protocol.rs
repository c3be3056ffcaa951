use dashdata::command::{busy_reply, handle_command, Command};
use dashdata::resp::{ParseError, RespValue};
use dashdata::session::{next_command, Step};
use dashdata::store::Store;

/// Runs every whole command in `buffer` against `store`, as a connection
/// does, and gives the replies written and whether the connection closed.
fn drain(buffer: &mut Vec<u8>, store: &mut Store) -> (Vec<u8>, bool) {
    let mut out = Vec::new();
    loop {
        match next_command(buffer) {
            Step::Run(cmd) => out.extend(cmd.apply(store).serialize()),
            Step::NeedMore => return (out, false),
            Step::Close => return (out, true),
        }
    }
}

fn bulk(b: &[u8]) -> RespValue {
    RespValue::BulkString(Some(b.to_vec()))
}

#[test]
fn serialize_each_kind() {
    assert_eq!(RespValue::SimpleString("OK".to_string()).serialize(), b"+OK\r\n".to_vec());
    assert_eq!(RespValue::Error("bad".to_string()).serialize(), b"-bad\r\n".to_vec());
    assert_eq!(RespValue::Integer(0).serialize(), b":0\r\n".to_vec());
    assert_eq!(RespValue::Integer(-42).serialize(), b":-42\r\n".to_vec());
    assert_eq!(RespValue::Integer(i64::MIN).serialize(), b":-9223372036854775808\r\n".to_vec());
    assert_eq!(RespValue::BulkString(None).serialize(), b"$-1\r\n".to_vec());
    assert_eq!(bulk(b"bar").serialize(), b"$3\r\nbar\r\n".to_vec());
    assert_eq!(bulk(b"").serialize(), b"$0\r\n\r\n".to_vec());
    let arr = RespValue::Array(vec![bulk(b"GET"), RespValue::Integer(12)]);
    assert_eq!(arr.serialize(), b"*2\r\n$3\r\nGET\r\n:12\r\n".to_vec());
}

#[test]
fn serialize_counts_bytes_not_characters() {
    assert_eq!(bulk("é".as_bytes()).serialize(), b"$2\r\n\xc3\xa9\r\n".to_vec());
    assert_eq!(RespValue::SimpleString("é".to_string()).serialize(), b"+\xc3\xa9\r\n".to_vec());
}

#[test]
fn parse_each_kind() {
    assert_eq!(RespValue::parse(b"+OK\r\n"), Ok((RespValue::SimpleString("OK".to_string()), 5)));
    assert_eq!(RespValue::parse(b"-oops\r\nrest"), Ok((RespValue::Error("oops".to_string()), 7)));
    assert_eq!(RespValue::parse(b":-17\r\n"), Ok((RespValue::Integer(-17), 6)));
    assert_eq!(RespValue::parse(b":+5\r\n"), Ok((RespValue::Integer(5), 5)));
    assert_eq!(RespValue::parse(b"$-1\r\n"), Ok((RespValue::BulkString(None), 5)));
    assert_eq!(RespValue::parse(b"$3\r\nbar\r\n"), Ok((bulk(b"bar"), 9)));
    assert_eq!(
        RespValue::parse(b"*2\r\n$3\r\nGET\r\n$3\r\nfoo\r\n"),
        Ok((RespValue::Array(vec![bulk(b"GET"), bulk(b"foo")]), 22))
    );
    assert_eq!(RespValue::parse(b"*0\r\n"), Ok((RespValue::Array(vec![]), 4)));
}

#[test]
fn parse_integer_limits() {
    assert_eq!(
        RespValue::parse(b":9223372036854775807\r\n"),
        Ok((RespValue::Integer(i64::MAX), 22))
    );
    assert_eq!(
        RespValue::parse(b":-9223372036854775808\r\n"),
        Ok((RespValue::Integer(i64::MIN), 23))
    );
    assert_eq!(RespValue::parse(b":9223372036854775808\r\n"), Err(ParseError::Invalid));
    assert_eq!(RespValue::parse(b":12a\r\n"), Err(ParseError::Invalid));
    assert_eq!(RespValue::parse(b":-\r\n"), Err(ParseError::Invalid));
    assert_eq!(RespValue::parse(b":\r\n"), Err(ParseError::Invalid));
}

#[test]
fn parse_short_bulk_is_incomplete() {
    assert_eq!(RespValue::parse(b"$10\r\nabc"), Err(ParseError::Incomplete));
    assert_eq!(RespValue::parse(b"$3\r\nbar"), Err(ParseError::Incomplete));
    assert_eq!(RespValue::parse(b"$3\r\nbar\r"), Err(ParseError::Incomplete));
    assert_eq!(RespValue::parse(b"$3\r\nbar\r\n"), Ok((bulk(b"bar"), 9)));
}

#[test]
fn parse_incomplete_inputs() {
    assert_eq!(RespValue::parse(b""), Err(ParseError::Incomplete));
    assert_eq!(RespValue::parse(b"+OK"), Err(ParseError::Incomplete));
    assert_eq!(RespValue::parse(b"*2\r\n$3\r\nGET\r\n"), Err(ParseError::Incomplete));
}

#[test]
fn parse_invalid_inputs() {
    assert_eq!(RespValue::parse(b"hello\r\n"), Err(ParseError::Invalid));
    assert_eq!(RespValue::parse(b"$-2\r\n"), Err(ParseError::Invalid));
    assert_eq!(RespValue::parse(b"*-1\r\n"), Err(ParseError::Invalid));
    assert_eq!(RespValue::parse(b"$3\r\nbarXY"), Err(ParseError::Invalid));
    assert_eq!(RespValue::parse(b"+\xff\xfe\r\n"), Err(ParseError::Invalid));
    assert_eq!(RespValue::parse(b"*1\r\n!\r\n"), Err(ParseError::Invalid));
}

#[test]
fn parse_text_is_decoded_as_utf8() {
    assert_eq!(
        RespValue::parse(b"+caf\xc3\xa9\r\n"),
        Ok((RespValue::SimpleString("café".to_string()), 8))
    );
}

#[test]
fn parse_rejects_nesting_past_the_cap() {
    let mut deep = Vec::new();
    for _ in 0..33 {
        deep.extend_from_slice(b"*1\r\n");
    }
    deep.extend_from_slice(b":1\r\n");
    assert_eq!(RespValue::parse(&deep), Err(ParseError::Invalid));
    let mut ok = Vec::new();
    for _ in 0..32 {
        ok.extend_from_slice(b"*1\r\n");
    }
    ok.extend_from_slice(b":1\r\n");
    let (_, n) = RespValue::parse(&ok).unwrap();
    assert_eq!(n, ok.len());
}

#[test]
fn serialize_then_parse_gives_back_the_value() {
    let v = RespValue::Array(vec![
        RespValue::SimpleString("hi".to_string()),
        RespValue::Error("err".to_string()),
        RespValue::Integer(-3),
        RespValue::BulkString(None),
        bulk(&[0u8, 13, 10, 255]),
        RespValue::Array(vec![]),
    ]);
    let bytes = v.serialize();
    assert_eq!(RespValue::parse(&bytes), Ok((v, bytes.len())));
}

#[test]
fn verbs_ignore_case_but_keys_do_not() {
    let mut store = Store::new();
    let set = RespValue::Array(vec![bulk(b"sEt"), bulk(b"Key"), bulk(b"V")]);
    assert_eq!(handle_command(set, &mut store), RespValue::SimpleString("OK".to_string()));
    let get_lower = RespValue::Array(vec![bulk(b"get"), bulk(b"key")]);
    assert_eq!(handle_command(get_lower, &mut store), RespValue::BulkString(None));
    let get = RespValue::Array(vec![bulk(b"Get"), bulk(b"Key")]);
    assert_eq!(handle_command(get, &mut store), bulk(b"V"));
}

#[test]
fn command_errors() {
    let mut store = Store::new();
    let e = |s: &str| RespValue::Error(s.to_string());
    assert_eq!(handle_command(RespValue::Integer(1), &mut store), e("invalid command"));
    assert_eq!(handle_command(RespValue::Array(vec![]), &mut store), e("invalid command"));
    assert_eq!(
        handle_command(RespValue::Array(vec![RespValue::Integer(1)]), &mut store),
        e("invalid command")
    );
    assert_eq!(
        handle_command(RespValue::Array(vec![bulk(b"PING")]), &mut store),
        e("unknown command")
    );
    assert_eq!(handle_command(RespValue::Array(vec![bulk(b"GET")]), &mut store), e("Invalid GET command"));
    assert_eq!(
        handle_command(RespValue::Array(vec![bulk(b"GET"), RespValue::Integer(3)]), &mut store),
        e("Invalid GET command")
    );
    assert_eq!(
        handle_command(RespValue::Array(vec![bulk(b"SET"), bulk(b"k")]), &mut store),
        e("Invalid SET command")
    );
    assert_eq!(
        handle_command(RespValue::Array(vec![bulk(b"DEL"), bulk(b"k"), bulk(b"x")]), &mut store),
        e("Invalid DEL command")
    );
    assert_eq!(store.get(b"k"), None);
}

#[test]
fn get_absent_is_null_not_error() {
    let mut store = Store::new();
    let get = RespValue::Array(vec![bulk(b"GET"), bulk(b"missing")]);
    assert_eq!(handle_command(get, &mut store), RespValue::BulkString(None));
}

#[test]
fn del_absent_is_ok() {
    let mut store = Store::new();
    store.set(b"a".to_vec(), b"1".to_vec());
    let del = RespValue::Array(vec![bulk(b"DEL"), bulk(b"b")]);
    assert_eq!(handle_command(del, &mut store), RespValue::SimpleString("OK".to_string()));
    assert_eq!(store.get(b"a"), Some(b"1".to_vec()));
}

#[test]
fn set_twice_then_get() {
    let mut store = Store::new();
    for _ in 0..2 {
        let set = RespValue::Array(vec![bulk(b"SET"), bulk(b"k"), bulk(b"v")]);
        assert_eq!(handle_command(set, &mut store), RespValue::SimpleString("OK".to_string()));
    }
    let get = RespValue::Array(vec![bulk(b"GET"), bulk(b"k")]);
    assert_eq!(handle_command(get, &mut store), bulk(b"v"));
}

#[test]
fn sets_on_distinct_keys_are_all_kept() {
    let mut store = Store::new();
    for i in (0..10).rev() {
        let set = RespValue::Array(vec![
            bulk(b"SET"),
            bulk(format!("key{}", i).as_bytes()),
            bulk(format!("value{}", i).as_bytes()),
        ]);
        handle_command(set, &mut store);
    }
    for i in 0..10 {
        let get = RespValue::Array(vec![bulk(b"GET"), bulk(format!("key{}", i).as_bytes())]);
        assert_eq!(handle_command(get, &mut store), bulk(format!("value{}", i).as_bytes()));
    }
}

#[test]
fn command_needs_write_and_answer() {
    let mut store = Store::new();
    store.set(b"k".to_vec(), b"v".to_vec());
    let get = Command::from_frame(&RespValue::Array(vec![bulk(b"GET"), bulk(b"k")]));
    assert_eq!(get, Command::Get(b"k".to_vec()));
    assert!(!get.needs_write());
    assert_eq!(get.answer(&store), bulk(b"v"));
    let set = Command::from_frame(&RespValue::Array(vec![bulk(b"SET"), bulk(b"k"), bulk(b"w")]));
    assert!(set.needs_write());
    assert_eq!(set.apply(&mut store), RespValue::SimpleString("OK".to_string()));
    assert_eq!(store.get(b"k"), Some(b"w".to_vec()));
    let del = Command::from_frame(&RespValue::Array(vec![bulk(b"del"), bulk(b"k")]));
    assert!(del.needs_write());
    assert_eq!(del, Command::Del(b"k".to_vec()));
}

#[test]
fn busy_reply_bytes() {
    assert_eq!(busy_reply().serialize(), b"-Server is busy. Try again later.\r\n".to_vec());
}

#[test]
fn end_to_end_set_get_del() {
    let mut store = Store::new();
    let mut buffer = b"*3\r\n$3\r\nSET\r\n$3\r\nfoo\r\n$3\r\nbar\r\n".to_vec();
    assert_eq!(drain(&mut buffer, &mut store), (b"+OK\r\n".to_vec(), false));
    buffer.extend_from_slice(b"*2\r\n$3\r\nGET\r\n$3\r\nfoo\r\n");
    assert_eq!(drain(&mut buffer, &mut store), (b"$3\r\nbar\r\n".to_vec(), false));
    buffer.extend_from_slice(b"*2\r\n$3\r\nDEL\r\n$3\r\nfoo\r\n");
    assert_eq!(drain(&mut buffer, &mut store), (b"+OK\r\n".to_vec(), false));
    buffer.extend_from_slice(b"*2\r\n$3\r\nGET\r\n$3\r\nfoo\r\n");
    assert_eq!(drain(&mut buffer, &mut store), (b"$-1\r\n".to_vec(), false));
    assert!(buffer.is_empty());
}

#[test]
fn set_missing_value_then_get_on_same_connection() {
    let mut store = Store::new();
    store.set(b"key".to_vec(), b"val".to_vec());
    let mut buffer = b"*2\r\n$3\r\nSET\r\n$3\r\nkey\r\n*2\r\n$3\r\nGET\r\n$3\r\nkey\r\n".to_vec();
    let (out, closed) = drain(&mut buffer, &mut store);
    assert!(!closed);
    assert_eq!(out, b"-Invalid SET command\r\n$3\r\nval\r\n".to_vec());
}

#[test]
fn frame_split_across_reads_waits_for_the_rest() {
    let mut store = Store::new();
    let mut buffer = b"*3\r\n$3\r\nSET\r\n$3\r\nfoo\r\n$3\r\nba".to_vec();
    let before = buffer.clone();
    assert_eq!(next_command(&mut buffer), Step::NeedMore);
    assert_eq!(buffer, before);
    buffer.extend_from_slice(b"r\r\n*1\r\n");
    assert_eq!(drain(&mut buffer, &mut store), (b"+OK\r\n".to_vec(), false));
    assert_eq!(buffer, b"*1\r\n".to_vec());
}

#[test]
fn malformed_bytes_close_the_connection() {
    let mut buffer = b"garbage\r\n".to_vec();
    assert_eq!(next_command(&mut buffer), Step::Close);
}

#[test]
fn header_that_cannot_finish_is_invalid() {
    assert_eq!(RespValue::parse(b"$abc"), Err(ParseError::Invalid));
    assert_eq!(RespValue::parse(b"*1x"), Err(ParseError::Invalid));
    assert_eq!(RespValue::parse(b":12\rx"), Err(ParseError::Invalid));
    assert_eq!(RespValue::parse(b":123456789012345678901"), Err(ParseError::Invalid));
    assert_eq!(RespValue::parse(b":000000000000000000001\r\n"), Err(ParseError::Invalid));
}

#[test]
fn header_that_may_finish_is_incomplete() {
    assert_eq!(RespValue::parse(b"$"), Err(ParseError::Incomplete));
    assert_eq!(RespValue::parse(b":-"), Err(ParseError::Incomplete));
    assert_eq!(RespValue::parse(b"$12\r"), Err(ParseError::Incomplete));
    assert_eq!(RespValue::parse(b":-9223372036854775808\r"), Err(ParseError::Incomplete));
    assert_eq!(RespValue::parse(b"+no terminator yet, and that is fine"), Err(ParseError::Incomplete));
}
