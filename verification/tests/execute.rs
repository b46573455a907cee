use resp_store::connection::{handle_input, handle_input_at, StreamAction};
use resp_store::execute::{execute_command, execute_command_at};
use resp_store::reply::{encode_array, encode_simple, push_bulk};
use resp_store::store::Database;
use resp_store::{Command, DecodeError};

fn texts(items: &[&str]) -> Vec<String> {
    items.iter().map(|item| item.to_string()).collect()
}

fn reply(text: &str) -> StreamAction {
    StreamAction::Reply(text.to_string())
}

#[test]
fn simple_reply_wraps_the_text() {
    assert_eq!(encode_simple("PONG"), "+PONG\r\n");
    assert_eq!(encode_simple(""), "+\r\n");
    assert_eq!(encode_simple("a b"), "+a b\r\n");
}

#[test]
fn bulk_reply_counts_bytes() {
    let mut out = String::new();
    push_bulk(&mut out, "hey");
    assert_eq!(out, "$3\r\nhey\r\n");
    push_bulk(&mut out, "");
    assert_eq!(out, "$3\r\nhey\r\n$0\r\n\r\n");
    let mut out = String::new();
    push_bulk(&mut out, "\u{e9}t\u{e9}");
    assert_eq!(out, "$5\r\n\u{e9}t\u{e9}\r\n");
    let mut out = String::new();
    push_bulk(&mut out, "0123456789");
    assert_eq!(out, "$10\r\n0123456789\r\n");
}

#[test]
fn array_reply_lists_bulk_strings() {
    assert_eq!(encode_array(&texts(&[])), "*0\r\n");
    assert_eq!(encode_array(&texts(&["a"])), "*1\r\n$1\r\na\r\n");
    assert_eq!(encode_array(&texts(&["a", "bc"])), "*2\r\n$1\r\na\r\n$2\r\nbc\r\n");
    let twelve = texts(&["0", "1", "2", "3", "4", "5", "6", "7", "8", "9", "10", "11"]);
    let encoded = encode_array(&twelve);
    assert!(encoded.starts_with("*12\r\n$1\r\n0\r\n"));
    assert!(encoded.ends_with("$2\r\n11\r\n"));
}

#[test]
fn ping_replies_pong() {
    let mut db = Database::new();
    assert_eq!(execute_command(Command::Ping, &mut db), "+PONG\r\n");
}

#[test]
fn echo_replies_the_message() {
    let mut db = Database::new();
    assert_eq!(execute_command(Command::Echo("hey".to_string()), &mut db), "+hey\r\n");
    assert_eq!(execute_command(Command::Echo("".to_string()), &mut db), "+\r\n");
}

#[test]
fn set_replies_ok_and_get_replies_the_value() {
    let mut db = Database::new();
    let set = Command::SetKey("foo".to_string(), "bar".to_string(), None);
    assert_eq!(execute_command(set, &mut db), "+OK\r\n");
    assert_eq!(execute_command(Command::Get("foo".to_string()), &mut db), "+bar\r\n");
}

#[test]
fn get_miss_replies_null() {
    let mut db = Database::new();
    assert_eq!(execute_command(Command::Get("foo".to_string()), &mut db), "$-1\r\n");
    assert_eq!(execute_command(Command::Get("foo".to_string()), &mut db), "$-1\r\n");
}

#[test]
fn set_with_ttl_expires() {
    let mut db = Database::new();
    let set = Command::SetKey("foo".to_string(), "bar".to_string(), Some(100));
    assert_eq!(execute_command_at(set, &mut db, 1000), "+OK\r\n");
    assert_eq!(execute_command_at(Command::Get("foo".to_string()), &mut db, 1099), "+bar\r\n");
    assert_eq!(execute_command_at(Command::Get("foo".to_string()), &mut db, 1100), "$-1\r\n");
    assert_eq!(execute_command_at(Command::Get("foo".to_string()), &mut db, 1000), "$-1\r\n");
}

#[test]
fn set_with_zero_ttl_is_gone_at_the_next_get() {
    let mut db = Database::new();
    let set = Command::SetKey("foo".to_string(), "bar".to_string(), Some(0));
    assert_eq!(execute_command(set, &mut db), "+OK\r\n");
    assert_eq!(execute_command(Command::Get("foo".to_string()), &mut db), "$-1\r\n");
}

#[test]
fn keys_reply_is_sorted() {
    let mut db = Database::new();
    db.set("b", "2");
    db.set("c", "3");
    db.set("a", "1");
    assert_eq!(
        execute_command(Command::Keys("*".to_string()), &mut db),
        "*3\r\n$1\r\na\r\n$1\r\nb\r\n$1\r\nc\r\n"
    );
}

#[test]
fn keys_reply_leaves_out_expired_keys() {
    let mut db = Database::new();
    db.set("b", "2");
    db.set("a", "1");
    db.set_with_expire_at("c", "3", 0, 1000);
    assert_eq!(
        execute_command_at(Command::Keys("*".to_string()), &mut db, 1001),
        "*2\r\n$1\r\na\r\n$1\r\nb\r\n"
    );
}

#[test]
fn keys_reply_with_the_clock() {
    let mut db = Database::new();
    db.set("a", "1");
    db.set("b", "2");
    db.set_with_expire("c", "3", 0);
    assert_eq!(
        execute_command(Command::Keys("*".to_string()), &mut db),
        "*2\r\n$1\r\na\r\n$1\r\nb\r\n"
    );
}

#[test]
fn keys_reply_of_nothing() {
    let mut db = Database::new();
    assert_eq!(execute_command(Command::Keys("*".to_string()), &mut db), "*0\r\n");
    db.set("a", "1");
    assert_eq!(execute_command(Command::Keys("b*".to_string()), &mut db), "*0\r\n");
}

#[test]
fn keys_reply_by_pattern_and_byte_length() {
    let mut db = Database::new();
    db.set("user:2", "b");
    db.set("user:10", "c");
    db.set("group:1", "d");
    db.set("user:\u{e9}", "e");
    assert_eq!(
        execute_command(Command::Keys("user:*".to_string()), &mut db),
        "*3\r\n$7\r\nuser:10\r\n$6\r\nuser:2\r\n$7\r\nuser:\u{e9}\r\n"
    );
}

#[test]
fn config_get_reply() {
    let mut db = Database::with_config(vec![("dir".to_string(), "/tmp/data".to_string())]);
    assert_eq!(
        execute_command(Command::ConfigGet("dir".to_string()), &mut db),
        "*2\r\n$3\r\ndir\r\n$9\r\n/tmp/data\r\n"
    );
    assert_eq!(execute_command(Command::ConfigGet("host".to_string()), &mut db), "$-1\r\n");
}

#[test]
fn unknown_reply() {
    let mut db = Database::new();
    assert_eq!(execute_command(Command::Unknown, &mut db), "-ERR unknown command\r\n");
}

#[test]
fn end_to_end_ping_set_get() {
    let mut db = Database::new();
    assert_eq!(handle_input(&mut db, b"*1\r\n$4\r\nPING\r\n"), reply("+PONG\r\n"));
    assert_eq!(
        handle_input(&mut db, b"*3\r\n$3\r\nSET\r\n$3\r\nfoo\r\n$3\r\nbar\r\n"),
        reply("+OK\r\n")
    );
    assert_eq!(handle_input(&mut db, b"*2\r\n$3\r\nGET\r\n$3\r\nfoo\r\n"), reply("+bar\r\n"));
}

#[test]
fn end_to_end_with_expiry() {
    let mut db = Database::new();
    let set = b"*5\r\n$3\r\nSET\r\n$3\r\nfoo\r\n$3\r\nbar\r\n$2\r\npx\r\n$3\r\n100\r\n";
    assert_eq!(handle_input_at(&mut db, set, 5000), reply("+OK\r\n"));
    let get = b"*2\r\n$3\r\nGET\r\n$3\r\nfoo\r\n";
    assert_eq!(handle_input_at(&mut db, get, 5099), reply("+bar\r\n"));
    assert_eq!(handle_input_at(&mut db, get, 5100), reply("$-1\r\n"));
}

#[test]
fn end_to_end_echo_keys_config() {
    let mut db = Database::with_config(vec![("dir".to_string(), "/data".to_string())]);
    assert_eq!(handle_input(&mut db, b"*2\r\n$4\r\necho\r\n$3\r\nhey\r\n"), reply("+hey\r\n"));
    assert_eq!(
        handle_input(&mut db, b"*3\r\n$3\r\nSET\r\n$1\r\nb\r\n$1\r\n2\r\n"),
        reply("+OK\r\n")
    );
    assert_eq!(
        handle_input(&mut db, b"*3\r\n$3\r\nSET\r\n$1\r\na\r\n$1\r\n1\r\n"),
        reply("+OK\r\n")
    );
    assert_eq!(
        handle_input(&mut db, b"*2\r\n$4\r\nKEYS\r\n$1\r\n*\r\n"),
        reply("*2\r\n$1\r\na\r\n$1\r\nb\r\n")
    );
    assert_eq!(
        handle_input(&mut db, b"*3\r\n$6\r\nCONFIG\r\n$3\r\nGET\r\n$3\r\ndir\r\n"),
        reply("*2\r\n$3\r\ndir\r\n$5\r\n/data\r\n")
    );
    assert_eq!(
        handle_input(&mut db, b"*3\r\n$6\r\nCONFIG\r\n$3\r\nGET\r\n$4\r\nhost\r\n"),
        reply("$-1\r\n")
    );
}

#[test]
fn unsupported_request_gets_the_error_reply() {
    let mut db = Database::new();
    assert_eq!(
        handle_input(&mut db, b"*1\r\n$4\r\nQUIT\r\n"),
        reply("-ERR unknown command\r\n")
    );
    assert_eq!(
        handle_input(&mut db, b"*1\r\n$4\r\nECHO\r\n"),
        reply("-ERR unknown command\r\n")
    );
    assert_eq!(handle_input(&mut db, b"*1\r\n$4\r\nPING\r\n"), reply("+PONG\r\n"));
}

#[test]
fn end_of_stream_closes() {
    let mut db = Database::new();
    assert_eq!(handle_input(&mut db, b""), StreamAction::Close);
}

#[test]
fn malformed_frame_is_rejected_without_a_reply() {
    let mut db = Database::new();
    db.set("foo", "bar");
    assert_eq!(
        handle_input(&mut db, b"PING\r\n"),
        StreamAction::Reject(DecodeError::ExpectedArray)
    );
    assert_eq!(
        handle_input(&mut db, b"+3\r\nSET\r\n$3\r\nfoo\r\n$3\r\nbaz\r\n"),
        StreamAction::Reject(DecodeError::ExpectedArray)
    );
    assert_eq!(
        handle_input(&mut db, b"*1\r\n$4\r\nPI"),
        StreamAction::Reject(DecodeError::Truncated)
    );
    assert_eq!(
        handle_input(&mut db, b"*5\r\n$3\r\nSET\r\n$3\r\nfoo\r\n$3\r\nbaz\r\n$2\r\nPX\r\n$1\r\nx\r\n"),
        StreamAction::Reject(DecodeError::InvalidExpiry)
    );
    assert_eq!(db.get("foo"), Some("bar".to_string()));
}

#[test]
fn actions_can_be_copied() {
    let actions = vec![
        StreamAction::Reply("+OK\r\n".to_string()),
        StreamAction::Close,
        StreamAction::Reject(DecodeError::Truncated),
    ];
    for action in actions.iter() {
        assert_eq!(&action.clone(), action);
    }
}
