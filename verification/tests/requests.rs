use resp_server::command::{dispatch, eq_ignore_case, extract_command, handle_request, unpack_bulk_string};
use resp_server::connection::{Action, Connection, Event, State, INITIAL_CAPACITY};
use resp_server::error::{ParseError, RequestError};
use resp_server::parse::ParseResult;
use resp_server::value::Value;

fn bulk(s: &[u8]) -> Value {
    Value::BulkString(s.to_vec())
}

fn err(s: &[u8]) -> Value {
    Value::Error(s.to_vec())
}

fn read(conn: &mut Connection, bytes: &[u8]) -> Action {
    conn.handle(Event::Read(bytes.to_vec()))
}

#[test]
fn ping_is_answered_with_pong() {
    let mut conn = Connection::new();
    assert_eq!(read(&mut conn, b"*1\r\n$4\r\nPING\r\n"), Action::Write(b"+PONG\r\n".to_vec()));
    assert_eq!(conn.state(), State::Writing);
    assert_eq!(conn.pending(), &b""[..]);
    assert_eq!(conn.handle(Event::Written), Action::Read);
    assert_eq!(conn.state(), State::AwaitingData);
}

#[test]
fn echo_returns_its_argument() {
    let mut conn = Connection::new();
    assert_eq!(
        read(&mut conn, b"*2\r\n$4\r\nECHO\r\n$5\r\nhello\r\n"),
        Action::Write(b"$5\r\nhello\r\n".to_vec())
    );
}

#[test]
fn unknown_command_keeps_the_connection_open() {
    let mut conn = Connection::new();
    assert_eq!(
        read(&mut conn, b"*1\r\n$4\r\nNOPE\r\n"),
        Action::Write(b"-ERR unknown command\r\n".to_vec())
    );
    assert_eq!(conn.state(), State::Writing);
    assert_eq!(conn.handle(Event::Written), Action::Read);
    assert_eq!(read(&mut conn, b"*1\r\n$4\r\nPING\r\n"), Action::Write(b"+PONG\r\n".to_vec()));
}

#[test]
fn request_in_pieces_waits_for_the_rest() {
    let mut conn = Connection::new();
    assert_eq!(read(&mut conn, b"*2\r\n$3\r\nfoo\r\n"), Action::Read);
    assert_eq!(conn.state(), State::AwaitingData);
    assert_eq!(conn.pending(), &b"*2\r\n$3\r\nfoo\r\n"[..]);
    assert_eq!(read(&mut conn, b"$3\r\nba"), Action::Read);
    assert_eq!(conn.pending(), &b"*2\r\n$3\r\nfoo\r\n$3\r\nba"[..]);
    assert_eq!(read(&mut conn, b"r\r\n"), Action::Write(b"-ERR unknown command\r\n".to_vec()));
    assert_eq!(conn.pending(), &b""[..]);
}

#[test]
fn pipelined_requests_are_answered_in_turn() {
    let mut conn = Connection::new();
    let action = read(&mut conn, b"*1\r\n$4\r\nPING\r\n*2\r\n$4\r\nECHO\r\n$2\r\nhi\r\n*1\r\n$4\r\nPI");
    assert_eq!(action, Action::Write(b"+PONG\r\n".to_vec()));
    assert_eq!(conn.pending(), &b"*2\r\n$4\r\nECHO\r\n$2\r\nhi\r\n*1\r\n$4\r\nPI"[..]);
    assert_eq!(conn.handle(Event::Written), Action::Write(b"$2\r\nhi\r\n".to_vec()));
    assert_eq!(conn.pending(), &b"*1\r\n$4\r\nPI"[..]);
    assert_eq!(conn.handle(Event::Written), Action::Read);
    assert_eq!(read(&mut conn, b"NG\r\n"), Action::Write(b"+PONG\r\n".to_vec()));
}

#[test]
fn malformed_frame_closes() {
    let mut conn = Connection::new();
    assert_eq!(read(&mut conn, b"hello\r\n"), Action::Close);
    assert_eq!(conn.state(), State::Closed);
    assert_eq!(read(&mut conn, b"*1\r\n$4\r\nPING\r\n"), Action::Close);
    assert_eq!(conn.handle(Event::Written), Action::Close);
    assert_eq!(conn.state(), State::Closed);
}

#[test]
fn empty_read_closes() {
    let mut conn = Connection::new();
    assert_eq!(read(&mut conn, b"*1\r\n"), Action::Read);
    assert_eq!(read(&mut conn, b""), Action::Close);
    assert_eq!(conn.state(), State::Closed);
    assert_eq!(conn.pending(), &b"*1\r\n"[..]);
}

#[test]
fn failure_closes() {
    let mut conn = Connection::new();
    assert_eq!(conn.handle(Event::Failed), Action::Close);
    assert_eq!(conn.state(), State::Closed);
}

#[test]
fn new_connection_awaits_data() {
    let mut conn = Connection::new();
    assert_eq!(conn.state(), State::AwaitingData);
    assert_eq!(conn.pending(), &b""[..]);
    assert_eq!(INITIAL_CAPACITY, 512);
    assert_eq!(conn.handle(Event::Written), Action::Read);
}

#[test]
fn command_names_ignore_case() {
    assert_eq!(dispatch(b"ping", Vec::new()), Value::SimpleString(b"PONG".to_vec()));
    assert_eq!(dispatch(b"PiNg", Vec::new()), Value::SimpleString(b"PONG".to_vec()));
    assert_eq!(dispatch(b"echo", vec![bulk(b"x")]), bulk(b"x"));
    assert_eq!(dispatch(b"Echo", vec![bulk(b"\r\n\0")]), bulk(b"\r\n\0"));
    assert_eq!(dispatch(b"PINGS", Vec::new()), err(b"ERR unknown command"));
    assert_eq!(dispatch(b"", Vec::new()), err(b"ERR unknown command"));
    assert_eq!(dispatch(b"P\x29NG", Vec::new()), err(b"ERR unknown command"));
}

#[test]
fn wrong_arguments_are_an_error_reply() {
    assert_eq!(dispatch(b"PING", vec![bulk(b"x")]), err(b"ERR wrong number of arguments"));
    assert_eq!(dispatch(b"ECHO", Vec::new()), err(b"ERR wrong number of arguments"));
    assert_eq!(dispatch(b"ECHO", vec![bulk(b"a"), bulk(b"b")]), err(b"ERR wrong number of arguments"));
    assert_eq!(dispatch(b"ECHO", vec![Value::Integer(1)]), err(b"ERR wrong number of arguments"));
    assert_eq!(dispatch(b"ECHO", vec![Value::NullBulkString]), err(b"ERR wrong number of arguments"));
}

#[test]
fn eq_ignore_case_compares_letters_only() {
    assert!(eq_ignore_case(b"abcXYZ", b"ABCxyz"));
    assert!(eq_ignore_case(b"", b""));
    assert!(!eq_ignore_case(b"abc", b"abcd"));
    assert!(!eq_ignore_case(b"@", b"`"));
    assert!(!eq_ignore_case(b"[", b"{"));
    assert!(!eq_ignore_case(b"a1", b"a2"));
}

#[test]
fn extract_command_splits_name_and_arguments() {
    let request = Value::Array(vec![bulk(b"ECHO"), bulk(b"a"), Value::Integer(2)]);
    assert_eq!(extract_command(request), Ok((b"ECHO".to_vec(), vec![bulk(b"a"), Value::Integer(2)])));
    let request = Value::Array(vec![bulk(b"PING")]);
    assert_eq!(extract_command(request), Ok((b"PING".to_vec(), Vec::new())));
}

#[test]
fn extract_command_refuses_other_shapes() {
    assert_eq!(extract_command(bulk(b"PING")), Err(RequestError::NotAnArray));
    assert_eq!(extract_command(Value::NullArray), Err(RequestError::NotAnArray));
    assert_eq!(extract_command(Value::Array(Vec::new())), Err(RequestError::EmptyArray));
    assert_eq!(
        extract_command(Value::Array(vec![Value::SimpleString(b"PING".to_vec())])),
        Err(RequestError::NotABulkString)
    );
}

#[test]
fn unpack_bulk_string_gives_the_bytes() {
    assert_eq!(unpack_bulk_string(bulk(b"a\0b")), Ok(b"a\0b".to_vec()));
    assert_eq!(unpack_bulk_string(Value::Integer(1)), Err(RequestError::NotABulkString));
    assert_eq!(unpack_bulk_string(Value::NullBulkString), Err(RequestError::NotABulkString));
}

#[test]
fn value_that_is_no_request_gets_an_error_reply() {
    assert_eq!(handle_request(Value::Integer(3)), err(b"ERR invalid request"));
    assert_eq!(handle_request(Value::Array(Vec::new())), err(b"ERR invalid request"));
    assert_eq!(handle_request(Value::Array(vec![Value::Integer(1)])), err(b"ERR invalid request"));
    let mut conn = Connection::new();
    assert_eq!(read(&mut conn, b"+PING\r\n"), Action::Write(b"-ERR invalid request\r\n".to_vec()));
    assert_eq!(conn.state(), State::Writing);
}

#[test]
fn handle_request_answers_commands() {
    assert_eq!(
        handle_request(Value::Array(vec![bulk(b"ping")])),
        Value::SimpleString(b"PONG".to_vec())
    );
    assert_eq!(handle_request(Value::Array(vec![bulk(b"echo"), bulk(b"hey")])), bulk(b"hey"));
}

#[test]
fn feed_appends_and_take_value_removes_one_frame() {
    let mut conn = Connection::new();
    assert!(conn.feed(b":1\r\n:2"));
    assert_eq!(conn.pending(), &b":1\r\n:2"[..]);
    assert_eq!(conn.take_value(), ParseResult::Parsed(Value::Integer(1), 4));
    assert_eq!(conn.pending(), &b":2"[..]);
    assert_eq!(conn.take_value(), ParseResult::Incomplete);
    assert_eq!(conn.pending(), &b":2"[..]);
    assert!(conn.feed(b"3\r\n"));
    assert_eq!(conn.take_value(), ParseResult::Parsed(Value::Integer(23), 5));
    assert_eq!(conn.pending(), &b""[..]);
    assert_eq!(conn.state(), State::AwaitingData);
}

#[test]
fn take_value_leaves_malformed_bytes() {
    let mut conn = Connection::new();
    assert!(conn.feed(b"$x\r\n"));
    assert_eq!(conn.take_value(), ParseResult::Malformed(ParseError::InvalidNumber));
    assert_eq!(conn.pending(), &b"$x\r\n"[..]);
}
