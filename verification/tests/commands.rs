use redis_starter_rust::command::Command;
use redis_starter_rust::connection::{handle_request, next_request, Outcome, Request};
use redis_starter_rust::error::RedisError;
use redis_starter_rust::parser::{ParserError, RESPOutput};
use redis_starter_rust::store::datatype::DataType;
use redis_starter_rust::store::redis::{Lookup, Store};

const SECOND: u128 = 1_000_000_000;
const MILLI: u128 = 1_000_000;

fn bulk(bytes: &[u8]) -> RESPOutput {
    RESPOutput::BulkString(bytes.to_vec())
}

fn value(bytes: &[u8]) -> DataType {
    DataType::String(bytes.to_vec())
}

fn request(words: &[&[u8]]) -> RESPOutput {
    RESPOutput::Array(words.iter().map(|word| bulk(word)).collect())
}

fn command(words: &[&[u8]]) -> Result<Command, RedisError> {
    Command::from_resp(request(words))
}

fn store() -> Store {
    Store::new(b"data".to_vec(), b"dump.db".to_vec()).unwrap()
}

fn reply(store: &mut Store, bytes: &[u8], now: u128) -> Vec<u8> {
    match handle_request(bytes, store, now) {
        Outcome::Reply { response, consumed } => {
            assert_eq!(consumed, bytes.len());
            response
        }
        other => panic!("no reply: {:?}", other),
    }
}

#[test]
fn ping_is_answered_with_pong() {
    let mut store = store();
    assert_eq!(reply(&mut store, b"*1\r\n$4\r\nPING\r\n", 0), b"+PONG\r\n");
}

#[test]
fn echo_is_answered_with_its_argument() {
    let mut store = store();
    assert_eq!(
        reply(&mut store, b"*2\r\n$4\r\nECHO\r\n$3\r\nhiy\r\n", 0),
        b"$3\r\nhiy\r\n"
    );
}

#[test]
fn set_then_get() {
    let mut store = store();
    assert_eq!(
        reply(&mut store, b"*3\r\n$3\r\nSET\r\n$3\r\nfoo\r\n$3\r\nbar\r\n", 1),
        b"+OK\r\n"
    );
    assert_eq!(
        reply(&mut store, b"*2\r\n$3\r\nGET\r\n$3\r\nfoo\r\n", 2),
        b"$3\r\nbar\r\n"
    );
}

#[test]
fn get_of_a_missing_key_is_answered_with_the_null_bulk_string() {
    let mut store = store();
    assert_eq!(
        reply(&mut store, b"*2\r\n$3\r\nGET\r\n$5\r\nabsnt\r\n", 0),
        b"$-1\r\n"
    );
}

#[test]
fn set_with_px_expires() {
    let mut store = store();
    let start = 7 * SECOND;
    assert_eq!(
        reply(
            &mut store,
            b"*5\r\n$3\r\nSET\r\n$3\r\nfoo\r\n$3\r\nbar\r\n$2\r\nPX\r\n$2\r\n50\r\n",
            start
        ),
        b"+OK\r\n"
    );
    assert_eq!(
        reply(&mut store, b"*2\r\n$3\r\nGET\r\n$3\r\nfoo\r\n", start + 50 * MILLI),
        b"$3\r\nbar\r\n"
    );
    assert_eq!(
        reply(&mut store, b"*2\r\n$3\r\nGET\r\n$3\r\nfoo\r\n", start + 100 * MILLI),
        b"$-1\r\n"
    );
    assert_eq!(store.lookup(b"foo", 0), Lookup::Missing);
}

#[test]
fn set_with_ex_zero_or_px_zero_expires_at_once() {
    let mut store = store();
    command(&[b"SET", b"a", b"1", b"EX", b"0"])
        .unwrap()
        .execute(&mut store, 100)
        .unwrap();
    command(&[b"SET", b"b", b"2", b"PX", b"0"])
        .unwrap()
        .execute(&mut store, 100)
        .unwrap();
    assert_eq!(
        reply(&mut store, b"*2\r\n$3\r\nGET\r\n$1\r\na\r\n", 101),
        b"$-1\r\n"
    );
    assert_eq!(
        reply(&mut store, b"*2\r\n$3\r\nGET\r\n$1\r\nb\r\n", 101),
        b"$-1\r\n"
    );
}

#[test]
fn config_get_reads_the_directory() {
    let mut store = store();
    assert_eq!(
        reply(
            &mut store,
            b"*3\r\n$6\r\nCONFIG\r\n$3\r\nGET\r\n$3\r\ndir\r\n",
            0
        ),
        b"$4\r\ndata\r\n"
    );
    assert_eq!(
        reply(
            &mut store,
            b"*3\r\n$6\r\nCONFIG\r\n$3\r\nGET\r\n$10\r\ndbfilename\r\n",
            0
        ),
        b"$7\r\ndump.db\r\n"
    );
}

#[test]
fn config_set_writes_the_store() {
    let mut store = store();
    assert_eq!(
        reply(
            &mut store,
            b"*4\r\n$6\r\nconfig\r\n$3\r\nset\r\n$3\r\ndir\r\n$4\r\n/tmp\r\n",
            0
        ),
        b"+OK\r\n"
    );
    assert_eq!(store.get(b"dir", 0).unwrap(), Some(value(b"/tmp")));
}

#[test]
fn names_are_matched_whatever_their_case() {
    assert_eq!(command(&[b"ping"]), Ok(Command::Ping));
    assert_eq!(command(&[b"PiNg"]), Ok(Command::Ping));
    assert_eq!(command(&[b"echo", b"x"]), Ok(Command::Echo(b"x".to_vec())));
    assert_eq!(command(&[b"get", b"Key"]), Ok(Command::Get(b"Key".to_vec())));
    assert_eq!(
        command(&[b"sEt", b"k", b"v"]),
        Ok(Command::SetValue(b"k".to_vec(), value(b"v"), None))
    );
    assert_eq!(
        command(&[b"Config", b"get", b"dir"]),
        Ok(Command::Config(b"GET".to_vec(), b"dir".to_vec(), None))
    );
    assert_eq!(
        command(&[b"CONFIG", b"Set", b"dir", b"x"]),
        Ok(Command::Config(
            b"SET".to_vec(),
            b"dir".to_vec(),
            Some(value(b"x"))
        ))
    );
}

#[test]
fn a_name_that_is_not_known_is_an_unknown_command() {
    assert_eq!(command(&[b"FLUSHALL"]), Err(RedisError::UnknownCommand));
    assert_eq!(command(&[b"PINGS"]), Err(RedisError::UnknownCommand));
    assert_eq!(command(&[b"PIN"]), Err(RedisError::UnknownCommand));
    assert_eq!(command(&[b""]), Err(RedisError::UnknownCommand));
    assert_eq!(command(&[b"P\xC9NG"]), Err(RedisError::UnknownCommand));
}

#[test]
fn a_request_of_the_wrong_shape_has_invalid_arguments() {
    let invalid = Err(RedisError::InvalidArguments);
    assert_eq!(command(&[]), invalid);
    assert_eq!(command(&[b"ECHO"]), invalid);
    assert_eq!(command(&[b"GET"]), invalid);
    assert_eq!(command(&[b"SET"]), invalid);
    assert_eq!(command(&[b"SET", b"k"]), invalid);
    assert_eq!(command(&[b"CONFIG"]), invalid);
    assert_eq!(command(&[b"CONFIG", b"GET"]), invalid);
    assert_eq!(command(&[b"CONFIG", b"SET", b"k"]), invalid);
    assert_eq!(command(&[b"CONFIG", b"DEL", b"k"]), invalid);
    assert_eq!(
        Command::from_resp(RESPOutput::Array(vec![RESPOutput::Integer(1)])),
        invalid
    );
    assert_eq!(
        Command::from_resp(RESPOutput::Array(vec![
            bulk(b"GET"),
            RESPOutput::Array(Vec::new())
        ])),
        invalid
    );
    assert_eq!(
        Command::from_resp(RESPOutput::Array(vec![
            bulk(b"GET"),
            RESPOutput::NullBulkString
        ])),
        invalid
    );
    assert_eq!(
        Command::from_resp(RESPOutput::Array(vec![
            bulk(b"ECHO"),
            RESPOutput::Error(b"no".to_vec())
        ])),
        invalid
    );
}

#[test]
fn arguments_behind_those_that_are_read_are_ignored() {
    assert_eq!(command(&[b"PING", b"extra"]), Ok(Command::Ping));
    assert_eq!(
        command(&[b"GET", b"k", b"extra"]),
        Ok(Command::Get(b"k".to_vec()))
    );
    assert_eq!(
        command(&[b"SET", b"k", b"v", b"EX"]),
        Ok(Command::SetValue(b"k".to_vec(), value(b"v"), None))
    );
}

#[test]
fn arguments_of_any_scalar_kind_are_taken_as_text() {
    let with = |argument: RESPOutput| {
        Command::from_resp(RESPOutput::Array(vec![bulk(b"ECHO"), argument]))
    };
    assert_eq!(
        with(RESPOutput::SimpleString(b"s".to_vec())),
        Ok(Command::Echo(b"s".to_vec()))
    );
    assert_eq!(
        with(RESPOutput::Integer(-5)),
        Ok(Command::Echo(b"-5".to_vec()))
    );
    assert_eq!(
        with(RESPOutput::Double(b"2.50".to_vec())),
        Ok(Command::Echo(b"2.50".to_vec()))
    );
    assert_eq!(
        with(RESPOutput::Boolean(true)),
        Ok(Command::Echo(b"true".to_vec()))
    );
    assert_eq!(
        with(RESPOutput::Boolean(false)),
        Ok(Command::Echo(b"false".to_vec()))
    );
    assert_eq!(with(RESPOutput::Null), Ok(Command::Echo(b"nil".to_vec())));
}

#[test]
fn a_lifetime_is_given_in_seconds_or_in_milliseconds() {
    let set = |option: &[u8], amount: &[u8]| command(&[b"SET", b"k", b"v", option, amount]);
    let with = |ttl: Option<u128>| Ok(Command::SetValue(b"k".to_vec(), value(b"v"), ttl));
    assert_eq!(set(b"EX", b"10"), with(Some(10 * SECOND)));
    assert_eq!(set(b"ex", b"1"), with(Some(SECOND)));
    assert_eq!(set(b"PX", b"50"), with(Some(50 * MILLI)));
    assert_eq!(set(b"pX", b"+7"), with(Some(7 * MILLI)));
    assert_eq!(set(b"EX", b"0"), with(Some(0)));
    assert_eq!(
        set(b"EX", b"18446744073709551615"),
        with(Some(18446744073709551615 * SECOND))
    );
}

#[test]
fn an_option_that_is_not_known_asks_for_no_lifetime() {
    assert_eq!(
        command(&[b"SET", b"k", b"v", b"NX", b"10"]),
        Ok(Command::SetValue(b"k".to_vec(), value(b"v"), None))
    );
    assert_eq!(
        command(&[b"SET", b"k", b"v", b"EXX", b"10"]),
        Ok(Command::SetValue(b"k".to_vec(), value(b"v"), None))
    );
}

#[test]
fn a_lifetime_that_is_no_number_is_refused() {
    let invalid = Err(RedisError::InvalidArguments);
    assert_eq!(command(&[b"SET", b"k", b"v", b"EX", b"ten"]), invalid);
    assert_eq!(command(&[b"SET", b"k", b"v", b"EX", b"-1"]), invalid);
    assert_eq!(command(&[b"SET", b"k", b"v", b"EX", b""]), invalid);
    assert_eq!(command(&[b"SET", b"k", b"v", b"NX", b"ten"]), invalid);
    assert_eq!(
        command(&[b"SET", b"k", b"v", b"EX", b"18446744073709551616"]),
        invalid
    );
    assert_eq!(
        Command::from_resp(RESPOutput::Array(vec![
            bulk(b"SET"),
            bulk(b"k"),
            bulk(b"v"),
            bulk(b"EX"),
            RESPOutput::Integer(10),
        ])),
        invalid
    );
    assert_eq!(
        Command::parse_expiry(&[bulk(b"k"), bulk(b"v"), RESPOutput::Null, bulk(b"1")]),
        Err(RedisError::InvalidArguments)
    );
}

#[test]
fn the_lifetime_is_read_from_the_third_and_fourth_argument() {
    assert_eq!(Command::parse_expiry(&[]), Ok(None));
    assert_eq!(
        Command::parse_expiry(&[bulk(b"k"), bulk(b"v"), bulk(b"EX")]),
        Ok(None)
    );
    assert_eq!(
        Command::parse_expiry(&[bulk(b"k"), bulk(b"v"), bulk(b"EX"), bulk(b"2")]),
        Ok(Some(2 * SECOND))
    );
    assert_eq!(
        Command::parse_expiry(&[bulk(b"k"), bulk(b"v"), bulk(b"PX"), bulk(b"2"), bulk(b"x")]),
        Ok(Some(2 * MILLI))
    );
}

#[test]
fn a_frame_that_is_no_array_is_taken_as_echo_or_get() {
    assert_eq!(
        Command::from_resp(RESPOutput::SimpleString(b"hello".to_vec())),
        Ok(Command::Echo(b"hello".to_vec()))
    );
    assert_eq!(
        Command::from_resp(RESPOutput::Integer(42)),
        Ok(Command::Get(b"42".to_vec()))
    );
    assert_eq!(
        Command::from_resp(RESPOutput::Double(b"1.5".to_vec())),
        Ok(Command::Get(b"1.5".to_vec()))
    );
    assert_eq!(
        Command::from_resp(RESPOutput::Boolean(true)),
        Ok(Command::Get(b"true".to_vec()))
    );
    let invalid = Err(RedisError::InvalidArguments);
    assert_eq!(Command::from_resp(RESPOutput::Null), invalid);
    assert_eq!(Command::from_resp(RESPOutput::NullBulkString), invalid);
    assert_eq!(Command::from_resp(bulk(b"PING")), invalid);
    assert_eq!(
        Command::from_resp(RESPOutput::Error(b"ERR".to_vec())),
        invalid
    );
}

#[test]
fn parses_the_elements_of_a_request() {
    assert_eq!(
        Command::parse_command(vec![bulk(b"GET"), bulk(b"k")]),
        Ok(Command::Get(b"k".to_vec()))
    );
    assert_eq!(
        Command::parse_command(Vec::new()),
        Err(RedisError::InvalidArguments)
    );
}

#[test]
fn a_config_command_made_by_hand_is_checked_when_it_is_served() {
    let mut store = store();
    let get = Command::Config(b"get".to_vec(), b"dir".to_vec(), None);
    assert_eq!(get.execute(&mut store, 0), Ok(b"$4\r\ndata\r\n".to_vec()));
    let set = Command::Config(b"SET".to_vec(), b"dir".to_vec(), None);
    assert_eq!(
        set.execute(&mut store, 0),
        Err(RedisError::InvalidArguments)
    );
    let other = Command::Config(b"DEL".to_vec(), b"dir".to_vec(), Some(value(b"x")));
    assert_eq!(
        other.execute(&mut store, 0),
        Err(RedisError::InvalidArguments)
    );
    assert_eq!(store.get(b"dir", 0).unwrap(), Some(value(b"data")));
}

#[test]
fn a_shared_store_serves_what_takes_no_write() {
    let mut store = store();
    store.set_ex(b"short", value(b"v"), 5, 0).unwrap();
    let get = |key: &[u8]| Command::Get(key.to_vec());
    assert_eq!(
        Command::Ping.execute_read(&store, 0),
        Some(Ok(b"+PONG\r\n".to_vec()))
    );
    assert_eq!(
        Command::Echo(b"a".to_vec()).execute_read(&store, 0),
        Some(Ok(b"$1\r\na\r\n".to_vec()))
    );
    assert_eq!(
        get(b"dir").execute_read(&store, 0),
        Some(Ok(b"$4\r\ndata\r\n".to_vec()))
    );
    assert_eq!(
        get(b"absent").execute_read(&store, 0),
        Some(Ok(b"$-1\r\n".to_vec()))
    );
    assert_eq!(
        get(b"short").execute_read(&store, 5),
        Some(Ok(b"$1\r\nv\r\n".to_vec()))
    );
    assert_eq!(get(b"short").execute_read(&store, 6), None);
    assert_eq!(
        Command::SetValue(b"k".to_vec(), value(b"v"), None).execute_read(&store, 0),
        None
    );
    assert_eq!(
        Command::Config(b"SET".to_vec(), b"k".to_vec(), Some(value(b"v"))).execute_read(&store, 0),
        None
    );
    assert_eq!(
        Command::Config(b"SET".to_vec(), b"k".to_vec(), None).execute_read(&store, 0),
        Some(Err(RedisError::InvalidArguments))
    );
    assert_eq!(
        Command::Config(b"GET".to_vec(), b"short".to_vec(), None).execute_read(&store, 6),
        None
    );
    assert_eq!(get(b"short").execute(&mut store, 6), Ok(b"$-1\r\n".to_vec()));
    assert_eq!(
        get(b"short").execute_read(&store, 6),
        Some(Ok(b"$-1\r\n".to_vec()))
    );
}

#[test]
fn a_part_of_a_request_asks_for_more() {
    let mut store = store();
    let whole = b"*2\r\n$4\r\nECHO\r\n$3\r\nhiy\r\n";
    for cut in 0..whole.len() {
        assert_eq!(next_request(&whole[..cut]), Request::Incomplete);
        assert_eq!(handle_request(&whole[..cut], &mut store, 0), Outcome::NeedMore);
    }
    assert_eq!(
        next_request(whole),
        Request::Ready {
            command: Command::Echo(b"hiy".to_vec()),
            consumed: whole.len()
        }
    );
}

#[test]
fn a_request_is_served_and_what_follows_it_is_left() {
    let mut store = store();
    let two = b"*1\r\n$4\r\nPING\r\n*2\r\n$4\r\nECHO\r\n$1\r\nx\r\n";
    match handle_request(two, &mut store, 0) {
        Outcome::Reply { response, consumed } => {
            assert_eq!(response, b"+PONG\r\n");
            assert_eq!(consumed, 14);
            assert_eq!(
                handle_request(&two[consumed..], &mut store, 0),
                Outcome::Reply {
                    response: b"$1\r\nx\r\n".to_vec(),
                    consumed: two.len() - 14
                }
            );
        }
        other => panic!("no reply: {:?}", other),
    }
}

#[test]
fn what_is_no_request_closes_the_connection() {
    let mut store = store();
    assert_eq!(
        handle_request(b"PING\r\n", &mut store, 0),
        Outcome::Close(RedisError::Parser(ParserError::BadPrefix))
    );
    assert_eq!(
        handle_request(b"*1\r\n$4\r\nPINGxx", &mut store, 0),
        Outcome::Close(RedisError::Parser(ParserError::LengthMismatch))
    );
    assert_eq!(
        handle_request(b"*x\r\n", &mut store, 0),
        Outcome::Close(RedisError::Parser(ParserError::BadNumber))
    );
    assert_eq!(
        handle_request(b"*1\r\n$4\r\nNOPE\r\n", &mut store, 0),
        Outcome::Close(RedisError::UnknownCommand)
    );
    assert_eq!(
        handle_request(b"*1\r\n$3\r\nGET\r\n", &mut store, 0),
        Outcome::Close(RedisError::InvalidArguments)
    );
    assert_eq!(
        next_request(b"_\r\n"),
        Request::Rejected(RedisError::InvalidArguments)
    );
    assert_eq!(
        next_request(b"+a\nb\r\n"),
        Request::Rejected(RedisError::Parser(ParserError::BadCRLF))
    );
}
