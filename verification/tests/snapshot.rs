use redis_starter_rust::config::{load_config, AppConfig, ConfigError, ServerConfig, Settings};
use redis_starter_rust::parser::rdb::{RDBEntry, RDBError, RDBParser, RDBValue, Timestamp};
use redis_starter_rust::server::{
    init_db, load_snapshot, Acceptor, Action, Event, SnapshotFile, StartError,
};
use redis_starter_rust::store::datatype::DataType;
use redis_starter_rust::store::redis::Store;

fn entry(key: &[u8], value: &[u8], expiry: Option<Timestamp>) -> RDBEntry {
    RDBEntry {
        key: key.to_vec(),
        value: RDBValue::String(value.to_vec()),
        expiry,
    }
}

fn image(body: &[u8]) -> Vec<u8> {
    let mut bytes = b"REDIS0011".to_vec();
    bytes.extend_from_slice(body);
    bytes
}

fn body_reader(body: &[u8]) -> RDBParser {
    let mut reader = RDBParser::new(image(body));
    reader.parse_header().unwrap();
    reader
}

const SEED: [u8; 19] = [
    0xFA, 0x03, 0x76, 0x65, 0x72, 0x03, 0x31, 0x31, 0x32, 0x00, 0x03, 0x66, 0x6F, 0x6F, 0x03, 0x62,
    0x61, 0x72, 0xFF,
];

#[test]
fn accepts_the_header() {
    let mut reader = RDBParser::new(b"REDIS0011".to_vec());
    assert_eq!(reader.parse_header(), Ok(()));
    assert_eq!(reader.parse_entry(), Ok(None));
}

#[test]
fn refuses_another_magic() {
    assert_eq!(
        RDBParser::new(b"REDIX0011".to_vec()).parse_header(),
        Err(RDBError::InvalidMagicString)
    );
    assert_eq!(
        RDBParser::new(b"redis0011".to_vec()).parse_header(),
        Err(RDBError::InvalidMagicString)
    );
    assert_eq!(
        RDBParser::new(b"RUBIS".to_vec()).parse_header(),
        Err(RDBError::InvalidMagicString)
    );
}

#[test]
fn refuses_another_version() {
    for version in [&b"0010"[..], b"0012", b"0009", b"+011", b"  11", b"abcd", b"1100"] {
        let mut bytes = b"REDIS".to_vec();
        bytes.extend_from_slice(version);
        assert_eq!(
            RDBParser::new(bytes).parse_header(),
            Err(RDBError::UnsupportedVersion)
        );
    }
}

#[test]
fn a_header_that_ends_early_is_an_io_error() {
    assert_eq!(
        RDBParser::new(Vec::new()).parse_header(),
        Err(RDBError::IoError)
    );
    assert_eq!(
        RDBParser::new(b"REDI".to_vec()).parse_header(),
        Err(RDBError::IoError)
    );
    assert_eq!(
        RDBParser::new(b"REDIS".to_vec()).parse_header(),
        Err(RDBError::IoError)
    );
    assert_eq!(
        RDBParser::new(b"REDIS001".to_vec()).parse_header(),
        Err(RDBError::IoError)
    );
}

#[test]
fn a_reader_that_failed_stays_where_it_was() {
    let mut reader = RDBParser::new(b"REDIS0012".to_vec());
    assert_eq!(reader.parse_header(), Err(RDBError::UnsupportedVersion));
    assert_eq!(reader.parse_header(), Err(RDBError::UnsupportedVersion));
    let mut reader = body_reader(&[0x00, 0x03, 0x66]);
    assert_eq!(reader.parse_entry(), Err(RDBError::IoError));
    assert_eq!(reader.read_length(), Ok(0));
    assert_eq!(reader.read_string(), Err(RDBError::IoError));
    assert_eq!(reader.read_length(), Ok(3));
}

#[test]
fn reads_lengths_of_every_form() {
    let length = |bytes: &[u8]| RDBParser::new(bytes.to_vec()).read_length();
    assert_eq!(length(&[0x00]), Ok(0));
    assert_eq!(length(&[0x0A]), Ok(10));
    assert_eq!(length(&[0x3F]), Ok(63));
    assert_eq!(length(&[0x40, 0x00]), Ok(0));
    assert_eq!(length(&[0x42, 0xBC]), Ok(700));
    assert_eq!(length(&[0x7F, 0xFF]), Ok(16383));
    assert_eq!(length(&[0x80, 0x00, 0x00, 0x42, 0x68]), Ok(17000));
    assert_eq!(length(&[0xBF, 0x00, 0x01, 0x00, 0x00]), Ok(65536));
    assert_eq!(length(&[0x80, 0xFF, 0xFF, 0xFF, 0xFF]), Ok(4294967295));
    assert_eq!(length(&[0xC0, 0x7B]), Ok(123));
    assert_eq!(length(&[0xC0, 0xFF]), Ok(255));
    assert_eq!(length(&[0xC1, 0x30, 0x39]), Ok(12345));
    assert_eq!(length(&[0xC2, 0x00, 0x98, 0x96, 0x80]), Ok(10000000));
}

#[test]
fn refuses_lengths_of_an_unknown_form() {
    let length = |bytes: &[u8]| RDBParser::new(bytes.to_vec()).read_length();
    assert_eq!(length(&[0xC3]), Err(RDBError::InvalidLength));
    assert_eq!(length(&[0xC3, 0x00, 0x00]), Err(RDBError::InvalidLength));
    assert_eq!(length(&[0xFF]), Err(RDBError::InvalidLength));
}

#[test]
fn a_length_that_ends_early_is_an_io_error() {
    let length = |bytes: &[u8]| RDBParser::new(bytes.to_vec()).read_length();
    assert_eq!(length(&[]), Err(RDBError::IoError));
    assert_eq!(length(&[0x40]), Err(RDBError::IoError));
    assert_eq!(length(&[0x80, 0x00, 0x00, 0x00]), Err(RDBError::IoError));
    assert_eq!(length(&[0xC0]), Err(RDBError::IoError));
    assert_eq!(length(&[0xC1, 0x00]), Err(RDBError::IoError));
    assert_eq!(length(&[0xC2, 0x00, 0x00, 0x00]), Err(RDBError::IoError));
}

#[test]
fn reads_strings_of_bytes() {
    let string = |bytes: &[u8]| RDBParser::new(bytes.to_vec()).read_string();
    assert_eq!(string(&[0x00]), Ok(Vec::new()));
    assert_eq!(string(&[0x03, 0x66, 0x6F, 0x6F]), Ok(b"foo".to_vec()));
    assert_eq!(string(&[0x40, 0x02, 0xFF, 0x00, 0x07]), Ok(vec![0xFF, 0x00]));
    assert_eq!(
        string(&[0x80, 0x00, 0x00, 0x00, 0x01, 0x41]),
        Ok(b"A".to_vec())
    );
}

#[test]
fn reads_integers_as_their_decimal_text() {
    let string = |bytes: &[u8]| RDBParser::new(bytes.to_vec()).read_string();
    assert_eq!(string(&[0xC0, 0x7B]), Ok(b"123".to_vec()));
    assert_eq!(string(&[0xC0, 0x00]), Ok(b"0".to_vec()));
    assert_eq!(string(&[0xC0, 0xFF]), Ok(b"-1".to_vec()));
    assert_eq!(string(&[0xC0, 0x80]), Ok(b"-128".to_vec()));
    assert_eq!(string(&[0xC0, 0x7F]), Ok(b"127".to_vec()));
    assert_eq!(string(&[0xC1, 0x30, 0x39]), Ok(b"12345".to_vec()));
    assert_eq!(string(&[0xC1, 0xFF, 0xFE]), Ok(b"-2".to_vec()));
    assert_eq!(string(&[0xC1, 0x80, 0x00]), Ok(b"-32768".to_vec()));
    assert_eq!(
        string(&[0xC2, 0x00, 0x98, 0x96, 0x80]),
        Ok(b"10000000".to_vec())
    );
    assert_eq!(
        string(&[0xC2, 0x80, 0x00, 0x00, 0x00]),
        Ok(b"-2147483648".to_vec())
    );
    assert_eq!(
        string(&[0xC2, 0x7F, 0xFF, 0xFF, 0xFF]),
        Ok(b"2147483647".to_vec())
    );
}

#[test]
fn refuses_strings_that_cannot_be_read() {
    let string = |bytes: &[u8]| RDBParser::new(bytes.to_vec()).read_string();
    assert_eq!(string(&[]), Err(RDBError::IoError));
    assert_eq!(string(&[0x03, 0x66, 0x6F]), Err(RDBError::IoError));
    assert_eq!(string(&[0xC0]), Err(RDBError::IoError));
    assert_eq!(string(&[0xC2, 0x01]), Err(RDBError::IoError));
    assert_eq!(string(&[0xC3, 0x01]), Err(RDBError::InvalidLength));
    assert_eq!(string(&[0xFE]), Err(RDBError::InvalidLength));
}

#[test]
fn reads_the_entries_of_a_snapshot() {
    let mut reader = body_reader(&SEED);
    assert_eq!(reader.parse_entry(), Ok(Some(entry(b"foo", b"bar", None))));
    assert_eq!(reader.parse_entry(), Ok(None));
    assert_eq!(reader.parse_entry(), Ok(None));
}

#[test]
fn the_end_of_the_bytes_ends_the_snapshot() {
    let mut reader = body_reader(&[0x00, 0x01, 0x61, 0x01, 0x62]);
    assert_eq!(reader.parse_entry(), Ok(Some(entry(b"a", b"b", None))));
    assert_eq!(reader.parse_entry(), Ok(None));
    let mut reader = body_reader(&[0xFA, 0x01, 0x61, 0x01, 0x62]);
    assert_eq!(reader.parse_entry(), Ok(None));
}

#[test]
fn a_deadline_goes_to_the_next_entry() {
    let seconds = [0xFD, 0, 0, 0, 0, 0x65, 0x53, 0xF1, 0x00];
    let millis = [0xFC, 0, 0, 0x01, 0x8B, 0xCF, 0xE5, 0x68, 0x7B];
    let mut body = Vec::new();
    body.extend_from_slice(&seconds);
    body.extend_from_slice(&[0x00, 0x01, 0x61, 0x01, 0x31]);
    body.extend_from_slice(&millis);
    body.extend_from_slice(&[0xFE, 0x02]);
    body.extend_from_slice(&[0x00, 0x01, 0x62, 0x01, 0x32]);
    body.extend_from_slice(&[0x00, 0x01, 0x63, 0x01, 0x33]);
    body.push(0xFF);
    let mut reader = body_reader(&body);
    assert_eq!(
        reader.parse_entry(),
        Ok(Some(entry(
            b"a",
            b"1",
            Some(Timestamp {
                secs: 1_700_000_000,
                nanos: 0
            })
        )))
    );
    assert_eq!(reader.current_db(), 0);
    assert_eq!(
        reader.parse_entry(),
        Ok(Some(entry(
            b"b",
            b"2",
            Some(Timestamp {
                secs: 1_700_000_000,
                nanos: 123_000_000
            })
        )))
    );
    assert_eq!(reader.current_db(), 2);
    assert_eq!(reader.parse_entry(), Ok(Some(entry(b"c", b"3", None))));
    assert_eq!(reader.parse_entry(), Ok(None));
}

#[test]
fn of_two_deadlines_the_first_counts() {
    let mut body = vec![0xFD, 0, 0, 0, 0, 0, 0, 0, 5];
    body.extend_from_slice(&[0xFC, 0, 0, 0, 0, 0, 0, 0, 9]);
    body.extend_from_slice(&[0x00, 0x01, 0x61, 0x01, 0x31]);
    let mut reader = body_reader(&body);
    assert_eq!(
        reader.parse_entry(),
        Ok(Some(entry(b"a", b"1", Some(Timestamp { secs: 5, nanos: 0 }))))
    );
}

#[test]
fn a_deadline_before_the_end_is_dropped() {
    let mut reader = body_reader(&[0xFD, 0, 0, 0, 0, 0, 0, 0, 5, 0xFF]);
    assert_eq!(reader.parse_entry(), Ok(None));
    let mut reader = body_reader(&[0xFD, 0, 0, 0, 0, 0, 0, 0, 5]);
    assert_eq!(reader.parse_entry(), Ok(None));
    let mut reader = body_reader(&[0xFD, 0, 0, 0, 0, 0, 0, 0]);
    assert_eq!(reader.parse_entry(), Err(RDBError::IoError));
}

#[test]
fn the_largest_deadlines_are_read() {
    let mut body = vec![0xFD, 0xFF, 0xFF, 0xFF, 0xFF, 0xFF, 0xFF, 0xFF, 0xFF];
    body.extend_from_slice(&[0x00, 0x01, 0x61, 0x01, 0x31]);
    body.extend_from_slice(&[0xFC, 0xFF, 0xFF, 0xFF, 0xFF, 0xFF, 0xFF, 0xFF, 0xFF]);
    body.extend_from_slice(&[0x00, 0x01, 0x62, 0x01, 0x32]);
    let mut reader = body_reader(&body);
    assert_eq!(
        reader.parse_entry(),
        Ok(Some(entry(
            b"a",
            b"1",
            Some(Timestamp {
                secs: u64::MAX,
                nanos: 0
            })
        )))
    );
    assert_eq!(
        reader.parse_entry(),
        Ok(Some(entry(
            b"b",
            b"2",
            Some(Timestamp {
                secs: 18_446_744_073_709_551,
                nanos: 615_000_000
            })
        )))
    );
}

#[test]
fn selects_the_database() {
    let mut reader = body_reader(&[0xFE, 0x03, 0xFE, 0x41, 0x05, 0xFF]);
    assert_eq!(reader.current_db(), 0);
    assert_eq!(reader.parse_entry(), Ok(None));
    assert_eq!(reader.current_db(), 5);
    let mut reader = body_reader(&[0xFE, 0xC3]);
    assert_eq!(reader.parse_entry(), Err(RDBError::InvalidLength));
    assert_eq!(reader.current_db(), 0);
}

#[test]
fn passes_the_sizes_of_the_tables() {
    let mut reader = body_reader(&[0xFB, 0x02, 0x01, 0x00, 0x01, 0x6B, 0xC0, 0x07, 0xFF]);
    assert_eq!(reader.parse_entry(), Ok(Some(entry(b"k", b"7", None))));
    let mut reader = body_reader(&[0xFB, 0x02]);
    assert_eq!(reader.parse_entry(), Err(RDBError::IoError));
}

#[test]
fn values_that_are_no_strings_are_empty() {
    for kind in 1u8..=4 {
        let mut reader = body_reader(&[kind, 0x01, 0x6B, 0xFF]);
        assert_eq!(reader.parse_entry(), Ok(Some(entry(b"k", b"", None))));
        assert_eq!(reader.parse_entry(), Ok(None));
    }
}

#[test]
fn refuses_a_type_that_is_not_known() {
    for kind in [5u8, 9, 0x7F, 0xF9] {
        let mut reader = body_reader(&[kind, 0x01, 0x6B, 0x01, 0x76]);
        assert_eq!(reader.parse_entry(), Err(RDBError::InvalidType));
    }
    let mut reader = body_reader(&[0x05, 0x04, 0x6B]);
    assert_eq!(reader.parse_entry(), Err(RDBError::IoError));
}

#[test]
fn seeds_the_store_from_a_snapshot() {
    let mut store = Store::new(b"data".to_vec(), b"dump.db".to_vec()).unwrap();
    assert_eq!(load_snapshot(&mut store, image(&SEED)), Ok(1));
    assert_eq!(
        store.get(b"foo", 0).unwrap(),
        Some(DataType::String(b"bar".to_vec()))
    );
    assert_eq!(store.get(b"ver", 0).unwrap(), None);
    assert_eq!(
        store.get(b"dir", 0).unwrap(),
        Some(DataType::String(b"data".to_vec()))
    );
}

#[test]
fn a_later_entry_of_a_snapshot_takes_the_place_of_an_earlier() {
    let body = [
        0x00, 0x01, 0x61, 0x01, 0x31, 0xFD, 0, 0, 0, 0, 0, 0, 0, 1, 0x00, 0x01, 0x61, 0x01, 0x32,
        0x00, 0x01, 0x62, 0x01, 0x33, 0xFF,
    ];
    let mut store = Store::new(Vec::new(), Vec::new()).unwrap();
    assert_eq!(load_snapshot(&mut store, image(&body)), Ok(3));
    assert_eq!(
        store.get(b"a", u128::MAX).unwrap(),
        Some(DataType::String(b"2".to_vec()))
    );
    assert_eq!(
        store.get(b"b", u128::MAX).unwrap(),
        Some(DataType::String(b"3".to_vec()))
    );
}

#[test]
fn a_snapshot_that_fails_leaves_the_entries_before_the_failure() {
    let body = [0x00, 0x01, 0x61, 0x01, 0x31, 0x09, 0x01, 0x62, 0x01, 0x32];
    let mut store = Store::new(Vec::new(), Vec::new()).unwrap();
    assert_eq!(
        load_snapshot(&mut store, image(&body)),
        Err(RDBError::InvalidType)
    );
    assert_eq!(
        store.get(b"a", 0).unwrap(),
        Some(DataType::String(b"1".to_vec()))
    );
    assert_eq!(store.get(b"b", 0).unwrap(), None);
    let mut store = Store::new(Vec::new(), Vec::new()).unwrap();
    assert_eq!(
        load_snapshot(&mut store, b"REDIS0003".to_vec()),
        Err(RDBError::UnsupportedVersion)
    );
    assert_eq!(
        load_snapshot(&mut store, b"RED".to_vec()),
        Err(RDBError::IoError)
    );
    assert_eq!(
        load_snapshot(&mut store, b"NOTREDIS0011".to_vec()),
        Err(RDBError::InvalidMagicString)
    );
}

#[test]
fn two_readers_of_the_same_bytes_give_the_same_entries() {
    let mut body = vec![0xFA, 0x01, 0x61, 0xC0, 0x05, 0xFE, 0x01, 0xFB, 0x02, 0x00];
    body.extend_from_slice(&[0xFC, 0, 0, 0, 0, 0, 0, 0x03, 0xE9]);
    body.extend_from_slice(&[0x00, 0x02, 0x6B, 0x31, 0xC1, 0xFF, 0x00]);
    body.extend_from_slice(&[0x02, 0x02, 0x6B, 0x32]);
    body.extend_from_slice(&[0x00, 0x40, 0x02, 0x6B, 0x33, 0x00]);
    body.extend_from_slice(&[0x07, 0x00]);
    let entries = |bytes: Vec<u8>| {
        let mut reader = RDBParser::new(bytes);
        let mut seen = vec![format!("{:?}", reader.parse_header())];
        loop {
            let next = reader.parse_entry();
            seen.push(format!("{:?} in {}", next, reader.current_db()));
            if !matches!(next, Ok(Some(_))) {
                return seen;
            }
        }
    };
    let first = entries(image(&body));
    let second = entries(image(&body));
    assert_eq!(first, second);
    assert_eq!(first.len(), 5);
    assert_eq!(first[4], "Err(InvalidType) in 1");
}

#[test]
fn settings_with_defaults_make_a_configuration() {
    let found = Settings {
        address: Some("127.0.0.1".to_string()),
        port: Some(6379),
        dir: None,
        dbfilename: None,
    };
    assert_eq!(
        load_config(found),
        Ok(AppConfig {
            server: ServerConfig {
                address: "127.0.0.1".to_string(),
                port: 6379
            },
            dir: "data".to_string(),
            dbfilename: "dump.db".to_string(),
        })
    );
    let found = Settings {
        address: Some("::1".to_string()),
        port: Some(1),
        dir: Some("/var/lib".to_string()),
        dbfilename: Some("redis.db".to_string()),
    };
    assert_eq!(
        load_config(found),
        Ok(AppConfig {
            server: ServerConfig {
                address: "::1".to_string(),
                port: 1
            },
            dir: "/var/lib".to_string(),
            dbfilename: "redis.db".to_string(),
        })
    );
}

#[test]
fn settings_without_an_address_or_a_port_make_none() {
    let found = Settings {
        address: None,
        port: None,
        dir: None,
        dbfilename: None,
    };
    assert_eq!(load_config(found), Err(ConfigError::MissingAddress));
    let found = Settings {
        address: Some("localhost".to_string()),
        port: None,
        dir: Some("d".to_string()),
        dbfilename: None,
    };
    assert_eq!(load_config(found), Err(ConfigError::MissingPort));
}

#[test]
fn a_snapshot_file_that_is_not_there_is_no_error() {
    let mut store = Store::new(b"data".to_vec(), b"dump.db".to_vec()).unwrap();
    assert_eq!(init_db(&mut store, SnapshotFile::Missing), Ok(0));
    assert_eq!(
        store.get(b"dir", 0).unwrap(),
        Some(DataType::String(b"data".to_vec()))
    );
    assert_eq!(store.get(b"foo", 0).unwrap(), None);
}

#[test]
fn a_snapshot_that_cannot_be_read_keeps_the_server_from_starting() {
    let mut store = Store::new(Vec::new(), Vec::new()).unwrap();
    assert_eq!(
        init_db(&mut store, SnapshotFile::Unreadable),
        Err(StartError::Io)
    );
    assert_eq!(
        init_db(&mut store, SnapshotFile::Read(b"REDIS0007".to_vec())),
        Err(StartError::Snapshot(RDBError::UnsupportedVersion))
    );
    assert_eq!(
        init_db(&mut store, SnapshotFile::Read(image(&[0x00, 0x01]))),
        Err(StartError::Snapshot(RDBError::IoError))
    );
    assert_eq!(init_db(&mut store, SnapshotFile::Read(image(&SEED))), Ok(1));
    assert_eq!(
        store.get(b"foo", 0).unwrap(),
        Some(DataType::String(b"bar".to_vec()))
    );
}

#[test]
fn the_acceptor_handles_clients_until_it_is_told_to_stop() {
    let mut acceptor = Acceptor::new();
    assert!(acceptor.accepting);
    assert_eq!(acceptor.on(Event::Connection), Action::Handle);
    assert_eq!(acceptor.on(Event::AcceptError), Action::Continue);
    assert_eq!(acceptor.on(Event::Connection), Action::Handle);
    assert!(acceptor.accepting);
    assert_eq!(acceptor.on(Event::Shutdown), Action::Stop);
    assert!(!acceptor.accepting);
    assert_eq!(acceptor.on(Event::Connection), Action::Stop);
    assert_eq!(acceptor.on(Event::AcceptError), Action::Stop);
    assert_eq!(acceptor.on(Event::Shutdown), Action::Stop);
    assert!(!acceptor.accepting);
}
