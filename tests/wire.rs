use lsm_engine::config::{parse_bool, parse_decimal, segment_file_id, wal_path, StoreArgs};
use lsm_engine::protocol::{decode_request, encode_request, encode_response, Command, ProtocolError};

#[test]
fn command_indicators() {
    assert_eq!(Command::from_u8_opt(1), Some(Command::Get));
    assert_eq!(Command::from_u8_opt(2), Some(Command::Put));
    assert_eq!(Command::from_u8_opt(3), Some(Command::Delete));
    assert_eq!(Command::from_u8_opt(0), None);
    assert_eq!(Command::from_u8_opt(9), None);
    assert_eq!(Command::Delete.indicator(), 3);
}

#[test]
fn set_request_round_trip() {
    let bytes = encode_request(Command::Put, b"k", b"v");
    assert_eq!(bytes, vec![2, 0, 0, 0, 1, b'k', 0, 0, 0, 1, b'v']);
    let (req, n) = decode_request(&bytes).unwrap();
    assert_eq!(req.command, Command::Put);
    assert_eq!(req.key, b"k".to_vec());
    assert_eq!(req.value, Some(b"v".to_vec()));
    assert_eq!(n, bytes.len());
}

#[test]
fn get_request_carries_key_only() {
    let mut bytes = encode_request(Command::Get, b"key", b"ignored");
    assert_eq!(bytes.len(), 8);
    bytes.extend([7, 7, 7]);
    let (req, n) = decode_request(&bytes).unwrap();
    assert_eq!(req.command, Command::Get);
    assert_eq!(req.key, b"key".to_vec());
    assert_eq!(req.value, None);
    assert_eq!(n, 8);
}

#[test]
fn unknown_indicator_is_rejected() {
    assert_eq!(decode_request(&[9, 0, 0, 0, 1, b'k']).err(), Some(ProtocolError::UnknownCommand(9)));
    assert_eq!(decode_request(&[9]).err(), Some(ProtocolError::UnknownCommand(9)));
}

#[test]
fn truncated_request_is_incomplete() {
    assert_eq!(decode_request(&[]).err(), Some(ProtocolError::Incomplete));
    assert_eq!(decode_request(&[1, 0, 0]).err(), Some(ProtocolError::Incomplete));
    assert_eq!(decode_request(&[2, 0, 0, 0, 1, b'k', 0, 0, 0, 2, b'v']).err(), Some(ProtocolError::Incomplete));
}

#[test]
fn responses() {
    assert_eq!(encode_response(true, None), vec![1]);
    assert_eq!(encode_response(false, None), vec![0]);
    assert_eq!(encode_response(true, Some(b"ab")), vec![1, 0, 0, 0, 2, b'a', b'b']);
}

#[test]
fn decimal_and_bool_parsing() {
    assert_eq!(parse_decimal(b"600"), Some(600));
    assert_eq!(parse_decimal(b"18446744073709551615"), Some(u64::MAX));
    assert_eq!(parse_decimal(b"18446744073709551616"), None);
    assert_eq!(parse_decimal(b""), None);
    assert_eq!(parse_decimal(b"12a"), None);
    assert_eq!(parse_bool(b"true"), Some(true));
    assert_eq!(parse_bool(b"false"), Some(false));
    assert_eq!(parse_bool(b"yes"), None);
}

#[test]
fn segment_file_names() {
    assert_eq!(segment_file_id(b"segment-12.dat"), Some(12));
    assert_eq!(segment_file_id(b"segment-0.dat"), Some(0));
    assert_eq!(segment_file_id(b"segment-.dat"), None);
    assert_eq!(segment_file_id(b"segment-1.txt"), None);
    assert_eq!(segment_file_id(b"wal.dat"), None);
    assert_eq!(wal_path(b"/tmp/db"), b"/tmp/db/wal.dat".to_vec());
}

#[test]
fn store_args_defaults_and_settings() {
    let d = StoreArgs::default();
    assert!(d.compaction_enabled);
    assert_eq!(d.compaction_interval_seconds, 600);
    assert_eq!(StoreArgs::from_env(None, None), d);
    let a = StoreArgs::from_env(Some(b"false"), Some(b"30"));
    assert!(!a.compaction_enabled);
    assert_eq!(a.compaction_interval_seconds, 30);
    let bad = StoreArgs::from_env(Some(b"maybe"), Some(b"-1"));
    assert_eq!(bad, d);
}
