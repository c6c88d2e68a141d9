use ironlog::codec::CodecError;
use ironlog::entry::{checksum_input_bytes, compute_checksum};
use ironlog::{verify_checksum, Operation, WalEntry};

fn entry(op: Operation, key: &str, value: &str, timestamp: i64, tx: &str) -> WalEntry {
    WalEntry::with_fields(op, key.to_string(), value.to_string(), timestamp, tx.to_string())
}

#[test]
fn checksum_input_is_pipe_delimited() {
    let bytes = checksum_input_bytes("name", "bahoz", -42, "abc", Operation::Update);
    assert_eq!(bytes, b"name|bahoz|-42|abc|Update".to_vec());
    let bytes = checksum_input_bytes("", "", 0, "", Operation::Delete);
    assert_eq!(bytes, b"||0||Delete".to_vec());
    let bytes = checksum_input_bytes("k", "v", i64::MIN, "t", Operation::Insert);
    assert_eq!(bytes, b"k|v|-9223372036854775808|t|Insert".to_vec());
}

#[test]
fn checksum_is_crc32_of_the_input() {
    let expected = checksum::crc32::Crc32::new().checksum(b"k|v|1|t|Update");
    assert_eq!(compute_checksum("k", "v", 1, "t", Operation::Update), expected);
    assert_ne!(
        compute_checksum("k", "v", 1, "t", Operation::Update),
        compute_checksum("k", "v", 1, "t", Operation::Insert)
    );
}

#[test]
fn new_entries_are_sealed() {
    let e = WalEntry::new(Operation::Insert, String::from("name"), String::from("bahoz"));
    assert_eq!(e.key, "name");
    assert_eq!(e.value, "bahoz");
    assert_eq!(e.operation, Operation::Insert);
    assert_eq!(e.transaction_id.len(), 36);
    assert!(verify_checksum(&e));
    let other = WalEntry::new(Operation::Insert, String::from("name"), String::from("bahoz"));
    assert_ne!(e.transaction_id, other.transaction_id);
}

#[test]
fn changing_any_field_breaks_the_seal() {
    let base = || entry(Operation::Insert, "age", "22", 1_700_000_000, "tx-1");
    assert!(verify_checksum(&base()));
    let mut e = base();
    e.key = String::from("agf");
    assert!(!verify_checksum(&e));
    let mut e = base();
    e.value = String::from("23");
    assert!(!verify_checksum(&e));
    let mut e = base();
    e.timestamp += 1;
    assert!(!verify_checksum(&e));
    let mut e = base();
    e.transaction_id = String::from("tx-2");
    assert!(!verify_checksum(&e));
    let mut e = base();
    e.operation = Operation::Delete;
    assert!(!verify_checksum(&e));
    let mut e = base();
    e.checksum ^= 1;
    assert!(!verify_checksum(&e));
}

#[test]
fn record_bytes_follow_the_format() {
    let mut e = entry(Operation::Update, "k", "vv", 1, "t");
    e.checksum = 0x0403_0201;
    let bytes = e.to_bytes().unwrap();
    let mut expected: Vec<u8> = Vec::new();
    expected.extend_from_slice(&[1, 0, 0, 0, 0, 0, 0, 0, b'k']);
    expected.extend_from_slice(&[2, 0, 0, 0, 0, 0, 0, 0, b'v', b'v']);
    expected.extend_from_slice(&[1, 0, 0, 0, 0, 0, 0, 0]);
    expected.extend_from_slice(&[1, 0, 0, 0, 0, 0, 0, 0, b't']);
    expected.extend_from_slice(&[1, 0, 0, 0]);
    expected.extend_from_slice(&[1, 2, 3, 4]);
    assert_eq!(bytes, expected);
    let mut n = entry(Operation::Delete, "", "", -1, "");
    n.checksum = 0;
    let bytes = n.to_bytes().unwrap();
    assert_eq!(bytes.len(), 40);
    assert_eq!(&bytes[16..24], &[0xff; 8]);
    assert_eq!(&bytes[32..36], &[2, 0, 0, 0]);
}

#[test]
fn record_bytes_escape_line_breaks() {
    let mut e = entry(Operation::Insert, "0123456789", "", 13, "");
    e.checksum = 0x0D00_5C0A;
    let bytes = e.to_bytes().unwrap();
    let mut expected: Vec<u8> = vec![b'\\', b'n', 0, 0, 0, 0, 0, 0, 0];
    expected.extend_from_slice(b"0123456789");
    expected.extend_from_slice(&[0; 8]);
    expected.extend_from_slice(&[b'\\', b'r', 0, 0, 0, 0, 0, 0, 0]);
    expected.extend_from_slice(&[0; 8]);
    expected.extend_from_slice(&[0, 0, 0, 0]);
    expected.extend_from_slice(&[b'\\', b'n', b'\\', b'\\', 0, b'\\', b'r']);
    assert_eq!(bytes, expected);
    assert_eq!(WalEntry::from_bytes(&bytes), Ok(e));
    assert_eq!(WalEntry::from_bytes(b"\\x"), Err(CodecError::Decode));
    assert_eq!(WalEntry::from_bytes(b"ab\ncd"), Err(CodecError::Decode));
}

#[test]
fn decoding_then_encoding_gives_the_same_bytes() {
    let e = WalEntry::new(Operation::Delete, String::from("gender"), String::from("male"));
    let bytes = e.to_bytes().unwrap();
    let back = WalEntry::from_bytes(&bytes).unwrap();
    assert_eq!(back.to_bytes().unwrap(), bytes);
}

#[test]
fn records_round_trip() {
    let cases = vec![
        entry(Operation::Insert, "name", "bahoz", 1_700_000_000, "5f1c"),
        entry(Operation::Update, "", "", i64::MIN, ""),
        entry(Operation::Delete, "ключ", "значение ✓", i64::MAX, "x"),
        WalEntry::new(Operation::Insert, String::from("hobby"), String::from("coding")),
    ];
    for e in cases {
        let bytes = e.to_bytes().unwrap();
        let back = WalEntry::from_bytes(&bytes).unwrap();
        assert_eq!(back, e);
        assert!(verify_checksum(&back));
    }
}

#[test]
fn malformed_records_are_rejected() {
    let mut e = entry(Operation::Insert, "name", "bahoz", 5, "tx");
    e.checksum = 0x0101_0101;
    let bytes = e.to_bytes().unwrap();
    assert_eq!(WalEntry::from_bytes(&bytes[..bytes.len() - 1]), Err(CodecError::Decode));
    assert_eq!(WalEntry::from_bytes(&[]), Err(CodecError::Decode));
    let mut longer = bytes.clone();
    longer.push(0);
    assert_eq!(WalEntry::from_bytes(&longer), Err(CodecError::Decode));
    let mut bad_op = bytes.clone();
    let at = bad_op.len() - 8;
    assert_eq!(bad_op[at], 0);
    bad_op[at] = 3;
    assert_eq!(WalEntry::from_bytes(&bad_op), Err(CodecError::Decode));
    let mut bad_utf8 = bytes.clone();
    bad_utf8[8] = 0xff;
    assert_eq!(WalEntry::from_bytes(&bad_utf8), Err(CodecError::Decode));
}
