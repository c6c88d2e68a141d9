use ironlog::{
    apply_changes, decode_segment, frame_record, plan_segments, read_segment, should_rotate,
    verified_entries, Flusher, Operation, RecordingSink, ReplayOutcome, WalConfig, WalEntry,
};
use std::time::Duration;

fn entry(op: Operation, key: &str, value: &str, timestamp: i64, tx: &str) -> WalEntry {
    WalEntry::with_fields(op, key.to_string(), value.to_string(), timestamp, tx.to_string())
}

fn five_entries() -> Vec<WalEntry> {
    vec![
        entry(Operation::Insert, "name", "bahoz", 1_700_000_000, "tx-0"),
        entry(Operation::Insert, "age", "22", 1_700_000_001, "tx-1"),
        entry(Operation::Insert, "gender", "male", 1_700_000_002, "tx-2"),
        entry(Operation::Insert, "hobby", "coding", 1_700_000_003, "tx-3"),
        entry(Operation::Insert, "hobby", "reading", 1_700_000_004, "tx-4"),
    ]
}

/// Appends the entries as the writer does, to in-memory segments: the
/// starting one first, then one more for each rotation.
fn append_all(entries: &[WalEntry], max_log_size: u64) -> Vec<Vec<u8>> {
    let mut segments: Vec<Vec<u8>> = vec![Vec::new()];
    for e in entries {
        let record = e.to_bytes().unwrap();
        let size = segments.last().unwrap().len() as u64;
        if should_rotate(size, record.len(), max_log_size) {
            segments.push(Vec::new());
        }
        segments.last_mut().unwrap().extend_from_slice(&frame_record(record));
    }
    segments
}

struct Recorder {
    seen: Vec<(String, String)>,
    fail_on: Option<String>,
}

impl Flusher for Recorder {
    fn flush(&mut self, entry: WalEntry) -> std::io::Result<()> {
        self.seen.push((entry.key.clone(), entry.value.clone()));
        if self.fail_on.as_deref() == Some(entry.key.as_str()) {
            return Err(std::io::Error::new(std::io::ErrorKind::Other, "sink down"));
        }
        Ok(())
    }
}

#[test]
fn rotation_is_decided_before_each_record() {
    assert!(!should_rotate(0, 9, 10));
    assert!(should_rotate(0, 10, 10));
    assert!(should_rotate(90, 10, 100));
    assert!(!should_rotate(89, 10, 100));
    assert!(should_rotate(u64::MAX, 1, u64::MAX));
    assert!(!should_rotate(0, 0, 1));
}

#[test]
fn framing_appends_one_newline() {
    assert_eq!(frame_record(vec![1, 2, 3]), vec![1, 2, 3, 10]);
    assert_eq!(frame_record(Vec::new()), vec![10]);
}

#[test]
fn rotation_boundary_splits_the_batch() {
    let entries = five_entries();
    let lens: Vec<u64> = entries.iter().map(|e| e.to_bytes().unwrap().len() as u64).collect();
    let first_two = lens[0] + 1 + lens[1] + 1;
    let max = first_two + lens[2] - 1;
    let segments = append_all(&entries, max);
    let first = &segments[0];
    let in_first = decode_segment(first);
    let in_rotated = decode_segment(&segments[1]);
    assert_eq!(in_first.len(), 2);
    assert_eq!(in_first[0], entries[0]);
    assert_eq!(in_first[1], entries[1]);
    assert_eq!(first.len() as u64, first_two);
    assert_eq!(in_rotated[0].key, "gender");
    let total: usize = segments.iter().map(|s| decode_segment(s).len()).sum();
    assert_eq!(total, 5);
}

#[test]
fn truncated_line_is_dropped() {
    let entries = five_entries();
    let mut segment: Vec<u8> = Vec::new();
    for (i, e) in entries.iter().enumerate() {
        let record = e.to_bytes().unwrap();
        if i == 2 {
            segment.extend_from_slice(&record[..record.len() / 2]);
            segment.push(10);
        } else {
            segment.extend_from_slice(&frame_record(record));
        }
    }
    let decoded = decode_segment(&segment);
    let keys: Vec<&str> = decoded.iter().map(|e| e.key.as_str()).collect();
    assert_eq!(keys, vec!["name", "age", "hobby", "hobby"]);
    assert_eq!(decoded[3].value, "reading");
}

#[test]
fn records_with_newline_and_cr_bytes_survive_framing() {
    let mut e = entry(Operation::Update, "ten-chars!", "\r\n\\", 10, "t");
    e.checksum = 0x0D0A_5C0A;
    let record = e.to_bytes().unwrap();
    assert!(!record.contains(&10));
    assert!(!record.contains(&13));
    let mut lf: Vec<u8> = Vec::new();
    let mut crlf: Vec<u8> = Vec::new();
    for _ in 0..2 {
        lf.extend_from_slice(&frame_record(record.clone()));
        crlf.extend_from_slice(&record);
        crlf.extend_from_slice(&[13, 10]);
    }
    let from_lf = decode_segment(&lf);
    assert_eq!(from_lf.len(), 2);
    assert_eq!(from_lf[0], e);
    assert_eq!(from_lf, decode_segment(&crlf));
}

#[test]
fn carriage_returns_before_newlines_are_tolerated() {
    let e = entry(Operation::Update, "k", "v", 9, "t");
    let mut segment = e.to_bytes().unwrap();
    segment.extend_from_slice(&[13, 10]);
    let decoded = decode_segment(&segment);
    assert_eq!(decoded.len(), 1);
    assert_eq!(decoded[0], e);
    assert!(decode_segment(&[]).is_empty());
}

#[test]
fn replay_forwards_only_sealed_entries() {
    let mut entries = five_entries();
    entries[1].value = String::from("99");
    let passed = verified_entries(entries);
    let keys: Vec<&str> = passed.iter().map(|e| e.key.as_str()).collect();
    assert_eq!(keys, vec!["name", "gender", "hobby", "hobby"]);
}

#[test]
fn sink_failure_does_not_stop_replay() {
    let mut sink = Recorder { seen: Vec::new(), fail_on: Some(String::from("name")) };
    let outcomes = apply_changes(five_entries(), &mut sink);
    assert_eq!(sink.seen.len(), 5);
    assert_eq!(outcomes[0], ReplayOutcome::FlushFailed(String::from("tx-0")));
    for (i, o) in outcomes.iter().enumerate().skip(1) {
        assert_eq!(*o, ReplayOutcome::Flushed(format!("tx-{}", i)));
    }
}

#[test]
fn tampered_entry_is_reported_and_never_flushed() {
    let mut entries = five_entries();
    entries[2].key = String::from("sex");
    let mut sink = RecordingSink::new();
    let outcomes = apply_changes(entries, &mut sink);
    let keys: Vec<&str> = sink.entries.iter().map(|e| e.key.as_str()).collect();
    assert_eq!(keys, vec!["name", "age", "hobby", "hobby"]);
    assert_eq!(outcomes.len(), 5);
    assert_eq!(outcomes[2], ReplayOutcome::ChecksumMismatch(String::from("tx-2")));
    assert_eq!(outcomes[3], ReplayOutcome::Flushed(String::from("tx-3")));
}

#[test]
fn segments_are_planned_per_record() {
    assert_eq!(plan_segments(&vec![4, 4, 4, 4], 0, 10), vec![0, 0, 1, 1]);
    assert_eq!(plan_segments(&vec![4, 4, 4, 4], 6, 10), vec![1, 1, 2, 2]);
    assert_eq!(plan_segments(&vec![20, 1], 0, 10), vec![1, 2]);
    assert_eq!(plan_segments(&Vec::new(), 0, 10), Vec::<usize>::new());
}

#[test]
fn skipped_lines_are_counted() {
    let entries = five_entries();
    let mut segment: Vec<u8> = Vec::new();
    segment.extend_from_slice(&frame_record(entries[0].to_bytes().unwrap()));
    segment.extend_from_slice(b"garbage\n\r\n");
    segment.extend_from_slice(&frame_record(entries[1].to_bytes().unwrap()));
    segment.extend_from_slice(b"tail");
    let (decoded, skipped) = read_segment(&segment);
    assert_eq!(decoded.len(), 2);
    assert_eq!(skipped, 2);
}

#[test]
fn end_to_end_append_rotate_replay() {
    let entries = five_entries();
    let segments = append_all(&entries, 150);
    assert_eq!(segments.len(), 3);
    let lens: Vec<usize> = entries.iter().map(|e| e.to_bytes().unwrap().len()).collect();
    assert_eq!(plan_segments(&lens, 0, 150), vec![0, 0, 1, 1, 2]);
    let mut sink = Recorder { seen: Vec::new(), fail_on: None };
    for segment in segments {
        apply_changes(decode_segment(&segment), &mut sink);
    }
    let expected: Vec<(String, String)> = [
        ("name", "bahoz"),
        ("age", "22"),
        ("gender", "male"),
        ("hobby", "coding"),
        ("hobby", "reading"),
    ]
    .iter()
    .map(|(k, v)| (k.to_string(), v.to_string()))
    .collect();
    assert_eq!(sink.seen, expected);
}

#[test]
fn config_keeps_its_settings() {
    let config = WalConfig::new(Duration::new(30, 0), 1024);
    assert_eq!(config.flush_interval, Duration::from_secs(30));
    assert_eq!(config.max_log_size, 1024);
}
