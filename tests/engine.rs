use lsm_engine::codec::{decode_record, encode_segment};
use lsm_engine::compaction::merge_runs;
use lsm_engine::memtable::Memtable;
use lsm_engine::order::{compare_keys, KeyOrder};
use lsm_engine::segment::Segment;
use lsm_engine::store::Store;
use lsm_engine::wal::{encode_assignment, parse_log, replay, WalError};

fn b(s: &str) -> Vec<u8> {
    s.as_bytes().to_vec()
}

fn memtable_of(pairs: &[(&str, &str)]) -> Memtable {
    let mut m = Memtable::new();
    for (k, v) in pairs {
        m.set(b(k), b(v));
    }
    m
}

#[test]
fn compare_keys_orders_bytes() {
    assert_eq!(compare_keys(b"a", b"b"), KeyOrder::Less);
    assert_eq!(compare_keys(b"ab", b"a"), KeyOrder::Greater);
    assert_eq!(compare_keys(b"", b"a"), KeyOrder::Less);
    assert_eq!(compare_keys(b"abc", b"abc"), KeyOrder::Equal);
}

#[test]
fn memtable_keeps_keys_sorted_and_overwrites() {
    let m = memtable_of(&[("c", "3"), ("a", "1"), ("b", "2"), ("a", "9")]);
    assert_eq!(m.len(), 3);
    let keys: Vec<Vec<u8>> = m.entries().iter().map(|e| e.0.clone()).collect();
    assert_eq!(keys, vec![b("a"), b("b"), b("c")]);
    assert_eq!(m.get(b"a"), Some(b("9")));
    assert_eq!(m.get(b"z"), None);
    assert!(Memtable::new().is_empty());
}

#[test]
fn segment_encoding_is_length_prefixed() {
    let m = memtable_of(&[("k", "vv")]);
    let data = encode_segment(m.entries());
    assert_eq!(data, vec![0, 0, 0, 1, b'k', 0, 0, 0, 2, b'v', b'v']);
    let (k, v, next) = decode_record(&data, 0).unwrap();
    assert_eq!((k, v, next), (b("k"), b("vv"), 11));
    assert!(decode_record(&data[..10], 0).is_none());
}

#[test]
fn segment_round_trip() {
    let m = memtable_of(&[("apple", "red"), ("banana", "yellow"), ("cherry", "dark"), ("date", "brown")]);
    let seg = Segment::load(1, encode_segment(m.entries()), 2).unwrap();
    for key in ["apple", "banana", "cherry", "date"] {
        assert_eq!(seg.get(key.as_bytes()), m.get(key.as_bytes()));
    }
    assert_eq!(seg.get(b"avocado"), None);
    assert_eq!(seg.get(b"zzz"), None);
    assert_eq!(seg.get(b""), None);
    let info = seg.inspect();
    assert_eq!(info.records, 4);
    assert_eq!(info.samples, 2);
    assert_eq!(seg.entries().len(), 4);
}

#[test]
fn segment_rejects_unsorted_or_truncated_images() {
    let mut data = Vec::new();
    for k in ["b", "a"] {
        let m = memtable_of(&[(k, "1")]);
        data.extend(encode_segment(m.entries()));
    }
    assert!(Segment::load(1, data, 4).is_none());
    let m = memtable_of(&[("a", "1")]);
    let mut cut = encode_segment(m.entries());
    cut.pop();
    assert!(Segment::load(1, cut, 4).is_none());
    assert!(Segment::load(1, Vec::new(), 4).is_some());
}

#[test]
fn sparse_index_never_overshoots() {
    let m = memtable_of(&[("a", "1"), ("c", "2"), ("e", "3"), ("g", "4")]);
    let seg = Segment::load(1, encode_segment(m.entries()), 2).unwrap();
    // each record here is 10 bytes: "c" starts at 10, "e" at 20
    let offset_of_c = 10;
    assert!(seg.index().lookup(b"d") <= offset_of_c);
    assert_eq!(seg.index().lookup(b"d"), 0);
    assert_eq!(seg.index().lookup(b"0"), 0);
    assert_eq!(seg.index().lookup(b"f"), 20);
    assert_eq!(seg.index().lookup(b"z"), 20);
    assert_eq!(seg.get(b"d"), None);
    assert_eq!(seg.get(b"g"), Some(b("4")));
}

#[test]
fn merge_prefers_newer_run() {
    let older = memtable_of(&[("a", "1"), ("b", "2")]);
    let newer = memtable_of(&[("a", "3"), ("c", "4")]);
    let merged = merge_runs(older.entries(), newer.entries());
    assert_eq!(merged, vec![(b("a"), b("3")), (b("b"), b("2")), (b("c"), b("4"))]);
}

#[test]
fn newest_segment_wins() {
    let mut store = Store::new();
    assert_eq!(store.write_memtable(&memtable_of(&[("a", "1")])), Some(1));
    assert_eq!(store.write_memtable(&memtable_of(&[("a", "2")])), Some(2));
    assert_eq!(store.get(b"a"), Some(b("2")));
    assert_eq!(store.get(b"b"), None);
}

#[test]
fn crash_recovery_replays_unflushed_writes() {
    let mut store = Store::new();
    store.write_memtable(&memtable_of(&[("a", "1")]));
    store.write_ahead(b"x", b"y").unwrap();
    let files: Vec<(u64, Vec<u8>)> =
        store.segments().iter().map(|s| (s.id(), s.data().clone())).collect();
    let reopened = Store::open(&files, store.wal().clone());
    let mut m = Memtable::new();
    reopened.replay_wal(&mut m).unwrap();
    assert_eq!(m.get(b"x"), Some(b("y")));
    assert_eq!(m.len(), 1);
    assert_eq!(reopened.get(b"a"), Some(b("1")));
}

#[test]
fn wal_cleared_after_flush() {
    let mut store = Store::new();
    store.write_ahead(b"k", b"v").unwrap();
    assert_eq!(store.wal(), &b("k=v\n"));
    store.write_memtable(&memtable_of(&[("k", "v")]));
    assert!(store.wal().is_empty());
    let mut m = Memtable::new();
    store.replay_wal(&mut m).unwrap();
    assert_eq!(m.len(), 0);
}

#[test]
fn compaction_keeps_newest_values() {
    let mut store = Store::new();
    store.write_memtable(&memtable_of(&[("a", "1"), ("b", "2")]));
    store.write_memtable(&memtable_of(&[("a", "3"), ("c", "4")]));
    let (id, image) = store.compaction_image().unwrap();
    assert_eq!(id, 3);
    let merged = Segment::load(id, image, 4).unwrap();
    assert_eq!(merged.get(b"a"), Some(b("3")));
    assert_eq!(store.get(b"a"), Some(b("3")));
    assert_eq!(store.next_segment_id(), 3);
    let done = store.compact().unwrap();
    assert_eq!(done.removed, vec![1, 2]);
    assert_eq!(done.id, 3);
    assert_eq!(store.get(b"a"), Some(b("3")));
    assert_eq!(store.get(b"b"), Some(b("2")));
    assert_eq!(store.get(b"c"), Some(b("4")));
    let ids: Vec<u64> = store.segments().iter().map(|s| s.id()).collect();
    assert_eq!(ids, vec![3]);
    assert!(store.compact().is_none());
    assert_eq!(store.write_memtable(&memtable_of(&[("d", "5")])), Some(4));
}

#[test]
fn open_sorts_segments_by_id_and_skips_bad_images() {
    let old = encode_segment(memtable_of(&[("a", "old")]).entries());
    let new = encode_segment(memtable_of(&[("a", "new")]).entries());
    let files = vec![(10, new), (2, old), (5, vec![0, 0, 9])];
    let store = Store::open(&files, Vec::new());
    let ids: Vec<u64> = store.segments().iter().map(|s| s.id()).collect();
    assert_eq!(ids, vec![2, 10]);
    assert_eq!(store.get(b"a"), Some(b("new")));
    let mut store = store;
    assert_eq!(store.write_memtable(&Memtable::new()), Some(11));
}

#[test]
fn inspect_segment_by_file_name() {
    let mut store = Store::new();
    store.write_memtable(&memtable_of(&[("a", "1"), ("b", "2")]));
    let info = store.inspect_segment(b"segment-1.dat").unwrap();
    assert_eq!(info.records, 2);
    assert_eq!(info.id, 1);
    assert!(store.inspect_segment(b"segment-7.dat").is_none());
    assert!(store.inspect_segment(b"wal.dat").is_none());
}

#[test]
fn wal_line_format_and_errors() {
    assert_eq!(encode_assignment(b"key", b"a=b").unwrap(), b("key=a=b\n"));
    assert_eq!(encode_assignment(b"k=1", b"v"), Err(WalError::InvalidKey));
    assert_eq!(encode_assignment(b"k\n", b"v"), Err(WalError::InvalidKey));
    assert_eq!(encode_assignment(b"k", b"v\n"), Err(WalError::InvalidValue));
    let mut store = Store::new();
    assert_eq!(store.write_ahead(b"a=b", b"c"), Err(WalError::InvalidKey));
    assert!(store.wal().is_empty());
}

#[test]
fn wal_replay_later_lines_override() {
    let parsed = parse_log(b"a=1\nb=2\na=3\n").unwrap();
    assert_eq!(parsed, vec![(b("a"), b("1")), (b("b"), b("2")), (b("a"), b("3"))]);
    let mut m = Memtable::new();
    replay(b"a=1\nb=2\na=3\nc=x=y", &mut m).unwrap();
    assert_eq!(m.get(b"a"), Some(b("3")));
    assert_eq!(m.get(b"b"), Some(b("2")));
    assert_eq!(m.get(b"c"), Some(b("x=y")));
}

#[test]
fn wal_replay_rejects_corrupt_line() {
    let mut m = memtable_of(&[("keep", "1")]);
    assert_eq!(replay(b"a=1\ngarbage\n", &mut m), Err(WalError::Corrupt));
    assert_eq!(m.len(), 1);
    assert_eq!(m.get(b"a"), None);
    assert_eq!(parse_log(b"\n"), Err(WalError::Corrupt));
    assert_eq!(parse_log(b"").unwrap().len(), 0);
}
