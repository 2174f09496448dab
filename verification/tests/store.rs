use rcask::codec::{encode_record, parse_record_at, read_record_checked};
use rcask::engine::{
    format_suffix, latest_suffix_position, next_suffix, parse_segment_name, segment_file_name,
    RCask,
};
use rcask::segment::KVStore;
use rcask::KvError;

fn fresh_engine(max_writes: u64) -> RCask {
    RCask::init(String::from("./data"), String::from("seg"), max_writes, Vec::new())
}

#[test]
fn set_then_get_round_trip() {
    let mut store = fresh_engine(100);
    store.set(b"key1", b"value1");
    assert_eq!(store.get("key1"), Ok(Some(String::from("value1"))));
    assert_eq!(store.get("missing"), Ok(None));
}

#[test]
fn last_write_wins() {
    let mut store = fresh_engine(100);
    store.set(b"k", b"v1");
    store.set(b"k", b"v2");
    assert_eq!(store.get("k"), Ok(Some(String::from("v2"))));
}

#[test]
fn empty_key_and_value() {
    let mut store = fresh_engine(100);
    store.set(b"", b"");
    assert_eq!(store.get(""), Ok(Some(String::new())));
}

#[test]
fn non_ascii_value_round_trip() {
    let mut store = fresh_engine(100);
    store.set(b"greeting", "héllo wörld".as_bytes());
    assert_eq!(store.get("greeting"), Ok(Some(String::from("héllo wörld"))));
}

#[test]
fn invalid_encoding_reported() {
    let mut store = fresh_engine(100);
    store.set(b"binary", &[0xff, 0xfe, 0x00]);
    assert_eq!(store.get("binary"), Err(KvError::InvalidEncoding));
}

#[test]
fn reload_preserves_contents() {
    let mut seg = KVStore::new(Vec::new());
    seg.set(b"a", b"1");
    seg.set(b"b", b"2");
    seg.set(b"a", b"3");
    let bytes = seg.log_bytes().clone();
    let reloaded = KVStore::new(bytes);
    assert_eq!(reloaded.get(b"a"), Ok(Some(String::from("3"))));
    assert_eq!(reloaded.get(b"b"), Ok(Some(String::from("2"))));
    assert_eq!(reloaded.get(b"c"), Ok(None));
}

#[test]
fn load_rebuilds_index_in_place() {
    let mut seg = KVStore::new(Vec::new());
    seg.set(b"x", b"old");
    seg.set(b"x", b"new");
    seg.load();
    assert_eq!(seg.get(b"x"), Ok(Some(String::from("new"))));
}

#[test]
fn truncated_tail_tolerated() {
    let mut log = encode_record(b"alpha", b"one");
    let mut second = encode_record(b"beta", b"two");
    log.append(&mut second);
    // a partial record: the prefix declares a 5-byte key, only 2 follow
    log.extend_from_slice(&5u64.to_le_bytes());
    log.extend_from_slice(b"ab");
    let store = KVStore::new(log);
    assert_eq!(store.get(b"alpha"), Ok(Some(String::from("one"))));
    assert_eq!(store.get(b"beta"), Ok(Some(String::from("two"))));
    assert_eq!(store.get(b"ab"), Ok(None));
}

#[test]
fn corruption_detected_on_key_mismatch() {
    let log = encode_record(b"alpha", b"one");
    let r = read_record_checked(&log, 0, b"beta");
    assert_eq!(r, Err(KvError::DataCorruption));
}

#[test]
fn matching_key_reads_value() {
    let log = encode_record(b"alpha", b"one");
    let r = read_record_checked(&log, 0, b"alpha");
    assert_eq!(r, Ok(Some(b"one".to_vec())));
}

#[test]
fn incomplete_record_reads_as_absent() {
    let r = read_record_checked(&[5u8, 0, 0, 0, 0, 0, 0, 0, b'a'], 0, b"a");
    assert_eq!(r, Ok(None));
}

#[test]
fn compaction_scenario() {
    let mut store = fresh_engine(3);
    assert!(!store.set(b"key1", b"value1"));
    assert!(!store.set(b"key2", b"value2"));
    assert!(store.set(b"key1", b"v1b"));
    assert_eq!(store.writes(), 0);
    assert_eq!(store.get("key1"), Ok(Some(String::from("v1b"))));
    assert_eq!(store.get("key2"), Ok(Some(String::from("value2"))));
    // the compacted log holds exactly two records, one per live key
    let log = store.log_bytes();
    let mut keys: Vec<Vec<u8>> = Vec::new();
    let mut pos = 0usize;
    while let Some((key, _value, end)) = parse_record_at(log.as_slice(), pos) {
        keys.push(key);
        pos = end;
    }
    assert_eq!(pos, log.len());
    keys.sort();
    assert_eq!(keys, vec![b"key1".to_vec(), b"key2".to_vec()]);
}

#[test]
fn compaction_preserves_live_state() {
    let mut store = fresh_engine(4);
    store.set(b"a", b"1");
    store.set(b"b", b"2");
    store.set(b"a", b"3");
    assert_eq!(store.get("a"), Ok(Some(String::from("3"))));
    assert_eq!(store.get("b"), Ok(Some(String::from("2"))));
    let compacted = store.set(b"c", b"4");
    assert!(compacted);
    assert_eq!(store.get("a"), Ok(Some(String::from("3"))));
    assert_eq!(store.get("b"), Ok(Some(String::from("2"))));
    assert_eq!(store.get("c"), Ok(Some(String::from("4"))));
    assert_eq!(store.get("d"), Ok(None));
}

#[test]
fn write_counter_and_limits() {
    let mut store = fresh_engine(10);
    assert_eq!(store.writes(), 0);
    assert_eq!(store.max_writes(), 10);
    store.set(b"a", b"1");
    assert_eq!(store.writes(), 1);
    let default_store = RCask::new(String::from("./data"), String::from("seg"), Vec::new());
    assert_eq!(default_store.max_writes(), 10000);
    assert_eq!(default_store.directory().as_str(), "./data");
    assert_eq!(default_store.pattern().as_str(), "seg");
}

#[test]
fn get_all_key_values_returns_live_pairs() {
    let mut seg = KVStore::new(Vec::new());
    seg.set(b"a", b"1");
    seg.set(b"b", b"2");
    seg.set(b"a", b"3");
    let mut pairs = seg.get_all_key_values();
    pairs.sort();
    assert_eq!(
        pairs,
        vec![(b"a".to_vec(), b"3".to_vec()), (b"b".to_vec(), b"2".to_vec())]
    );
}

#[test]
fn record_encoding_layout() {
    let rec = encode_record(b"k", b"v");
    assert_eq!(
        rec,
        vec![1, 0, 0, 0, 0, 0, 0, 0, b'k', 1, 0, 0, 0, 0, 0, 0, 0, b'v']
    );
    let parsed = parse_record_at(&rec, 0);
    assert_eq!(parsed, Some((b"k".to_vec(), b"v".to_vec(), rec.len())));
    assert_eq!(parse_record_at(&rec, 1), None);
    assert_eq!(parse_record_at(&[], 0), None);
}

#[test]
fn segment_name_round_trip() {
    for n in [0u64, 7, 9, 10, 123, 9999999999, u64::MAX] {
        let name = segment_file_name(b"seg", n);
        assert_eq!(parse_segment_name(&name, b"seg"), Some(n));
    }
    assert_eq!(
        String::from_utf8(segment_file_name(b"seg", 10)).unwrap(),
        "seg.10.log"
    );
    assert_eq!(format_suffix(907), vec![b'9', b'0', b'7']);
}

#[test]
fn segment_name_parsing() {
    assert_eq!(parse_segment_name(b"seg.7.log", b"seg"), Some(7));
    assert_eq!(parse_segment_name(b"seg.007.log", b"seg"), Some(7));
    assert_eq!(
        parse_segment_name(b"seg.18446744073709551615.log", b"seg"),
        Some(u64::MAX)
    );
    // one past u64::MAX
    assert_eq!(parse_segment_name(b"seg.18446744073709551616.log", b"seg"), None);
    assert_eq!(parse_segment_name(b"seg.log", b"seg"), None);
    assert_eq!(parse_segment_name(b"seg..log", b"seg"), None);
    assert_eq!(parse_segment_name(b"seg.1a.log", b"seg"), None);
    assert_eq!(parse_segment_name(b"seg.1.logx", b"seg"), None);
    assert_eq!(parse_segment_name(b"other.1.log", b"seg"), None);
}

#[test]
fn suffix_selection_is_numeric() {
    assert_eq!(next_suffix(&Vec::new()), 0);
    assert_eq!(next_suffix(&vec![2, 0, 1]), 3);
    assert_eq!(next_suffix(&vec![9, 10]), 11);
    assert_eq!(latest_suffix_position(&Vec::new()), None);
    // numeric order: 10 beats 9, where a lexicographic order would not
    assert_eq!(latest_suffix_position(&vec![9, 10]), Some(1));
    assert_eq!(latest_suffix_position(&vec![7]), Some(0));
}
