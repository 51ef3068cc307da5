use kvs::segment::Segment;
use kvs::store::Effect;
use kvs::store::KvStore;
use kvs::KvSError;

fn chars(s: &str) -> Vec<char> {
    s.chars().collect()
}

fn apply_effects(disk: &mut Vec<(u64, Vec<char>)>, effs: Vec<Effect>) {
    for e in effs {
        match e {
            Effect::CreateSegment { id } => disk.push((id, Vec::new())),
            Effect::AppendSegment { id, text } => {
                let seg = disk.iter_mut().find(|s| s.0 == id).expect("append to unknown segment");
                seg.1.extend(text);
            }
            Effect::DeleteSegment { id } => disk.retain(|s| s.0 != id),
        }
    }
}

fn disk_to_segments(disk: &[(u64, Vec<char>)]) -> Vec<Segment> {
    let mut v: Vec<Segment> = disk
        .iter()
        .map(|(id, data)| Segment { id: *id, data: data.clone() })
        .collect();
    v.sort_by_key(|s| s.id);
    v
}

fn fresh() -> KvStore {
    KvStore::open(Vec::new()).expect("open on an empty directory must succeed")
}

#[test]
fn unicode_keys_and_values_survive_reopen() {
    let mut disk: Vec<(u64, Vec<char>)> = Vec::new();
    let mut store = fresh();
    apply_effects(&mut disk, store.take_effects());
    store.set("caf\u{e9}".to_string(), "\u{4e2d}\u{6587}\u{2603}".to_string()).unwrap();
    store.set("snow\u{2603}man".to_string(), "qu\"ote\\and\nnewline".to_string()).unwrap();
    apply_effects(&mut disk, store.take_effects());
    let mut reopened = KvStore::open(disk_to_segments(&disk)).unwrap();
    assert_eq!(
        reopened.get("caf\u{e9}".to_string()),
        Ok(Some("\u{4e2d}\u{6587}\u{2603}".to_string()))
    );
    assert_eq!(
        reopened.get("snow\u{2603}man".to_string()),
        Ok(Some("qu\"ote\\and\nnewline".to_string()))
    );
}

#[test]
fn empty_key_rejected() {
    let mut store = fresh();
    assert_eq!(store.set(String::new(), "v".to_string()), Err(KvSError::KeyNotProvided));
    assert_eq!(store.remove(String::new()), Err(KvSError::KeyNotProvided));
}

#[test]
fn empty_value_permitted() {
    let mut store = fresh();
    store.set("k".to_string(), String::new()).unwrap();
    assert_eq!(store.get("k".to_string()), Ok(Some(String::new())));
}

#[test]
fn open_empty_directory() {
    let mut store = fresh();
    assert_eq!(store.get("anything".to_string()), Ok(None));
}

#[test]
fn set_get_two_keys() {
    let mut store = fresh();
    store.set("a".to_string(), "1".to_string()).unwrap();
    store.set("b".to_string(), "2".to_string()).unwrap();
    assert_eq!(store.get("a".to_string()), Ok(Some("1".to_string())));
    assert_eq!(store.get("b".to_string()), Ok(Some("2".to_string())));
    assert_eq!(store.get("c".to_string()), Ok(None));
}

#[test]
fn overwrite_then_reopen() {
    let mut store = fresh();
    store.set("k".to_string(), "v1".to_string()).unwrap();
    store.set("k".to_string(), "v2".to_string()).unwrap();
    assert_eq!(store.get("k".to_string()), Ok(Some("v2".to_string())));
    let snapshot = store.snapshot();
    let mut reopened = KvStore::open(snapshot).unwrap();
    assert_eq!(reopened.get("k".to_string()), Ok(Some("v2".to_string())));
}

#[test]
fn remove_then_get_then_remove_again() {
    let mut store = fresh();
    store.set("k".to_string(), "v".to_string()).unwrap();
    store.remove("k".to_string()).unwrap();
    assert_eq!(store.get("k".to_string()), Ok(None));
    assert_eq!(store.remove("k".to_string()), Err(KvSError::KeyNotFound));
}

#[test]
fn remove_missing_leaves_disk_unchanged() {
    let mut store = fresh();
    store.set("a".to_string(), "1".to_string()).unwrap();
    let before = store.snapshot();
    assert_eq!(store.remove("missing".to_string()), Err(KvSError::KeyNotFound));
    let after = store.snapshot();
    assert_eq!(before.len(), after.len());
    for (b, a) in before.iter().zip(after.iter()) {
        assert_eq!(b.id, a.id);
        assert_eq!(b.data, a.data);
    }
}

#[test]
fn set_same_pair_twice_same_state() {
    let mut store = fresh();
    store.set("k".to_string(), "v".to_string()).unwrap();
    store.set("k".to_string(), "v".to_string()).unwrap();
    assert_eq!(store.get("k".to_string()), Ok(Some("v".to_string())));
    let snapshot = store.snapshot();
    let mut reopened = KvStore::open(snapshot).unwrap();
    assert_eq!(reopened.get("k".to_string()), Ok(Some("v".to_string())));
    assert_eq!(reopened.get("other".to_string()), Ok(None));
}

#[test]
fn corrupt_segment_rejected_at_open() {
    let seg = Segment { id: 7, data: chars("this is not a record\n") };
    assert!(matches!(KvStore::open(vec![seg]), Err(KvSError::Corruption)));
}

#[test]
fn partial_final_line_tolerated() {
    // a torn final write: the complete record counts, the torn tail is EOF
    let mut text = String::new();
    text.push_str("{\"Set\":{\"key\":\"a\",\"value\":\"1\"}}\n");
    text.push_str("{\"Set\":{\"key\":\"b\",\"va");
    let seg = Segment { id: 3, data: chars(&text) };
    let mut store = KvStore::open(vec![seg]).unwrap();
    assert_eq!(store.get("a".to_string()), Ok(Some("1".to_string())));
    assert_eq!(store.get("b".to_string()), Ok(None));
}

#[test]
fn identifier_space_exhausted_is_io() {
    // the newest segment is unusable (torn tail) and its identifier is the
    // largest possible, so no fresh segment can be named
    let seg = Segment { id: u64::MAX, data: chars("junk without newline") };
    assert!(matches!(KvStore::open(vec![seg]), Err(KvSError::Io)));
}

#[test]
fn replay_applies_removes() {
    let mut text = String::new();
    text.push_str("{\"Set\":{\"key\":\"a\",\"value\":\"1\"}}\n");
    text.push_str("{\"Set\":{\"key\":\"b\",\"value\":\"2\"}}\n");
    text.push_str("{\"Remove\":{\"key\":\"a\"}}\n");
    let seg = Segment { id: 1, data: chars(&text) };
    let mut store = KvStore::open(vec![seg]).unwrap();
    assert_eq!(store.get("a".to_string()), Ok(None));
    assert_eq!(store.get("b".to_string()), Ok(Some("2".to_string())));
}

#[test]
fn threshold_boundary_accepts_tiny_record_then_compacts() {
    // serialized Set length is 29 + key chars + value chars
    let mut store = fresh();
    let key = "k".to_string(); // record length 30 + value length
    let val_big = "x".repeat(70); // record length 100
    for _ in 0..10485 {
        store.set(key.clone(), val_big.clone()).unwrap();
    }
    // active size is now 1_048_500; bring it to exactly threshold - 1
    let val_mid = "x".repeat(45); // record length 75
    store.set(key.clone(), val_mid.clone()).unwrap();
    assert_eq!(store.segment_ids().len(), 1, "no compaction below the threshold");
    let ids_before = store.segment_ids();
    // the next record crosses the pre-write gate and triggers compaction
    store.set(key.clone(), "tiny".to_string()).unwrap();
    assert_eq!(store.get("k".to_string()), Ok(Some("tiny".to_string())));
    let ids_after = store.segment_ids();
    assert!(
        !ids_after.contains(&ids_before[0]),
        "compaction must have deleted the old segment"
    );
}

#[test]
fn many_keys_compactions_and_reopen() {
    let mut disk: Vec<(u64, Vec<char>)> = Vec::new();
    let mut store = fresh();
    apply_effects(&mut disk, store.take_effects());
    let value = "y".repeat(100);
    for pass in 0..5 {
        for i in 0..2000 {
            let key = format!("key{:05}", i);
            let val = format!("{}{}", pass, value);
            store.set(key, val).unwrap();
            apply_effects(&mut disk, store.take_effects());
        }
    }
    // several compactions have run by now; the live data is far below one
    // segment's worth, so few files remain
    assert!(store.segment_ids().len() <= 3, "left {} files", store.segment_ids().len());
    let mut reopened = KvStore::open(disk_to_segments(&disk)).unwrap();
    for i in 0..2000 {
        let key = format!("key{:05}", i);
        let want = format!("4{}", value);
        assert_eq!(reopened.get(key), Ok(Some(want)));
    }
    assert_eq!(reopened.get("key99999".to_string()), Ok(None));
}

#[test]
fn compaction_drops_removed_keys_across_reopen() {
    let mut disk: Vec<(u64, Vec<char>)> = Vec::new();
    let mut store = fresh();
    apply_effects(&mut disk, store.take_effects());
    for i in 0..1000 {
        store.set(format!("k{:04}", i), format!("v{}", i)).unwrap();
        apply_effects(&mut disk, store.take_effects());
    }
    for i in 100..1000 {
        store.remove(format!("k{:04}", i)).unwrap();
        apply_effects(&mut disk, store.take_effects());
    }
    // force a compaction by filling the active segment
    let filler = "f".repeat(200);
    let before = store.segment_ids()[0];
    let mut compacted = false;
    for round in 0..6000 {
        store.set(format!("fill{}", round % 7), filler.clone()).unwrap();
        apply_effects(&mut disk, store.take_effects());
        if !store.segment_ids().contains(&before) {
            compacted = true;
            break;
        }
    }
    assert!(compacted, "no compaction was triggered");
    let mut reopened = KvStore::open(disk_to_segments(&disk)).unwrap();
    for i in 0..100 {
        assert_eq!(reopened.get(format!("k{:04}", i)), Ok(Some(format!("v{}", i))));
    }
    for i in 100..1000 {
        assert_eq!(reopened.get(format!("k{:04}", i)), Ok(None));
    }
}

#[test]
fn compacted_size_is_bounded_by_live_data() {
    let mut store = fresh();
    let value = "z".repeat(70); // record length 100 with a 1-char key... keys are 7 chars here
    for pass in 0..12 {
        for i in 0..1000 {
            // 1000 live keys, overwritten every pass
            let _ = pass;
            store.set(format!("b{:06}", i), value.clone()).unwrap();
        }
    }
    // at least one compaction ran; afterwards the disk holds at most the
    // live records plus one partly-filled active segment
    let total: usize = store.snapshot().iter().map(|s| s.data.len()).sum();
    let max_record = 29 + 7 + 70 + 1;
    assert!(total <= 1000 * max_record + 1024 * 1024, "total {}", total);
}

#[test]
fn explicit_compaction_keeps_state_and_bounds_size() {
    let mut store = fresh();
    for i in 0..50 {
        store.set(format!("k{:02}", i), "v".repeat(20)).unwrap();
        store.set(format!("k{:02}", i), "w".repeat(20)).unwrap();
    }
    store.remove("k00".to_string()).unwrap();
    store.compact().unwrap();
    // 49 live keys, each serialized as 29 + 3 key chars + 20 value chars,
    // plus the newline
    let total: usize = store.snapshot().iter().map(|s| s.data.len()).sum();
    assert!(total <= 49 * (29 + 3 + 20 + 1), "total {}", total);
    assert_eq!(store.get("k00".to_string()), Ok(None));
    for i in 1..50 {
        assert_eq!(store.get(format!("k{:02}", i)), Ok(Some("w".repeat(20))));
    }
}

#[test]
fn reopen_adopts_the_active_segment() {
    let mut store = fresh();
    store.set("a".to_string(), "1".to_string()).unwrap();
    let ids = store.segment_ids();
    let mut reopened = KvStore::open(store.snapshot()).unwrap();
    // the newest segment is whole and small, so it stays the active one and
    // no fresh segment is created
    assert_eq!(reopened.segment_ids(), ids);
    assert_eq!(reopened.get("a".to_string()), Ok(Some("1".to_string())));
}

#[test]
fn reopen_rolls_over_a_torn_segment() {
    let mut text = String::new();
    text.push_str("{\"Set\":{\"key\":\"a\",\"value\":\"1\"}}\n");
    text.push_str("{\"Set\":{\"key\":\"b\",\"va");
    let seg = Segment { id: 41, data: chars(&text) };
    let store = KvStore::open(vec![seg]).unwrap();
    // the torn segment cannot be appended to, so a fresh one becomes active
    let ids = store.segment_ids();
    assert_eq!(ids.len(), 2);
    assert_eq!(ids[0], 41);
    assert!(ids[1] > 41);
}
