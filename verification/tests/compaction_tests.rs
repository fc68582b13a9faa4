use lsm_kv::compaction::{compact_once, merge_compress, Choice, Strategy};
use lsm_kv::levels::Levels;
use lsm_kv::segment::Segment;
use lsm_kv::value::{InternalValue, ValueType};

fn entry(key: &[u8], value: &[u8], seqno: u64, kind: ValueType) -> InternalValue {
    InternalValue::from_components(key.to_vec(), value.to_vec(), seqno, kind)
}

fn seed_l0(levels: &mut Levels, key: &[u8], seqno: u64) -> u64 {
    levels.add_segment_l0(vec![entry(key, b"v", seqno, ValueType::Value)]).unwrap()
}

#[test]
fn stcs_default_compacts_four_into_l1() {
    let mut levels = Levels::create_new(4).unwrap();
    let strategy = Strategy::new(4, 8);

    // below the threshold nothing is chosen
    seed_l0(&mut levels, b"a", 1);
    seed_l0(&mut levels, b"b", 2);
    seed_l0(&mut levels, b"c", 3);
    match strategy.pick(&levels) {
        Choice::DoNothing => {}
        Choice::DoCompact(_) => panic!("three segments are below the threshold"),
    }

    let id4 = seed_l0(&mut levels, b"d", 4);
    match strategy.pick(&levels) {
        Choice::DoNothing => panic!("four segments reach the threshold"),
        Choice::DoCompact(o) => {
            assert_eq!(o.segment_ids, vec![id4 - 3, id4 - 2, id4 - 1, id4]);
            assert_eq!(o.dest_level, 1);
        }
    }

    let did = compact_once(&mut levels, &strategy, None).unwrap();
    assert!(did);
    assert_eq!(levels.level_len(0), 0);
    assert_eq!(levels.level_len(1), 1);
    // the merged segment's range covers the union of its sources
    let seg = levels.segment_at(1, 0);
    assert_eq!(seg.key_min, b"a".to_vec());
    assert_eq!(seg.key_max, b"d".to_vec());
    assert_eq!(seg.item_count, 4);
}

#[test]
fn hidden_segments_are_not_rechosen() {
    let mut levels = Levels::create_new(4).unwrap();
    let strategy = Strategy::new(2, 8);
    let id1 = seed_l0(&mut levels, b"a", 1);
    let id2 = seed_l0(&mut levels, b"b", 2);
    levels.hide_segments(&vec![id1, id2]).unwrap();
    match strategy.pick(&levels) {
        Choice::DoNothing => {}
        Choice::DoCompact(_) => panic!("hidden segments must not be chosen again"),
    }
    levels.unhide_segments(&vec![id1, id2]);
    match strategy.pick(&levels) {
        Choice::DoNothing => panic!("visible again, so they qualify"),
        Choice::DoCompact(o) => assert_eq!(o.segment_ids, vec![id1, id2]),
    }
}

#[test]
fn merge_drops_shadowed_and_handles_tombstones() {
    // newest version first within a key: seqno 5 tombstone shadows
    // the value written at 3
    let run = vec![
        entry(b"a", b"", 5, ValueType::Tombstone),
        entry(b"a", b"old", 3, ValueType::Value),
        entry(b"b", b"keep", 4, ValueType::Value),
    ];

    // not the deepest level: the tombstone must survive
    let kept = merge_compress(&run, false, None);
    assert_eq!(kept.len(), 2);
    assert_eq!(kept[0].key, b"a".to_vec());
    assert_eq!(kept[0].value_type, ValueType::Tombstone);
    assert_eq!(kept[1].key, b"b".to_vec());

    // deepest level and no snapshot: the tombstone may go
    let dropped = merge_compress(&run, true, None);
    assert_eq!(dropped.len(), 1);
    assert_eq!(dropped[0].key, b"b".to_vec());

    // deepest level but a snapshot at 4 still observes the tombstone
    let held = merge_compress(&run, true, Some(4));
    assert_eq!(held.len(), 2);
    assert_eq!(held[0].value_type, ValueType::Tombstone);
}

#[test]
fn atomic_swap_keeps_deep_levels_disjoint() {
    let mut levels = Levels::create_new(3).unwrap();
    let a = seed_l0(&mut levels, b"a", 1);
    let strategy = Strategy::new(1, 8);
    // move the lone segment down to level one
    assert!(compact_once(&mut levels, &strategy, None).unwrap());
    assert_eq!(levels.level_len(1), 1);

    // a new segment overlapping level one is refused
    let overlapping = Segment::from_entries(
        levels.next_segment_id,
        vec![entry(b"a", b"x", 9, ValueType::Value)],
    );
    let r = levels.atomic_swap(&vec![], overlapping, 1);
    assert!(r.is_err());
    assert_eq!(levels.level_len(1), 1);

    // a disjoint one is accepted beside it
    let disjoint = Segment::from_entries(
        levels.next_segment_id,
        vec![entry(b"z", b"x", 9, ValueType::Value)],
    );
    levels.atomic_swap(&vec![], disjoint, 1).unwrap();
    assert_eq!(levels.level_len(1), 2);
    let _ = a;
}

#[test]
fn level_zero_may_overlap() {
    let mut levels = Levels::create_new(3).unwrap();
    seed_l0(&mut levels, b"k", 1);
    seed_l0(&mut levels, b"k", 2);
    assert_eq!(levels.level_len(0), 2);
}

#[test]
fn compaction_refused_by_surviving_overlap() {
    let mut levels = Levels::create_new(3).unwrap();
    let strategy = Strategy::new(1, 8);
    // move one segment down to level one
    seed_l0(&mut levels, b"a", 1);
    assert!(compact_once(&mut levels, &strategy, None).unwrap());
    assert_eq!(levels.level_len(1), 1);

    // a new level-zero segment over the same key cannot join level
    // one beside the surviving overlapping segment
    seed_l0(&mut levels, b"a", 2);
    assert!(compact_once(&mut levels, &strategy, None).is_err());
    // the manifest is left as it was, the source unhidden
    assert_eq!(levels.level_len(0), 1);
    assert_eq!(levels.level_len(1), 1);
    assert_eq!(levels.hidden.len(), 0);
}
