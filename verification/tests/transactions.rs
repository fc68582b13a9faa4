use lsm_kv::keyspace::Keyspace;
use lsm_kv::tree::Config;

fn fresh() -> Keyspace {
    Keyspace::create_new(Config { level_count: 7, max_memtable_size: 1 << 20 }).unwrap()
}

#[test]
fn ryow_and_rollback() {
    let mut ks = fresh();
    let p = ks.open_partition(&b"default".to_vec());
    ks.insert(&p, &b"a".to_vec(), &b"abc".to_vec()).unwrap();

    let mut tx = ks.write_tx();
    let taken = tx.take(&p, &b"a".to_vec()).unwrap();
    assert_eq!(taken, Some(b"abc".to_vec()));
    // read-your-own-write: the staged delete is visible inside
    assert_eq!(tx.get(&p, &b"a".to_vec()).unwrap(), None);
    let ks = tx.rollback();

    // the rollback dropped the staged delete
    assert_eq!(ks.get(&p, &b"a".to_vec()).unwrap(), Some(b"abc".to_vec()));
}

#[test]
fn commit_persists_take() {
    let mut ks = fresh();
    let p = ks.open_partition(&b"default".to_vec());
    ks.insert(&p, &b"a".to_vec(), &b"abc".to_vec()).unwrap();

    let mut tx = ks.write_tx();
    let taken = tx.take(&p, &b"a".to_vec()).unwrap();
    assert_eq!(taken, Some(b"abc".to_vec()));
    let ks = tx.commit().map_err(|(_, e)| e).unwrap();

    assert_eq!(ks.get(&p, &b"a".to_vec()).unwrap(), None);
}

#[test]
fn fetch_update_and_update_fetch() {
    let mut ks = fresh();
    let p = ks.open_partition(&b"default".to_vec());
    ks.insert(&p, &b"a".to_vec(), &b"abc".to_vec()).unwrap();

    let mut tx = ks.write_tx();
    let updated = tx.update_fetch(&p, &b"a".to_vec(), |_| Some(b"def".to_vec())).unwrap();
    assert_eq!(updated, Some(b"def".to_vec()));
    assert_eq!(tx.get(&p, &b"a".to_vec()).unwrap(), Some(b"def".to_vec()));
    let ks = tx.commit().map_err(|(_, e)| e).unwrap();
    assert_eq!(ks.get(&p, &b"a".to_vec()).unwrap(), Some(b"def".to_vec()));

    // fetch_update returns the previous value; None removes
    let mut tx = ks.write_tx();
    let prev = tx.fetch_update(&p, &b"a".to_vec(), |_| None).unwrap();
    assert_eq!(prev, Some(b"def".to_vec()));
    assert_eq!(tx.get(&p, &b"a".to_vec()).unwrap(), None);
    let ks = tx.commit().map_err(|(_, e)| e).unwrap();
    assert_eq!(ks.get(&p, &b"a".to_vec()).unwrap(), None);
}

#[test]
fn iterator_merges_private_and_committed() {
    let mut ks = fresh();
    let p = ks.open_partition(&b"default".to_vec());
    ks.insert(&p, &b"a".to_vec(), &b"1".to_vec()).unwrap();

    // a plain reader sees only the committed state
    let rt = ks.read_tx();
    let (snapshot_pairs, _) = rt.iter(&ks, &p);
    assert_eq!(snapshot_pairs, vec![(b"a".to_vec(), b"1".to_vec())]);
    rt.release(&mut ks);

    let mut tx = ks.write_tx();
    tx.insert(&p, &b"b".to_vec(), &b"2".to_vec());
    tx.insert(&p, &b"c".to_vec(), &b"3".to_vec());
    let (pairs, _) = tx.iter(&p);
    assert_eq!(
        pairs,
        vec![
            (b"a".to_vec(), b"1".to_vec()),
            (b"b".to_vec(), b"2".to_vec()),
            (b"c".to_vec(), b"3".to_vec()),
        ]
    );
    assert_eq!(tx.len(&p).unwrap(), 3);
    let first = tx.first_key_value(&p).unwrap().unwrap();
    assert_eq!(first.0, b"a".to_vec());
    let last = tx.last_key_value(&p).unwrap().unwrap();
    assert_eq!(last.0, b"c".to_vec());
    let (ranged, _) = tx.range(&p, &b"a".to_vec(), &b"b".to_vec());
    assert_eq!(ranged.len(), 2);
    assert_eq!(ranged[0].0, b"a".to_vec());
    assert_eq!(ranged[1].0, b"b".to_vec());
    let _ = tx.rollback();
}

#[test]
fn prefix_scan() {
    let mut ks = fresh();
    let p = ks.open_partition(&b"default".to_vec());
    let mut tx = ks.write_tx();
    tx.insert(&p, &b"a".to_vec(), &b"abc".to_vec());
    tx.insert(&p, &b"ab".to_vec(), &b"abc".to_vec());
    tx.insert(&p, &b"abc".to_vec(), &b"abc".to_vec());
    let (pairs, _) = tx.prefix(&p, &b"ab".to_vec());
    assert_eq!(pairs.len(), 2);
    assert_eq!(pairs[0].0, b"ab".to_vec());
    assert_eq!(pairs[1].0, b"abc".to_vec());
    let _ = tx.rollback();
}

#[test]
fn snapshot_monotonicity() {
    let mut ks = fresh();
    let p = ks.open_partition(&b"default".to_vec());
    ks.insert(&p, &b"a".to_vec(), &b"old".to_vec()).unwrap();

    let rt = ks.read_tx();
    assert_eq!(rt.get(&ks, &p, &b"a".to_vec()).unwrap(), Some(b"old".to_vec()));

    // later commits do not change what the reader observes
    ks.insert(&p, &b"a".to_vec(), &b"new".to_vec()).unwrap();
    ks.insert(&p, &b"b".to_vec(), &b"x".to_vec()).unwrap();
    assert_eq!(rt.get(&ks, &p, &b"a".to_vec()).unwrap(), Some(b"old".to_vec()));
    assert_eq!(rt.get(&ks, &p, &b"b".to_vec()).unwrap(), None);
    let (pairs, _) = rt.iter(&ks, &p);
    assert_eq!(pairs, vec![(b"a".to_vec(), b"old".to_vec())]);
    rt.release(&mut ks);

    // a fresh reader sees both commits
    assert_eq!(ks.get(&p, &b"a".to_vec()).unwrap(), Some(b"new".to_vec()));
    assert_eq!(ks.get(&p, &b"b".to_vec()).unwrap(), Some(b"x".to_vec()));
}

#[test]
fn seqno_strictly_increasing() {
    let mut ks = fresh();
    let p = ks.open_partition(&b"default".to_vec());
    let s1 = ks.insert(&p, &b"a".to_vec(), &b"1".to_vec()).unwrap();
    let s2 = ks.insert(&p, &b"b".to_vec(), &b"2".to_vec()).unwrap();
    let s3 = ks.remove(&p, &b"a".to_vec()).unwrap();
    assert!(s1 < s2);
    assert!(s2 < s3);
    // partition creation is idempotent by name
    let p2 = ks.open_partition(&b"default".to_vec());
    assert_eq!(p.id, p2.id);
}

#[test]
fn cross_partition_commit() {
    let mut ks = fresh();
    let left = ks.open_partition(&b"left".to_vec());
    let right = ks.open_partition(&b"right".to_vec());
    let mut tx = ks.write_tx();
    tx.insert(&left, &b"k".to_vec(), &b"lv".to_vec());
    tx.insert(&right, &b"k".to_vec(), &b"rv".to_vec());
    assert!(tx.contains_key(&left, &b"k".to_vec()).unwrap());
    let ks = tx.commit().map_err(|(_, e)| e).unwrap();
    assert_eq!(ks.get(&left, &b"k".to_vec()).unwrap(), Some(b"lv".to_vec()));
    assert_eq!(ks.get(&right, &b"k".to_vec()).unwrap(), Some(b"rv".to_vec()));
}

#[test]
fn keyspace_rejects_zero_levels() {
    let r = Keyspace::create_new(Config { level_count: 0, max_memtable_size: 1 << 20 });
    assert!(r.is_err());
}

#[test]
fn staged_batch_commits_atomically() {
    let mut ks = fresh();
    let p = ks.open_partition(&b"default".to_vec());
    let mut batch = lsm_kv::keyspace::Batch::new();
    batch.insert(&p, &b"x".to_vec(), &b"1".to_vec());
    batch.insert(&p, &b"y".to_vec(), &b"2".to_vec());
    batch.remove(&p, &b"x".to_vec());
    let base = ks.commit_batch(batch.items).unwrap();
    assert!(base >= 1);
    // the later staged delete shadows the insert from the same batch
    assert_eq!(ks.get(&p, &b"x".to_vec()).unwrap(), None);
    assert_eq!(ks.get(&p, &b"y".to_vec()).unwrap(), Some(b"2".to_vec()));
}

#[test]
fn invalid_batch_item_is_rejected_without_effect() {
    let mut ks = fresh();
    let p = ks.open_partition(&b"default".to_vec());
    ks.insert(&p, &b"a".to_vec(), &b"1".to_vec()).unwrap();
    // an empty key cannot be framed
    let bad = vec![lsm_kv::journal::BatchItem {
        partition: p.id as u64,
        key: vec![],
        value: vec![],
        is_tombstone: false,
    }];
    assert!(ks.commit_batch(bad).is_err());
    assert_eq!(ks.get(&p, &b"a".to_vec()).unwrap(), Some(b"1".to_vec()));
}

#[test]
fn exhausted_stamp_counter_poisons() {
    let mut ks = fresh();
    let p = ks.open_partition(&b"default".to_vec());
    ks.insert(&p, &b"a".to_vec(), &b"1".to_vec()).unwrap();
    // exhaust the counter: the next commit must be refused and the
    // keyspace poisoned, with nothing mutated
    ks.next_seqno = u64::MAX;
    ks.visible_seqno = u64::MAX - 1;
    assert!(ks.insert(&p, &b"b".to_vec(), &b"2".to_vec()).is_err());
    assert!(ks.poisoned);
    assert_eq!(ks.get(&p, &b"b".to_vec()).unwrap(), None);

    // a transaction commit on the poisoned keyspace is refused and
    // hands the keyspace back untouched
    let mut tx = ks.write_tx();
    tx.insert(&p, &b"c".to_vec(), &b"3".to_vec());
    let (ks, err) = match tx.commit() {
        Err(back) => back,
        Ok(_) => panic!("commit must be refused on a poisoned keyspace"),
    };
    assert_eq!(err, lsm_kv::error::Error::Poisoned);
    assert_eq!(ks.get(&p, &b"a".to_vec()).unwrap(), Some(b"1".to_vec()));
    assert_eq!(ks.get(&p, &b"c".to_vec()).unwrap(), None);
}
