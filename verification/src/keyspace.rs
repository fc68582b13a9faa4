//! The keyspace: named partitions over one shared journal and one
//! sequence counter, with atomic multi-partition batch commits.
use crate::error::Error;
use crate::journal::{append_batch, batch_bytes, views_of_items, BatchItem, BatchView, ItemView};
use crate::keyorder::key_eq;
use crate::snapshot::SnapshotCounter;
use crate::tree::{Config, TreeInner};
use crate::value::{
    copy_bytes, is_newest_match, no_match, Entry, InternalValue, SeqNo, ValueType, SEQNO_MAX,
};
use vstd::prelude::*;

verus! {

/// What a point read yields over an entry collection: the newest
/// visible version's value, nothing for its tombstone, and nothing
/// when no version is visible.
pub open spec fn reads_as(s: Seq<Entry>, key: Seq<u8>, snapshot: SeqNo, res: Option<Seq<u8>>) -> bool {
    ||| exists|e: Entry|
        is_newest_match(s, e, key, snapshot) && res == (if e.tombstone {
            Option::<Seq<u8>>::None
        } else {
            Option::Some(e.value)
        })
    ||| (no_match(s, key, snapshot) && res is None)
}

/// The bytes of an optional owned value.
pub open spec fn opt_bytes(o: Option<Vec<u8>>) -> Option<Seq<u8>> {
    match o {
        Option::None => Option::None,
        Option::Some(v) => Option::Some(v@),
    }
}

/// One named partition: a tree under its name.
pub struct Partition {
    pub name: Vec<u8>,
    pub tree: TreeInner,
}

/// Names a partition of a keyspace.
#[derive(Clone, Copy, Debug, PartialEq, Eq)]
pub struct PartitionHandle {
    pub id: usize,
}

/// A staged multi-partition write, committed atomically.
pub struct Batch {
    pub items: Vec<BatchItem>,
}

impl Batch {
    /// An empty staging buffer.
    pub fn new() -> (r: Batch)
        ensures
            r.items@ == Seq::<BatchItem>::empty(),
    {
        let r = Batch { items: Vec::new() };
        assert(r.items@ =~= Seq::<BatchItem>::empty());
        r
    }

    /// Stages one insert; `Keyspace::commit_batch` applies the whole
    /// buffer atomically.
    pub fn insert(&mut self, partition: &PartitionHandle, key: &Vec<u8>, value: &Vec<u8>)
        ensures
            views_of_items(final(self).items@) == views_of_items(old(self).items@).push(
                ItemView {
                    partition: partition.id as u64,
                    key: key@,
                    value: value@,
                    is_tombstone: false,
                },
            ),
    {
        let it = BatchItem {
            partition: partition.id as u64,
            key: copy_bytes(key),
            value: copy_bytes(value),
            is_tombstone: false,
        };
        let ghost pre = views_of_items(self.items@);
        let ghost itv = it@;
        self.items.push(it);
        proof {
            assert(views_of_items(self.items@) =~= pre.push(itv));
        }
    }

    /// Stages one delete.
    pub fn remove(&mut self, partition: &PartitionHandle, key: &Vec<u8>)
        ensures
            views_of_items(final(self).items@) == views_of_items(old(self).items@).push(
                ItemView {
                    partition: partition.id as u64,
                    key: key@,
                    value: Seq::<u8>::empty(),
                    is_tombstone: true,
                },
            ),
    {
        let it = BatchItem {
            partition: partition.id as u64,
            key: copy_bytes(key),
            value: Vec::new(),
            is_tombstone: true,
        };
        proof {
            assert(it.value@ =~= Seq::<u8>::empty());
        }
        let ghost pre = views_of_items(self.items@);
        let ghost itv = it@;
        self.items.push(it);
        proof {
            assert(views_of_items(self.items@) =~= pre.push(itv));
        }
    }
}

/// The entry a batch item becomes under its assigned stamp.
pub open spec fn entry_of_item(it: ItemView, seqno: SeqNo) -> Entry {
    Entry { key: it.key, value: it.value, seqno, tombstone: it.is_tombstone }
}

/// The keyspace.
pub struct Keyspace {
    /// The partitions, in creation order; handles index this list.
    pub partitions: Vec<Partition>,
    /// The shared write-ahead journal, as the bytes an append-only
    /// file would hold.
    pub journal: Vec<u8>,
    /// The next stamp to assign.
    pub next_seqno: SeqNo,
    /// The largest committed stamp: what a fresh reader sees.
    pub visible_seqno: SeqNo,
    /// Stamps of open snapshots, across all partitions.
    pub snapshots: SnapshotCounter,
    /// Set after an unrecoverable failure; commits are refused.
    pub poisoned: bool,
    /// Settings for partitions created here.
    pub config: Config,
}

impl Keyspace {
    /// The entries of one partition's tree.
    pub open spec fn tree_entries(self, p: int) -> Seq<Entry> {
        self.partitions@[p].tree.all_entries()
    }

    /// The keyspace invariant: trees well formed, every stored stamp
    /// already assigned, stamps unique per partition, and the
    /// visible stamp behind the counter.
    pub open spec fn wf(self) -> bool {
        &&& self.config.level_count >= 1
        &&& 1 <= self.next_seqno <= SEQNO_MAX
        &&& self.visible_seqno == self.next_seqno - 1
        &&& forall|p: int|
            0 <= p < self.partitions@.len() ==> (#[trigger] self.partitions@[p]).tree.wf()
        &&& forall|p: int, e: Entry|
            0 <= p < self.partitions@.len() && #[trigger] self.tree_entries(p).contains(e)
                ==> e.seqno < self.next_seqno
        &&& forall|p: int, e1: Entry, e2: Entry|
            0 <= p < self.partitions@.len() && #[trigger] self.tree_entries(p).contains(e1)
                && #[trigger] self.tree_entries(p).contains(e2) && e1.key == e2.key && e1.seqno
                == e2.seqno ==> e1 == e2
    }

    /// An empty keyspace under the given settings. Rejects only a
    /// zero level count.
    pub fn create_new(config: Config) -> (r: Result<Keyspace, Error>)
        ensures
            config.level_count == 0 ==> (r matches Err(e) && e == Error::InvalidArgument),
            config.level_count > 0 ==> (r matches Ok(ks) && ks.wf() && ks.partitions@.len() == 0
                && ks.journal@ == Seq::<u8>::empty() && ks.next_seqno == 1 && ks.visible_seqno == 0
                && !ks.poisoned),
    {
        if config.level_count == 0 {
            return Err(Error::InvalidArgument);
        }
        let r = Keyspace {
            partitions: Vec::new(),
            journal: Vec::new(),
            next_seqno: 1,
            visible_seqno: 0,
            snapshots: SnapshotCounter::new(),
            poisoned: false,
            config,
        };
        assert(r.journal@ =~= Seq::<u8>::empty());
        Ok(r)
    }

    /// Opens the partition under `name`, creating it empty on first
    /// use: partition creation is idempotent by name.
    #[verifier::loop_isolation(false)]
    pub fn open_partition(&mut self, name: &Vec<u8>) -> (r: PartitionHandle)
        requires
            old(self).wf(),
        ensures
            final(self).wf(),
            r.id < final(self).partitions@.len(),
            final(self).partitions@[r.id as int].name@ == name@,
            final(self).journal@ == old(self).journal@,
            final(self).next_seqno == old(self).next_seqno,
            final(self).visible_seqno == old(self).visible_seqno,
            final(self).poisoned == old(self).poisoned,
            forall|p: int|
                0 <= p < old(self).partitions@.len() ==> #[trigger] final(self).partitions@[p]
                    == old(self).partitions@[p],
            (exists|p: int|
                0 <= p < old(self).partitions@.len() && (#[trigger] old(self).partitions@[p]).name@
                    == name@) ==> *final(self) == *old(self),
            final(self).partitions@.len() == old(self).partitions@.len() || (final(self).partitions@.len()
                == old(self).partitions@.len() + 1 && final(self).tree_entries(r.id as int)
                == Seq::<Entry>::empty()),
    {
        let mut p: usize = 0;
        while p < self.partitions.len()
            invariant
                p <= self.partitions@.len(),
                self == old(self),
                forall|q: int|
                    0 <= q < p ==> (#[trigger] self.partitions@[q]).name@ != name@,
            decreases self.partitions@.len() - p,
        {
            if key_eq(&self.partitions[p].name, name) {
                return PartitionHandle { id: p };
            }
            p += 1;
        }
        // the keyspace never holds a zero level count, so this
        // cannot fail
        let tree = TreeInner::create_new(self.config).unwrap();
        let part = Partition { name: copy_bytes(name), tree };
        let id = self.partitions.len();
        self.partitions.push(part);
        proof {
            assert forall|q: int, e: Entry|
                0 <= q < self.partitions@.len() && #[trigger] self.tree_entries(q).contains(
                    e,
                ) implies e.seqno < self.next_seqno by {
                if q < id {
                    assert(old(self).tree_entries(q).contains(e));
                }
            }
            assert forall|q: int, e1: Entry, e2: Entry|
                0 <= q < self.partitions@.len() && #[trigger] self.tree_entries(q).contains(e1)
                    && #[trigger] self.tree_entries(q).contains(e2) && e1.key == e2.key && e1.seqno
                    == e2.seqno implies e1 == e2 by {
                if q < id {
                    assert(old(self).tree_entries(q).contains(e1));
                    assert(old(self).tree_entries(q).contains(e2));
                }
            }
        }
        PartitionHandle { id }
    }

    /// An item the journal and the trees can take: key and value fit
    /// their frames and the partition exists.
    pub open spec fn item_ok(self, it: ItemView) -> bool {
        &&& 1 <= it.key.len()
        &&& it.key.len() + 8 <= 0xFFFF
        &&& it.value.len() <= 0xFFFF
        &&& (it.partition as int) < self.partitions@.len()
    }

    /// Commits one batch: reserves a run of stamps starting at the
    /// returned base, appends one journal frame holding all items,
    /// and only then distributes each item to its partition's active
    /// memtable under stamp base + position. Commit events therefore
    /// carry strictly increasing stamps. Rejected without any effect
    /// when an item cannot be framed; refused, and the keyspace
    /// poisoned, when the stamp counter cannot cover the batch.
    #[verifier::loop_isolation(false)]
    #[verifier::rlimit(100)]
    #[verifier::spinoff_prover]
    pub fn commit_batch(&mut self, items: Vec<BatchItem>) -> (r: Result<SeqNo, Error>)
        requires
            old(self).wf(),
        ensures
            ({
                let iv = views_of_items(items@);
                let count = iv.len() as int;
                &&& (r == Err::<SeqNo, Error>(Error::Poisoned)) == (old(self).poisoned || old(self).next_seqno + count > SEQNO_MAX)
                &&& (r == Err::<SeqNo, Error>(Error::InvalidArgument)) == (!old(self).poisoned
                    && old(self).next_seqno + count <= SEQNO_MAX && (count > 0xFFFF_FFFF || exists|
                    i: int,
                |
                    0 <= i < count && !old(self).item_ok(#[trigger] iv[i])))
                &&& (r is Err ==> r == Err::<SeqNo, Error>(Error::Poisoned) || r == Err::<
                    SeqNo,
                    Error,
                >(Error::InvalidArgument))
                &&& (r is Err ==> final(self).partitions@ == old(self).partitions@ && final(self).journal@ == old(self).journal@ && final(self).next_seqno == old(self).next_seqno
                    && final(self).visible_seqno == old(self).visible_seqno && final(self).snapshots
                    == old(self).snapshots && final(self).config == old(self).config && final(self).poisoned
                    == (old(self).poisoned || old(self).next_seqno + count > SEQNO_MAX))
                &&& (r matches Ok(base) ==> {
                    &&& final(self).wf()
                    &&& base == old(self).next_seqno
                    &&& final(self).next_seqno == base + count
                    &&& final(self).visible_seqno == final(self).next_seqno - 1
                    &&& final(self).poisoned == old(self).poisoned
                    &&& final(self).snapshots == old(self).snapshots
                    &&& final(self).config == old(self).config
                    &&& final(self).journal@ == old(self).journal@ + batch_bytes(
                        BatchView { seqno: base, items: iv },
                    )
                    &&& final(self).partitions@.len() == old(self).partitions@.len()
                    &&& forall|p: int|
                        0 <= p < old(self).partitions@.len() ==> (#[trigger] final(self).partitions@[p]).name@ == old(self).partitions@[p].name@
                    &&& forall|p: int, e: Entry|
                        0 <= p < old(self).partitions@.len() ==> (#[trigger] final(self).tree_entries(p).contains(e) <==> (old(self).tree_entries(p).contains(e)
                            || (exists|i: int|
                            0 <= i < count && (#[trigger] iv[i]).partition as int == p && e
                                == entry_of_item(iv[i], (base + i) as u64))))
                })
            }),
    {
        let ghost iv = views_of_items(items@);
        if self.poisoned {
            return Err(Error::Poisoned);
        }
        let count = items.len();
        if count as u64 > 0xFFFF_FFFF_FFFF_FFFF - self.next_seqno {
            self.poisoned = true;
            return Err(Error::Poisoned);
        }
        if count > 0xFFFF_FFFF {
            return Err(Error::InvalidArgument);
        }
        let mut i: usize = 0;
        while i < count
            invariant
                self == old(self),
                count == items@.len(),
                iv == views_of_items(items@),
                forall|k: int| 0 <= k < i ==> self.item_ok(#[trigger] iv[k]),
            decreases count - i,
        {
            let klen = items[i].key.len();
            let vlen = items[i].value.len();
            let pid = items[i].partition;
            if klen == 0 || klen > 0xFFFF - 8 || vlen > 0xFFFF || !(pid
                < self.partitions.len() as u64) {
                proof {
                    assert(iv[i as int] == items@[i as int]@);
                    assert(!old(self).item_ok(iv[i as int]));
                }
                return Err(Error::InvalidArgument);
            }
            proof {
                assert(iv[i as int] == items@[i as int]@);
            }
            i += 1;
        }
        let base = self.next_seqno;
        proof {
            assert forall|k: int| 0 <= k < iv.len() implies crate::journal::item_wf(
                #[trigger] iv[k],
            ) by {}
        }
        append_batch(&mut self.journal, base, &items);
        proof {
            assert forall|p: int, e: Entry|
                0 <= p < self.partitions@.len() && #[trigger] self.tree_entries(p).contains(
                    e,
                ) implies e.seqno < base by {
                assert(self.partitions@[p] == old(self).partitions@[p]);
                assert(old(self).tree_entries(p).contains(e));
            }
        }
        let mut i: usize = 0;
        while i < count
            invariant
                count == items@.len(),
                iv == views_of_items(items@),
                forall|k: int| 0 <= k < count ==> old(self).item_ok(#[trigger] iv[k]),
                base == old(self).next_seqno,
                base + count <= SEQNO_MAX,
                i <= count,
                self.partitions@.len() == old(self).partitions@.len(),
                self.journal@ == old(self).journal@ + batch_bytes(
                    BatchView { seqno: base, items: iv },
                ),
                self.next_seqno == old(self).next_seqno,
                self.visible_seqno == old(self).visible_seqno,
                self.poisoned == old(self).poisoned,
                self.snapshots == old(self).snapshots,
                self.config == old(self).config,
                forall|p: int|
                    0 <= p < self.partitions@.len() ==> (#[trigger] self.partitions@[p]).name@
                        == old(self).partitions@[p].name@,
                forall|p: int|
                    0 <= p < self.partitions@.len() ==> (#[trigger] self.partitions@[p]).tree.wf(),
                forall|p: int, e: Entry|
                    0 <= p < self.partitions@.len() && #[trigger] self.tree_entries(p).contains(e)
                        ==> e.seqno < base + i,
                forall|p: int, e: Entry|
                    0 <= p < self.partitions@.len() ==> (#[trigger] self.tree_entries(p).contains(
                        e,
                    ) <==> (old(self).tree_entries(p).contains(e) || (exists|k: int|
                        0 <= k < i && (#[trigger] iv[k]).partition as int == p && e
                            == entry_of_item(iv[k], (base + k) as u64)))),
            decreases count - i,
        {
            let plen = self.partitions.len();
            proof {
                assert(iv[i as int] == items@[i as int]@);
                assert(old(self).item_ok(iv[i as int]));
                assert((iv[i as int].partition as int) < (plen as int));
            }
            #[verifier::truncate]
            let pid = items[i].partition as usize;
            let key = copy_bytes(&items[i].key);
            let value = copy_bytes(&items[i].value);
            let kind = if items[i].is_tombstone {
                ValueType::Tombstone
            } else {
                ValueType::Value
            };
            let seqno = base + (i as u64);
            let entry = InternalValue::from_components(key, value, seqno, kind);
            proof {
                assert(iv[i as int] == items@[i as int]@);
                assert(old(self).item_ok(iv[i as int]));
                assert(pid as int == iv[i as int].partition as int);
                assert(seqno == (base + i) as u64);
                assert(entry@ == entry_of_item(iv[i as int], seqno));
            }
            let ghost pre = *self;
            let mut part = self.partitions.remove(pid);
            proof {
                assert(part == pre.partitions@[pid as int]);
                assert forall|e: Entry|
                    part.tree.all_entries().contains(e) implies !((#[trigger] e.key)
                    == entry@.key && e.seqno == entry@.seqno) by {
                    assert(pre.tree_entries(pid as int).contains(e));
                    assert(e.seqno < base + i);
                    assert(entry@.seqno == base + i);
                }
            }
            part.tree.insert_entry(entry);
            self.partitions.insert(pid, part);
            proof {
                pre.partitions@.remove_ensures(pid as int);
                pre.partitions@.remove(pid as int).insert_ensures(pid as int, self.partitions@[pid as int]);
                assert(self.partitions@.len() == pre.partitions@.len());
                assert forall|p: int|
                    0 <= p < self.partitions@.len() && p != pid implies #[trigger] self.partitions@[p]
                    == pre.partitions@[p] by {
                    if p < pid {
                        assert(pre.partitions@.remove(pid as int)[p] == pre.partitions@[p]);
                    } else {
                        assert(pre.partitions@.remove(pid as int)[p - 1] == pre.partitions@[p]);
                    }
                }
                assert forall|p: int, e: Entry|
                    0 <= p < self.partitions@.len() implies (#[trigger] self.tree_entries(
                    p,
                ).contains(e) <==> (old(self).tree_entries(p).contains(e) || (exists|k: int|
                    0 <= k < i + 1 && (#[trigger] iv[k]).partition as int == p && e
                        == entry_of_item(iv[k], (base + k) as u64)))) by {
                    if p == pid {
                        assert(self.tree_entries(p).contains(e) <==> (pre.tree_entries(p).contains(
                            e,
                        ) || e == entry@));
                        if e == entry@ {
                            assert(iv[i as int].partition as int == p && e == entry_of_item(
                                iv[i as int],
                                (base + i) as u64,
                            ));
                        }
                        if self.tree_entries(p).contains(e) && !old(self).tree_entries(p).contains(
                            e,
                        ) && e != entry@ {
                            let k = choose|k: int|
                                0 <= k < i && (#[trigger] iv[k]).partition as int == p && e
                                    == entry_of_item(iv[k], (base + k) as u64);
                        }
                        if !self.tree_entries(p).contains(e) {
                            if exists|k: int|
                                0 <= k < i + 1 && (#[trigger] iv[k]).partition as int == p && e
                                    == entry_of_item(iv[k], (base + k) as u64) {
                                let k = choose|k: int|
                                    0 <= k < i + 1 && (#[trigger] iv[k]).partition as int == p && e
                                        == entry_of_item(iv[k], (base + k) as u64);
                                if k < i {
                                    assert(pre.tree_entries(p).contains(e));
                                } else {
                                    assert(e == entry@);
                                }
                                assert(false);
                            }
                        }
                    } else {
                        assert(self.tree_entries(p) == pre.tree_entries(p));
                        if exists|k: int|
                            0 <= k < i + 1 && (#[trigger] iv[k]).partition as int == p && e
                                == entry_of_item(iv[k], (base + k) as u64) {
                            let k = choose|k: int|
                                0 <= k < i + 1 && (#[trigger] iv[k]).partition as int == p && e
                                    == entry_of_item(iv[k], (base + k) as u64);
                            if k == i {
                                assert(iv[i as int].partition as int == pid as int);
                            }
                        }
                    }
                }
            }
            i += 1;
        }
        proof {
            assert(i == count);
            assert(base + count <= SEQNO_MAX);
        }
        let ghost mid = *self;
        self.next_seqno = base + (count as u64);
        self.visible_seqno = self.next_seqno - 1;
        proof {
            assert(self.partitions@ == mid.partitions@);
            assert forall|p: int| 0 <= p < self.partitions@.len() implies #[trigger] self.tree_entries(
                p,
            ) == mid.tree_entries(p) by {
                assert(self.partitions@[p] == mid.partitions@[p]);
            }
            assert forall|p: int, e: Entry|
                0 <= p < self.partitions@.len() implies (#[trigger] self.tree_entries(p).contains(
                e,
            ) <==> (old(self).tree_entries(p).contains(e) || (exists|k: int|
                0 <= k < i && (#[trigger] iv[k]).partition as int == p && e == entry_of_item(
                    iv[k],
                    (base + k) as u64,
                )))) by {
                assert(mid.tree_entries(p).contains(e) <==> (old(self).tree_entries(p).contains(e)
                    || (exists|k: int|
                    0 <= k < i && (#[trigger] iv[k]).partition as int == p && e == entry_of_item(
                        iv[k],
                        (base + k) as u64,
                    ))));
            }
            assert forall|p: int, e1: Entry, e2: Entry|
                0 <= p < self.partitions@.len() && #[trigger] self.tree_entries(p).contains(e1)
                    && #[trigger] self.tree_entries(p).contains(e2) && e1.key == e2.key && e1.seqno
                    == e2.seqno implies e1 == e2 by {
                let o1 = old(self).tree_entries(p).contains(e1);
                let o2 = old(self).tree_entries(p).contains(e2);
                if !o1 {
                    let k1 = choose|k: int|
                        0 <= k < i && (#[trigger] iv[k]).partition as int == p && e1
                            == entry_of_item(iv[k], (base + k) as u64);
                    assert(0 <= base + k1 <= SEQNO_MAX);
                    assert(e1.seqno == base + k1);
                    if !o2 {
                        let k2 = choose|k: int|
                            0 <= k < i && (#[trigger] iv[k]).partition as int == p && e2
                                == entry_of_item(iv[k], (base + k) as u64);
                        assert(0 <= base + k2 <= SEQNO_MAX);
                        assert(e2.seqno == base + k2);
                        assert(k1 == k2);
                        assert(e1 == e2);
                    } else {
                        assert(e2.seqno < base);
                        assert(false);
                    }
                } else if !o2 {
                    let k2 = choose|k: int|
                        0 <= k < i && (#[trigger] iv[k]).partition as int == p && e2
                            == entry_of_item(iv[k], (base + k) as u64);
                    assert(0 <= base + k2 <= SEQNO_MAX);
                    assert(e2.seqno == base + k2);
                    assert(e1.seqno < base);
                    assert(false);
                } else {
                    assert(e1 == e2);
                }
            }
        }
        Ok(base)
    }

    /// A point read of one partition at the latest committed stamp.
    pub fn get(&self, partition: &PartitionHandle, key: &Vec<u8>) -> (r: Result<
        Option<Vec<u8>>,
        Error,
    >)
        requires
            self.wf(),
        ensures
            (r is Err) == (partition.id as int >= self.partitions@.len()),
            r matches Err(e) ==> e == Error::InvalidArgument,
            r matches Ok(v) ==> reads_as(
                self.tree_entries(partition.id as int),
                key@,
                self.visible_seqno,
                opt_bytes(v),
            ),
    {
        if partition.id >= self.partitions.len() {
            return Err(Error::InvalidArgument);
        }
        let got = self.partitions[partition.id].tree.get_internal(key, self.visible_seqno);
        match got {
            Option::None => Ok(None),
            Option::Some(item) => {
                if item.is_tombstone() {
                    proof {
                        assert(is_newest_match(
                            self.tree_entries(partition.id as int),
                            item@,
                            key@,
                            self.visible_seqno,
                        ));
                    }
                    Ok(None)
                } else {
                    let v = copy_bytes(&item.value);
                    Ok(Some(v))
                }
            },
        }
    }

    /// Commits a single insert outside any transaction.
    pub fn insert(&mut self, partition: &PartitionHandle, key: &Vec<u8>, value: &Vec<u8>) -> (r:
        Result<SeqNo, Error>)
        requires
            old(self).wf(),
            partition.id < old(self).partitions@.len(),
            1 <= key@.len(),
            key@.len() + 8 <= 0xFFFF,
            value@.len() <= 0xFFFF,
        ensures
            r matches Ok(base) ==> ({
                &&& final(self).wf()
                &&& base == old(self).next_seqno
                &&& final(self).next_seqno == base + 1
                &&& final(self).visible_seqno == base
                &&& final(self).poisoned == old(self).poisoned
                &&& final(self).snapshots == old(self).snapshots
                &&& final(self).partitions@.len() == old(self).partitions@.len()
                &&& forall|p: int|
                    0 <= p < old(self).partitions@.len() ==> (#[trigger] final(self).partitions@[p]).name@
                        == old(self).partitions@[p].name@
                &&& final(self).journal@ == old(self).journal@ + batch_bytes(
                    BatchView {
                        seqno: base,
                        items: seq![
                            ItemView {
                                partition: partition.id as u64,
                                key: key@,
                                value: value@,
                                is_tombstone: false,
                            },
                        ],
                    },
                )
                &&& forall|p: int, e: Entry|
                    0 <= p < old(self).partitions@.len() ==> (#[trigger] final(self).tree_entries(
                        p,
                    ).contains(e) <==> (old(self).tree_entries(p).contains(e) || (p
                        == partition.id as int && e == Entry {
                        key: key@,
                        value: value@,
                        seqno: base,
                        tombstone: false,
                    })))
            }),
            r matches Err(e) ==> (e == Error::Poisoned && final(self).partitions@
                == old(self).partitions@ && final(self).journal@ == old(self).journal@
                && final(self).next_seqno == old(self).next_seqno && final(self).visible_seqno
                == old(self).visible_seqno && final(self).snapshots == old(self).snapshots
                && final(self).config == old(self).config && final(self).poisoned),
            (r is Err) == (old(self).poisoned || old(self).next_seqno + 1 > SEQNO_MAX),
    {
        let item = BatchItem {
            partition: partition.id as u64,
            key: copy_bytes(key),
            value: copy_bytes(value),
            is_tombstone: false,
        };
        let mut items: Vec<BatchItem> = Vec::new();
        items.push(item);
        proof {
            assert(views_of_items(items@).len() == 1);
        }
        proof {
            let iv = views_of_items(items@);
            assert(iv[0] == items@[0]@);
            assert(old(self).item_ok(iv[0]));
            assert forall|k: int| 0 <= k < iv.len() implies old(self).item_ok(#[trigger] iv[k]) by {
                assert(k == 0);
            }
        }
        let r = self.commit_batch(items);
        match r {
            Ok(base) => {
                proof {
                    let iv = views_of_items(items@);
                    assert(iv[0] == items@[0]@);
                    assert(iv =~= seq![
                        ItemView {
                            partition: partition.id as u64,
                            key: key@,
                            value: value@,
                            is_tombstone: false,
                        },
                    ]);
                    assert(entry_of_item(iv[0], base) == Entry {
                        key: key@,
                        value: value@,
                        seqno: base,
                        tombstone: false,
                    });
                }
                Ok(base)
            },
            Err(e) => Err(e),
        }
    }

    /// Commits a single delete outside any transaction.
    pub fn remove(&mut self, partition: &PartitionHandle, key: &Vec<u8>) -> (r: Result<
        SeqNo,
        Error,
    >)
        requires
            old(self).wf(),
            partition.id < old(self).partitions@.len(),
            1 <= key@.len(),
            key@.len() + 8 <= 0xFFFF,
        ensures
            r matches Ok(base) ==> ({
                &&& final(self).wf()
                &&& base == old(self).next_seqno
                &&& final(self).next_seqno == base + 1
                &&& final(self).visible_seqno == base
                &&& final(self).poisoned == old(self).poisoned
                &&& final(self).snapshots == old(self).snapshots
                &&& final(self).partitions@.len() == old(self).partitions@.len()
                &&& forall|p: int|
                    0 <= p < old(self).partitions@.len() ==> (#[trigger] final(self).partitions@[p]).name@
                        == old(self).partitions@[p].name@
                &&& final(self).journal@ == old(self).journal@ + batch_bytes(
                    BatchView {
                        seqno: base,
                        items: seq![
                            ItemView {
                                partition: partition.id as u64,
                                key: key@,
                                value: Seq::<u8>::empty(),
                                is_tombstone: true,
                            },
                        ],
                    },
                )
                &&& forall|p: int, e: Entry|
                    0 <= p < old(self).partitions@.len() ==> (#[trigger] final(self).tree_entries(
                        p,
                    ).contains(e) <==> (old(self).tree_entries(p).contains(e) || (p
                        == partition.id as int && e == Entry {
                        key: key@,
                        value: Seq::<u8>::empty(),
                        seqno: base,
                        tombstone: true,
                    })))
            }),
            r matches Err(e) ==> (e == Error::Poisoned && final(self).partitions@
                == old(self).partitions@ && final(self).journal@ == old(self).journal@
                && final(self).next_seqno == old(self).next_seqno && final(self).visible_seqno
                == old(self).visible_seqno && final(self).snapshots == old(self).snapshots
                && final(self).config == old(self).config && final(self).poisoned),
            (r is Err) == (old(self).poisoned || old(self).next_seqno + 1 > SEQNO_MAX),
    {
        let item = BatchItem {
            partition: partition.id as u64,
            key: copy_bytes(key),
            value: Vec::new(),
            is_tombstone: true,
        };
        proof {
            assert(item.value@ =~= Seq::<u8>::empty());
        }
        let mut items: Vec<BatchItem> = Vec::new();
        items.push(item);
        proof {
            assert(views_of_items(items@).len() == 1);
        }
        proof {
            let iv = views_of_items(items@);
            assert(iv[0] == items@[0]@);
            assert(old(self).item_ok(iv[0]));
            assert forall|k: int| 0 <= k < iv.len() implies old(self).item_ok(#[trigger] iv[k]) by {
                assert(k == 0);
            }
        }
        let r = self.commit_batch(items);
        match r {
            Ok(base) => {
                proof {
                    let iv = views_of_items(items@);
                    assert(iv[0] == items@[0]@);
                    assert(iv =~= seq![
                        ItemView {
                            partition: partition.id as u64,
                            key: key@,
                            value: Seq::<u8>::empty(),
                            is_tombstone: true,
                        },
                    ]);
                }
                Ok(base)
            },
            Err(e) => Err(e),
        }
    }
}

/// Two committed batches assign disjoint, ordered stamp runs: every
/// stamp of the later batch exceeds every stamp of the earlier one.
/// The bases and counts are what `commit_batch` returns and takes:
/// the second base is at or past the first batch's end.
pub proof fn lemma_seqno_monotonic(base1: int, count1: int, base2: int, i: int, j: int)
    requires
        base1 + count1 <= base2,
        0 <= i < count1,
        0 <= j,
    ensures
        base1 + i < base2 + j,
{
}

/// Snapshot monotonicity: a commit only adds entries stamped past
/// the snapshot, so what a reader at that snapshot observes does not
/// change.
pub proof fn lemma_snapshot_monotonic(
    older: Seq<Entry>,
    newer: Seq<Entry>,
    key: Seq<u8>,
    snapshot: SeqNo,
    res: Option<Seq<u8>>,
)
    requires
        forall|e: Entry| older.contains(e) ==> #[trigger] newer.contains(e),
        forall|e: Entry| #[trigger] newer.contains(e) ==> older.contains(e) || e.seqno > snapshot,
    ensures
        reads_as(older, key, snapshot, res) == reads_as(newer, key, snapshot, res),
{
    assert forall|e: Entry|
        is_newest_match(older, e, key, snapshot) implies is_newest_match(
        newer,
        e,
        key,
        snapshot,
    ) by {
        assert forall|i: int|
            0 <= i < newer.len() && crate::value::entry_matches(
                #[trigger] newer[i],
                key,
                snapshot,
            ) implies newer[i].seqno <= e.seqno by {
            assert(newer.contains(newer[i]));
            assert(older.contains(newer[i]));
            let k = choose|k: int| 0 <= k < older.len() && older[k] == newer[i];
            assert(older[k].seqno <= e.seqno);
        }
    }
    assert forall|e: Entry|
        is_newest_match(newer, e, key, snapshot) implies is_newest_match(
        older,
        e,
        key,
        snapshot,
    ) by {
        assert(newer.contains(e));
        assert(older.contains(e));
        assert forall|i: int|
            0 <= i < older.len() && crate::value::entry_matches(
                #[trigger] older[i],
                key,
                snapshot,
            ) implies older[i].seqno <= e.seqno by {
            assert(older.contains(older[i]));
            assert(newer.contains(older[i]));
            let k = choose|k: int| 0 <= k < newer.len() && newer[k] == older[i];
            assert(newer[k].seqno <= e.seqno);
        }
    }
    assert(no_match(older, key, snapshot) == no_match(newer, key, snapshot)) by {
        if no_match(older, key, snapshot) {
            assert forall|i: int| 0 <= i < newer.len() implies !crate::value::entry_matches(
                #[trigger] newer[i],
                key,
                snapshot,
            ) by {
                assert(newer.contains(newer[i]));
                if older.contains(newer[i]) {
                    let k = choose|k: int| 0 <= k < older.len() && older[k] == newer[i];
                }
            }
        }
        if no_match(newer, key, snapshot) {
            assert forall|i: int| 0 <= i < older.len() implies !crate::value::entry_matches(
                #[trigger] older[i],
                key,
                snapshot,
            ) by {
                assert(older.contains(older[i]));
                assert(newer.contains(older[i]));
                let k = choose|k: int| 0 <= k < newer.len() && newer[k] == older[i];
            }
        }
    }
}

} // verus!
