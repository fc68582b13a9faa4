//! Write transactions: a private memtable per partition over a
//! captured snapshot, read-your-own-writes, and an atomic commit
//! through the shared batch path. Holding the transaction owns the
//! keyspace, which is the single-writer lock in this model.
use crate::error::Error;
use crate::journal::{views_of_items, BatchItem, BatchView, ItemView};
use crate::keyspace::{entry_of_item, opt_bytes, reads_as, Keyspace, PartitionHandle};
use crate::memtable::MemTable;
use crate::sorted_run::{collect_filtered, views_of};
use crate::tree::TreeInner;
use crate::compaction::merge_compress;
use crate::value::{
    copy_bytes, is_newest_match, no_match, Entry, InternalValue, SeqNo, ValueType, SEQNO_MAX,
};
use vstd::prelude::*;

verus! {

/// A single-writer, cross-partition transaction. Reads see the
/// transaction's own writes first, then the keyspace as it stood at
/// `instant`. Dropping the transaction (or `rollback`) discards the
/// private writes.
pub struct WriteTransaction {
    /// The keyspace, owned for the transaction's lifetime: ownership
    /// is the serializing write lock.
    pub keyspace: Keyspace,
    /// One private memtable per partition, all entries stamped with
    /// the shadowing sentinel.
    pub memtables: Vec<MemTable>,
    /// The snapshot this transaction reads the keyspace at.
    pub instant: SeqNo,
}

impl WriteTransaction {
    /// The private entries staged for partition `p`.
    pub open spec fn mem_entries(self, p: int) -> Seq<Entry> {
        self.memtables@[p]@
    }

    /// How many writes this transaction has staged, over all
    /// partitions.
    pub open spec fn total_staged(self) -> int {
        staged_counts(self.memtables@)
    }

    /// The committed entries of partition `p`.
    pub open spec fn tree_entries(self, p: int) -> Seq<Entry> {
        self.keyspace.tree_entries(p)
    }

    /// The transaction invariant: the keyspace is well formed, the
    /// snapshot is the latest committed stamp, and every private
    /// entry carries the sentinel stamp and fits the journal frame.
    pub open spec fn wf(self) -> bool {
        &&& self.keyspace.wf()
        &&& self.memtables@.len() == self.keyspace.partitions@.len()
        &&& self.instant == self.keyspace.visible_seqno
        &&& forall|p: int| 0 <= p < self.memtables@.len() ==> (#[trigger] self.memtables@[p]).wf()
        &&& forall|p: int, e: Entry|
            0 <= p < self.memtables@.len() && #[trigger] self.mem_entries(p).contains(e) ==> (
            e.seqno == SEQNO_MAX && 1 <= e.key.len() && e.key.len() + 8 <= 0xFFFF && e.value.len()
                <= 0xFFFF)
    }

    /// The transaction has staged a write for this key.
    pub open spec fn has_private(self, p: int, key: Seq<u8>) -> bool {
        exists|e: Entry| #[trigger] self.mem_entries(p).contains(e) && e.key == key
    }

    /// What a read of `key` in partition `p` observes: the staged
    /// write if there is one (a staged delete observes nothing),
    /// else the keyspace at the snapshot.
    pub open spec fn observes(self, p: int, key: Seq<u8>, res: Option<Seq<u8>>) -> bool {
        if self.has_private(p, key) {
            exists|e: Entry| #[trigger]
                self.mem_entries(p).contains(e) && e.key == key && res == (if e.tombstone {
                    Option::<Seq<u8>>::None
                } else {
                    Option::Some(e.value)
                })
        } else {
            reads_as(self.tree_entries(p), key, self.instant, res)
        }
    }

    /// Opens a transaction over the keyspace, capturing the current
    /// committed stamp as its snapshot.
    pub fn new(keyspace: Keyspace) -> (r: WriteTransaction)
        requires
            keyspace.wf(),
        ensures
            r.wf(),
            r.keyspace == keyspace,
            r.instant == keyspace.visible_seqno,
            forall|p: int|
                0 <= p < r.memtables@.len() ==> (#[trigger] r.mem_entries(p)) == Seq::<
                    Entry,
                >::empty(),
    {
        let instant = keyspace.visible_seqno;
        let n = keyspace.partitions.len();
        let mut memtables: Vec<MemTable> = Vec::new();
        let mut i: usize = 0;
        while i < n
            invariant
                i <= n,
                memtables@.len() == i,
                forall|p: int|
                    0 <= p < i ==> (#[trigger] memtables@[p]).wf() && memtables@[p]@ == Seq::<
                        Entry,
                    >::empty(),
            decreases n - i,
        {
            memtables.push(MemTable::new());
            i += 1;
        }
        WriteTransaction { keyspace, memtables, instant }
    }

    /// Retrieves `key` from the transaction's state: its own writes
    /// shadow the snapshot (read-your-own-writes). Rejected exactly
    /// when the handle names no partition.
    pub fn get(&self, partition: &PartitionHandle, key: &Vec<u8>) -> (r: Result<
        Option<Vec<u8>>,
        Error,
    >)
        requires
            self.wf(),
        ensures
            (r is Err) == (partition.id as int >= self.keyspace.partitions@.len()),
            r matches Err(e) ==> e == Error::InvalidArgument,
            r matches Ok(v) ==> self.observes(partition.id as int, key@, opt_bytes(v)),
    {
        if partition.id >= self.keyspace.partitions.len() {
            return Err(Error::InvalidArgument);
        }
        let pid = partition.id;
        match self.memtables[pid].get(key, None) {
            Option::Some(item) => {
                proof {
                    assert(is_newest_match(self.mem_entries(pid as int), item@, key@, SEQNO_MAX));
                    assert(self.mem_entries(pid as int).contains(item@));
                }
                if item.is_tombstone() {
                    Ok(None)
                } else {
                    Ok(Some(copy_bytes(&item.value)))
                }
            },
            Option::None => {
                proof {
                    assert(no_match(self.mem_entries(pid as int), key@, SEQNO_MAX));
                    assert forall|e: Entry| #[trigger]
                        self.mem_entries(pid as int).contains(e) implies e.key != key@ by {
                        let k = choose|k: int|
                            0 <= k < self.mem_entries(pid as int).len() && self.mem_entries(
                                pid as int,
                            )[k] == e;
                    }
                }
                let got = self.keyspace.partitions[pid].tree.get_internal(key, self.instant);
                match got {
                    Option::None => Ok(None),
                    Option::Some(item) => {
                        if item.is_tombstone() {
                            proof {
                                assert(is_newest_match(
                                    self.tree_entries(pid as int),
                                    item@,
                                    key@,
                                    self.instant,
                                ));
                            }
                            Ok(None)
                        } else {
                            Ok(Some(copy_bytes(&item.value)))
                        }
                    },
                }
            },
        }
    }

    /// True when the transaction's state holds `key`.
    pub fn contains_key(&self, partition: &PartitionHandle, key: &Vec<u8>) -> (r: Result<
        bool,
        Error,
    >)
        requires
            self.wf(),
        ensures
            (r is Err) == (partition.id as int >= self.keyspace.partitions@.len()),
            r matches Ok(b) ==> exists|res: Option<Seq<u8>>|
                self.observes(partition.id as int, key@, res) && b == (res is Some),
    {
        match self.get(partition, key) {
            Ok(v) => {
                proof {
                    assert(self.observes(partition.id as int, key@, opt_bytes(v)));
                }
                Ok(match v {
                    Option::Some(_) => true,
                    Option::None => false,
                })
            },
            Err(e) => Err(e),
        }
    }

    /// Stages an insert: after it, reading `key` in this transaction
    /// yields `value`. Nothing reaches the keyspace before commit.
    pub fn insert(&mut self, partition: &PartitionHandle, key: &Vec<u8>, value: &Vec<u8>)
        requires
            old(self).wf(),
            partition.id < old(self).keyspace.partitions@.len(),
            1 <= key@.len(),
            key@.len() + 8 <= 0xFFFF,
            value@.len() <= 0xFFFF,
        ensures
            final(self).wf(),
            final(self).keyspace == old(self).keyspace,
            final(self).instant == old(self).instant,
            final(self).observes(partition.id as int, key@, Some(value@)),
            forall|p: int|
                0 <= p < old(self).memtables@.len() && p != partition.id as int
                    ==> #[trigger] final(self).memtables@[p] == old(self).memtables@[p],
            forall|e: Entry| #[trigger]
                final(self).mem_entries(partition.id as int).contains(e) <==> ((old(
                    self,
                ).mem_entries(partition.id as int).contains(e) && e.key != key@) || e == (Entry {
                    key: key@,
                    value: value@,
                    seqno: SEQNO_MAX,
                    tombstone: false,
                })),
    {
        let item = InternalValue::from_components(
            copy_bytes(key),
            copy_bytes(value),
            0xFFFF_FFFF_FFFF_FFFF,
            ValueType::Value,
        );
        self.stage(partition.id, item);
    }

    /// Stages a delete: after it, reading `key` in this transaction
    /// yields nothing, whatever the snapshot holds.
    pub fn remove(&mut self, partition: &PartitionHandle, key: &Vec<u8>)
        requires
            old(self).wf(),
            partition.id < old(self).keyspace.partitions@.len(),
            1 <= key@.len(),
            key@.len() + 8 <= 0xFFFF,
        ensures
            final(self).wf(),
            final(self).keyspace == old(self).keyspace,
            final(self).instant == old(self).instant,
            final(self).observes(partition.id as int, key@, None::<Seq<u8>>),
            forall|p: int|
                0 <= p < old(self).memtables@.len() && p != partition.id as int
                    ==> #[trigger] final(self).memtables@[p] == old(self).memtables@[p],
            forall|e: Entry| #[trigger]
                final(self).mem_entries(partition.id as int).contains(e) <==> ((old(
                    self,
                ).mem_entries(partition.id as int).contains(e) && e.key != key@) || e == (Entry {
                    key: key@,
                    value: Seq::<u8>::empty(),
                    seqno: SEQNO_MAX,
                    tombstone: true,
                })),
    {
        let item = InternalValue::new_tombstone(copy_bytes(key), 0xFFFF_FFFF_FFFF_FFFF);
        self.stage(partition.id, item);
    }

    /// Puts one sentinel-stamped entry into the partition's private
    /// memtable, replacing a staged write of the same key.
    fn stage(&mut self, pid: usize, item: InternalValue)
        requires
            old(self).wf(),
            pid < old(self).memtables@.len(),
            item@.seqno == SEQNO_MAX,
            1 <= item@.key.len(),
            item@.key.len() + 8 <= 0xFFFF,
            item@.value.len() <= 0xFFFF,
        ensures
            final(self).wf(),
            final(self).keyspace == old(self).keyspace,
            final(self).instant == old(self).instant,
            final(self).memtables@.len() == old(self).memtables@.len(),
            forall|p: int|
                0 <= p < old(self).memtables@.len() && p != pid as int
                    ==> #[trigger] final(self).memtables@[p] == old(self).memtables@[p],
            forall|e: Entry| #[trigger]
                final(self).mem_entries(pid as int).contains(e) <==> ((old(self).mem_entries(
                    pid as int,
                ).contains(e) && e.key != item@.key) || e == item@),
            final(self).observes(
                pid as int,
                item@.key,
                if item@.tombstone {
                    Option::<Seq<u8>>::None
                } else {
                    Option::Some(item@.value)
                },
            ),
    {
        let ghost it = item@;
        let mut mem = self.memtables.remove(pid);
        let ghost pre = mem@;
        mem.insert(item);
        self.memtables.insert(pid, mem);
        proof {
            old(self).memtables@.remove_ensures(pid as int);
            old(self).memtables@.remove(pid as int).insert_ensures(
                pid as int,
                self.memtables@[pid as int],
            );
            assert(self.memtables@.len() == old(self).memtables@.len());
            assert forall|p: int|
                0 <= p < self.memtables@.len() && p != pid as int implies #[trigger] self.memtables@[p]
                == old(self).memtables@[p] by {
                if p < pid {
                    assert(old(self).memtables@.remove(pid as int)[p] == old(self).memtables@[p]);
                } else {
                    assert(old(self).memtables@.remove(pid as int)[p - 1] == old(
                        self,
                    ).memtables@[p]);
                }
            }
            assert forall|e: Entry| #[trigger]
                self.mem_entries(pid as int).contains(e) <==> ((old(self).mem_entries(
                pid as int,
            ).contains(e) && e.key != it.key) || e == it) by {
                if self.mem_entries(pid as int).contains(e) && e != it && e.key == it.key {
                    // a staged write of the same key carries the
                    // sentinel stamp, so the insert replaced it
                    assert(old(self).mem_entries(pid as int).contains(e) && !(e.key == it.key
                        && e.seqno == it.seqno));
                    assert(e.seqno == SEQNO_MAX);
                    assert(false);
                }
                if old(self).mem_entries(pid as int).contains(e) && e.key != it.key {
                    assert(!(e.key == it.key && e.seqno == it.seqno));
                }
            }
            assert(self.mem_entries(pid as int).contains(it));
            assert forall|p: int|
                0 <= p < self.memtables@.len() implies (#[trigger] self.memtables@[p]).wf() by {
                if p != pid {
                    assert(self.memtables@[p] == old(self).memtables@[p]);
                }
            }
            assert forall|p: int, e: Entry|
                0 <= p < self.memtables@.len() && #[trigger] self.mem_entries(p).contains(
                    e,
                ) implies (e.seqno == SEQNO_MAX && 1 <= e.key.len() && e.key.len() + 8 <= 0xFFFF
                && e.value.len() <= 0xFFFF) by {
                if p != pid {
                    assert(self.memtables@[p] == old(self).memtables@[p]);
                    assert(old(self).mem_entries(p).contains(e));
                } else {
                    if e != it {
                        assert(old(self).mem_entries(pid as int).contains(e));
                    }
                }
            }
        }
    }

    /// Removes `key` and returns the value it had in the
    /// transaction's state, staging the delete.
    pub fn take(&mut self, partition: &PartitionHandle, key: &Vec<u8>) -> (r: Result<
        Option<Vec<u8>>,
        Error,
    >)
        requires
            old(self).wf(),
            partition.id < old(self).keyspace.partitions@.len(),
            1 <= key@.len(),
            key@.len() + 8 <= 0xFFFF,
        ensures
            final(self).wf(),
            final(self).keyspace == old(self).keyspace,
            final(self).instant == old(self).instant,
            r matches Ok(prev) ==> old(self).observes(partition.id as int, key@, opt_bytes(prev))
                && final(self).observes(partition.id as int, key@, None::<Seq<u8>>),
            r is Ok,
    {
        let prev = match self.get(partition, key) {
            Ok(p) => p,
            Err(e) => {
                return Err(e);
            },
        };
        self.remove(partition, key);
        Ok(prev)
    }

    /// Applies `f` to the current value of `key` and stages the
    /// result: a new value is written, `None` removes the key. The
    /// new value is returned.
    pub fn update_fetch<F: Fn(Option<Vec<u8>>) -> Option<Vec<u8>>>(
        &mut self,
        partition: &PartitionHandle,
        key: &Vec<u8>,
        f: F,
    ) -> (r: Result<Option<Vec<u8>>, Error>)
        requires
            old(self).wf(),
            partition.id < old(self).keyspace.partitions@.len(),
            1 <= key@.len(),
            key@.len() + 8 <= 0xFFFF,
            forall|x: Option<Vec<u8>>| #[trigger] f.requires((x,)),
            forall|x: Option<Vec<u8>>, y: Option<Vec<u8>>| #[trigger]
                f.ensures((x,), y) ==> (y matches Some(v) ==> v@.len() <= 0xFFFF),
        ensures
            final(self).wf(),
            final(self).keyspace == old(self).keyspace,
            final(self).instant == old(self).instant,
            r matches Ok(ret) ==> exists|pv: Option<Vec<u8>>, upd: Option<Vec<u8>>|
                {
                    &&& old(self).observes(partition.id as int, key@, opt_bytes(pv))
                    &&& #[trigger] f.ensures((pv,), upd)
                    &&& opt_bytes(ret) == opt_bytes(upd)
                    &&& final(self).observes(partition.id as int, key@, opt_bytes(upd))
                },
            r is Ok,
    {
        let prev = match self.get(partition, key) {
            Ok(p) => p,
            Err(e) => {
                return Err(e);
            },
        };
        let prev2 = match &prev {
            Option::Some(v) => Option::Some(copy_bytes(v)),
            Option::None => Option::None,
        };
        proof {
            assert(opt_bytes(prev2) == opt_bytes(prev));
        }
        let updated = f(prev2);
        match &updated {
            Option::Some(v) => {
                self.insert(partition, key, v);
            },
            Option::None => {
                if prev.is_some() {
                    self.remove(partition, key);
                } else {
                    proof {
                        assert(old(self).observes(partition.id as int, key@, None::<Seq<u8>>));
                    }
                }
            },
        }
        let ret = updated;
        Ok(ret)
    }

    /// Applies `f` to the current value of `key` and stages the
    /// result, returning the previous value.
    pub fn fetch_update<F: Fn(Option<Vec<u8>>) -> Option<Vec<u8>>>(
        &mut self,
        partition: &PartitionHandle,
        key: &Vec<u8>,
        f: F,
    ) -> (r: Result<Option<Vec<u8>>, Error>)
        requires
            old(self).wf(),
            partition.id < old(self).keyspace.partitions@.len(),
            1 <= key@.len(),
            key@.len() + 8 <= 0xFFFF,
            forall|x: Option<Vec<u8>>| #[trigger] f.requires((x,)),
            forall|x: Option<Vec<u8>>, y: Option<Vec<u8>>| #[trigger]
                f.ensures((x,), y) ==> (y matches Some(v) ==> v@.len() <= 0xFFFF),
        ensures
            final(self).wf(),
            final(self).keyspace == old(self).keyspace,
            final(self).instant == old(self).instant,
            r matches Ok(ret) ==> exists|pv: Option<Vec<u8>>, upd: Option<Vec<u8>>|
                {
                    &&& old(self).observes(partition.id as int, key@, opt_bytes(pv))
                    &&& #[trigger] f.ensures((pv,), upd)
                    &&& opt_bytes(ret) == opt_bytes(pv)
                    &&& final(self).observes(partition.id as int, key@, opt_bytes(upd))
                },
            r is Ok,
    {
        let prev = match self.get(partition, key) {
            Ok(p) => p,
            Err(e) => {
                return Err(e);
            },
        };
        let prev2 = match &prev {
            Option::Some(v) => Option::Some(copy_bytes(v)),
            Option::None => Option::None,
        };
        proof {
            assert(opt_bytes(prev2) == opt_bytes(prev));
        }
        let updated = f(prev2);
        match &updated {
            Option::Some(v) => {
                self.insert(partition, key, v);
            },
            Option::None => {
                if prev.is_some() {
                    self.remove(partition, key);
                } else {
                    proof {
                        assert(old(self).observes(partition.id as int, key@, None::<Seq<u8>>));
                    }
                }
            },
        }
        Ok(prev)
    }

    /// Rolls the transaction back: the private writes are dropped
    /// and the keyspace is handed back untouched.
    pub fn rollback(self) -> (r: Keyspace)
        ensures
            r == self.keyspace,
    {
        self.keyspace
    }

    /// Commits the transaction: every staged write is assigned a
    /// fresh stamp past the snapshot and distributed through one
    /// atomic batch; the keyspace is handed back. Nothing already
    /// committed is lost, nothing beyond the staged writes appears.
    /// A refused commit hands the keyspace back untouched but for
    /// the poison flag: no partial mutation.
    #[verifier::loop_isolation(false)]
    #[verifier::rlimit(100)]
    #[verifier::spinoff_prover]
    pub fn commit(self) -> (r: Result<Keyspace, (Keyspace, Error)>)
        requires
            self.wf(),
        ensures
            (r is Err) == (self.keyspace.poisoned || self.keyspace.next_seqno
                + self.total_staged() > SEQNO_MAX || self.total_staged() > 0xFFFF_FFFF),
            r matches Err(back) ==> ({
                &&& (back.1 == Error::Poisoned || back.1 == Error::InvalidArgument)
                &&& back.0.partitions@ == self.keyspace.partitions@
                &&& back.0.journal@ == self.keyspace.journal@
                &&& back.0.next_seqno == self.keyspace.next_seqno
                &&& back.0.visible_seqno == self.keyspace.visible_seqno
                &&& back.0.snapshots == self.keyspace.snapshots
                &&& back.0.config == self.keyspace.config
            }),
            r matches Ok(ks) ==> ({
                &&& ks.wf()
                &&& ks.partitions@.len() == self.keyspace.partitions@.len()
                &&& self.instant < ks.next_seqno
                &&& ks.next_seqno == self.keyspace.next_seqno + self.total_staged()
                &&& ks.visible_seqno == ks.next_seqno - 1
                &&& exists|iv: Seq<ItemView>|
                    iv.len() == self.total_staged() && #[trigger] items_sound(
                        self,
                        iv,
                        self.keyspace.partitions@.len() as int,
                    ) && covered_upto(self, iv, self.keyspace.partitions@.len() as int)
                        && ks.journal@ == self.keyspace.journal@ + crate::journal::batch_bytes(
                        BatchView { seqno: self.keyspace.next_seqno, items: iv },
                    )
                &&& forall|p: int, e: Entry|
                    0 <= p < ks.partitions@.len() && #[trigger] ks.tree_entries(p).contains(e)
                        ==> (self.tree_entries(p).contains(e) || (exists|pe: Entry| #[trigger]
                        self.mem_entries(p).contains(pe) && e.key == pe.key && e.value == pe.value
                            && e.tombstone == pe.tombstone && self.instant < e.seqno
                            < ks.next_seqno))
                &&& forall|p: int, e: Entry|
                    0 <= p < ks.partitions@.len() && #[trigger] self.tree_entries(p).contains(e)
                        ==> ks.tree_entries(p).contains(e)
                &&& forall|p: int, pe: Entry|
                    0 <= p < ks.partitions@.len() && #[trigger] self.mem_entries(p).contains(pe)
                        ==> exists|e: Entry| #[trigger]
                        ks.tree_entries(p).contains(e) && e.key == pe.key && e.value == pe.value
                            && e.tombstone == pe.tombstone && self.instant < e.seqno
                            < ks.next_seqno
            }),
    {
        let ghost me = self;
        let WriteTransaction { keyspace, memtables, instant } = self;
        let mut ks = keyspace;
        let mut items: Vec<BatchItem> = Vec::new();
        let n = memtables.len();
        let mut p: usize = 0;
        while p < n
            invariant
                p <= n,
                n == me.memtables@.len(),
                memtables == me.memtables,
                ks == me.keyspace,
                items@.len() == staged_counts(me.memtables@.take(p as int)),
                items_sound(me, views_of_items(items@), n as int),
                covered_upto(me, views_of_items(items@), p as int),
            decreases n - p,
        {
            let m = memtables[p].entries.len();
            let mut j: usize = 0;
            while j < m
                invariant
                    p < n,
                    n == me.memtables@.len(),
                    memtables == me.memtables,
                    ks == me.keyspace,
                    j <= m,
                    m == me.mem_entries(p as int).len(),
                    items@.len() == staged_counts(me.memtables@.take(p as int)) + j,
                    items_sound(me, views_of_items(items@), n as int),
                    covered_upto(me, views_of_items(items@), p as int),
                    covered_prefix(me, views_of_items(items@), p as int, j as int),
                decreases m - j,
            {
                let e = &memtables[p].entries[j];
                let it = BatchItem {
                    partition: p as u64,
                    key: copy_bytes(&e.key),
                    value: copy_bytes(&e.value),
                    is_tombstone: e.is_tombstone(),
                };
                proof {
                    assert(me.mem_entries(p as int)[j as int] == me.memtables@[p as int].entries@[j as int]@);
                    assert(me.mem_entries(p as int).contains(me.mem_entries(p as int)[j as int]));
                    assert(item_matches(it@, p as int, me.mem_entries(p as int)[j as int]));
                }
                let ghost pre = views_of_items(items@);
                items.push(it);
                proof {
                    let now = views_of_items(items@);
                    assert(now =~= pre.push(it@));
                    assert forall|k: int| 0 <= k < now.len() implies item_from(
                        me,
                        #[trigger] now[k],
                        n as int,
                    ) by {
                        if k < pre.len() {
                            assert(now[k] == pre[k]);
                            assert(item_from(me, pre[k], n as int));
                        } else {
                            assert(now[k] == it@);
                            assert(me.mem_entries(p as int).contains(
                                me.mem_entries(p as int)[j as int],
                            ));
                        }
                    }
                    assert(items_sound(me, now, n as int));
                    assert forall|j2: int| 0 <= j2 < j + 1 implies exists|k: int|
                        0 <= k < now.len() && item_matches(
                            #[trigger] now[k],
                            p as int,
                            #[trigger] me.mem_entries(p as int)[j2],
                        ) by {
                        if j2 < j {
                            let k = choose|k: int|
                                0 <= k < pre.len() && item_matches(
                                    #[trigger] pre[k],
                                    p as int,
                                    me.mem_entries(p as int)[j2],
                                );
                            assert(now[k] == pre[k]);
                        } else {
                            assert(now[now.len() - 1] == it@);
                        }
                    }
                    assert(covered_prefix(me, now, p as int, j + 1));
                    assert forall|p2: int, pe: Entry|
                        0 <= p2 < p && #[trigger] me.mem_entries(p2).contains(pe) implies exists|
                            k: int,
                        |
                            0 <= k < now.len() && item_matches(#[trigger] now[k], p2, pe) by {
                        let k = choose|k: int|
                            0 <= k < pre.len() && item_matches(#[trigger] pre[k], p2, pe);
                        assert(now[k] == pre[k]);
                    }
                    assert(covered_upto(me, now, p as int));
                }
                j += 1;
            }
            proof {
                assert(me.memtables@.take(p + 1).drop_last() =~= me.memtables@.take(p as int));
                assert(me.memtables@.take(p + 1).last() == me.memtables@[p as int]);
                assert(staged_counts(me.memtables@.take(p + 1)) == staged_counts(
                    me.memtables@.take(p as int),
                ) + me.mem_entries(p as int).len());
                let now = views_of_items(items@);
                assert forall|p2: int, pe: Entry|
                    0 <= p2 < p + 1 && #[trigger] me.mem_entries(p2).contains(pe) implies exists|
                        k: int,
                    |
                        0 <= k < now.len() && item_matches(#[trigger] now[k], p2, pe) by {
                    if p2 == p {
                        let j2 = choose|j2: int|
                            0 <= j2 < me.mem_entries(p as int).len() && me.mem_entries(
                                p as int,
                            )[j2] == pe;
                        assert(exists|k: int|
                            0 <= k < now.len() && item_matches(
                                #[trigger] now[k],
                                p as int,
                                me.mem_entries(p as int)[j2],
                            ));
                    }
                }
                assert(covered_upto(me, now, p + 1));
            }
            p += 1;
        }
        let ghost iv = views_of_items(items@);
        proof {
            assert(me.memtables@.take(n as int) =~= me.memtables@);
            assert(iv.len() == me.total_staged());
            assert forall|k: int| 0 <= k < iv.len() implies me.keyspace.item_ok(
                #[trigger] iv[k],
            ) by {
                assert(item_from(me, iv[k], n as int));
                let (p2, pe) = choose|p2: int, pe: Entry|
                    0 <= p2 < n && #[trigger] me.mem_entries(p2).contains(pe) && item_matches(
                        iv[k],
                        p2,
                        pe,
                    );
            }
        }
        let base = match ks.commit_batch(items) {
            Ok(b) => b,
            Err(e) => {
                return Err((ks, e));
            },
        };
        proof {
            assert(items_sound(me, iv, n as int) && covered_upto(me, iv, n as int) && iv.len()
                == me.total_staged() && ks.journal@ == me.keyspace.journal@
                + crate::journal::batch_bytes(
                BatchView { seqno: me.keyspace.next_seqno, items: iv },
            ));
            assert forall|p2: int, e: Entry|
                0 <= p2 < ks.partitions@.len() && #[trigger] ks.tree_entries(p2).contains(
                    e,
                ) implies (me.tree_entries(p2).contains(e) || (exists|pe: Entry| #[trigger]
                me.mem_entries(p2).contains(pe) && e.key == pe.key && e.value == pe.value
                    && e.tombstone == pe.tombstone && me.instant < e.seqno
                    < ks.next_seqno)) by {
                if !me.tree_entries(p2).contains(e) {
                    let k = choose|k: int|
                        0 <= k < iv.len() && (#[trigger] iv[k]).partition as int == p2 && e
                            == entry_of_item(iv[k], (base + k) as u64);
                    assert(item_from(me, iv[k], n as int));
                    let (p3, pe) = choose|p3: int, pe: Entry|
                        0 <= p3 < n && #[trigger] me.mem_entries(p3).contains(pe) && item_matches(
                            iv[k],
                            p3,
                            pe,
                        );
                    assert(p3 == p2);
                    assert(e.key == pe.key && e.value == pe.value && e.tombstone == pe.tombstone);
                    assert(me.instant < base);
                    assert(e.seqno == base + k);
                }
            }
            assert forall|p2: int, pe: Entry|
                0 <= p2 < ks.partitions@.len() && #[trigger] me.mem_entries(p2).contains(
                    pe,
                ) implies exists|e: Entry| #[trigger]
                ks.tree_entries(p2).contains(e) && e.key == pe.key && e.value == pe.value
                    && e.tombstone == pe.tombstone && me.instant < e.seqno < ks.next_seqno by {
                assert(covered_upto(me, iv, n as int));
                let k = choose|k: int| 0 <= k < iv.len() && item_matches(#[trigger] iv[k], p2, pe);
                let e = entry_of_item(iv[k], (base + k) as u64);
                assert(ks.tree_entries(p2).contains(e));
            }
        }
        Ok(ks)
    }
}

/// How many writes the memtables of a transaction stage in all.
pub open spec fn staged_counts(mems: Seq<MemTable>) -> int
    decreases mems.len(),
{
    if mems.len() == 0 {
        0
    } else {
        staged_counts(mems.drop_last()) + mems.last()@.len()
    }
}

/// The batch item came from some staged private entry.
pub open spec fn item_from(me: WriteTransaction, it: ItemView, n: int) -> bool {
    exists|p2: int, pe: Entry|
        0 <= p2 < n && #[trigger] me.mem_entries(p2).contains(pe) && item_matches(it, p2, pe)
}

/// Every built item came from a staged entry.
pub open spec fn items_sound(me: WriteTransaction, items: Seq<ItemView>, n: int) -> bool {
    forall|k: int| 0 <= k < items.len() ==> item_from(me, #[trigger] items[k], n)
}

/// Every staged entry of the first `pmax` partitions has an item.
pub open spec fn covered_upto(me: WriteTransaction, items: Seq<ItemView>, pmax: int) -> bool {
    forall|p2: int, pe: Entry|
        0 <= p2 < pmax && #[trigger] me.mem_entries(p2).contains(pe) ==> exists|k: int|
            0 <= k < items.len() && item_matches(#[trigger] items[k], p2, pe)
}

/// Every staged entry among the first `j` of partition `p` has an
/// item.
pub open spec fn covered_prefix(me: WriteTransaction, items: Seq<ItemView>, p: int, j: int) -> bool {
    forall|j2: int|
        0 <= j2 < j ==> exists|k: int|
            0 <= k < items.len() && item_matches(
                #[trigger] items[k],
                p,
                #[trigger] me.mem_entries(p)[j2],
            )
}

/// A batch item carries exactly one staged private entry of one
/// partition.
pub open spec fn item_matches(it: ItemView, p: int, pe: Entry) -> bool {
    &&& it.partition == p as u64
    &&& it.key == pe.key
    &&& it.value == pe.value
    &&& it.is_tombstone == pe.tombstone
}

/// Read-your-own-writes, staged insert: once a transaction holds a
/// staged write of `value` under `key`, every read of `key` in that
/// transaction observes exactly `value`.
pub proof fn lemma_read_your_writes_insert(
    tx: WriteTransaction,
    p: int,
    key: Seq<u8>,
    value: Seq<u8>,
)
    requires
        tx.wf(),
        0 <= p < tx.memtables@.len(),
        tx.mem_entries(p).contains(
            Entry { key, value, seqno: SEQNO_MAX, tombstone: false },
        ),
    ensures
        tx.observes(p, key, Some(value)),
        forall|res: Option<Seq<u8>>| tx.observes(p, key, res) ==> res == Some(value),
{
    let staged = Entry { key, value, seqno: SEQNO_MAX, tombstone: false };
    assert(tx.has_private(p, key));
    assert forall|res: Option<Seq<u8>>| tx.observes(p, key, res) implies res == Some(value) by {
        let e = choose|e: Entry| #[trigger]
            tx.mem_entries(p).contains(e) && e.key == key && res == (if e.tombstone {
                Option::<Seq<u8>>::None
            } else {
                Option::Some(e.value)
            });
        crate::sorted_run::lemma_sorted_unique(tx.mem_entries(p), e, staged);
    }
}

/// Read-your-own-writes, staged delete: once a transaction holds a
/// staged delete of `key`, every read of `key` in that transaction
/// observes nothing.
pub proof fn lemma_read_your_writes_remove(tx: WriteTransaction, p: int, key: Seq<u8>)
    requires
        tx.wf(),
        0 <= p < tx.memtables@.len(),
        exists|e: Entry| #[trigger] tx.mem_entries(p).contains(e) && e.key == key && e.tombstone,
    ensures
        tx.observes(p, key, None::<Seq<u8>>),
        forall|res: Option<Seq<u8>>| tx.observes(p, key, res) ==> res is None,
{
    let staged = choose|e: Entry| #[trigger]
        tx.mem_entries(p).contains(e) && e.key == key && e.tombstone;
    assert(tx.has_private(p, key));
    assert forall|res: Option<Seq<u8>>| tx.observes(p, key, res) implies res is None by {
        let e = choose|e: Entry| #[trigger]
            tx.mem_entries(p).contains(e) && e.key == key && res == (if e.tombstone {
                Option::<Seq<u8>>::None
            } else {
                Option::Some(e.value)
            });
        crate::sorted_run::lemma_sorted_unique(tx.mem_entries(p), e, staged);
    }
}

impl Keyspace {
    /// Opens a write transaction, taking the keyspace: the move is
    /// the process-wide write lock.
    pub fn write_tx(self) -> (r: WriteTransaction)
        requires
            self.wf(),
        ensures
            r.wf(),
            r.keyspace == self,
            r.instant == self.visible_seqno,
            forall|p: int|
                0 <= p < r.memtables@.len() ==> (#[trigger] r.mem_entries(p)) == Seq::<
                    Entry,
                >::empty(),
    {
        WriteTransaction::new(self)
    }
}



/// The views of a vector of key–value pairs.
pub open spec fn pairs_view(s: Seq<(Vec<u8>, Vec<u8>)>) -> Seq<(Seq<u8>, Seq<u8>)> {
    s.map_values(|p: (Vec<u8>, Vec<u8>)| (p.0@, p.1@))
}

/// The entry is visible to a merged scan: a private write, or a
/// committed entry at or below the snapshot.
pub open spec fn in_scope(mem: Seq<Entry>, tree: Seq<Entry>, instant: SeqNo, e: Entry) -> bool {
    mem.contains(e) || (tree.contains(e) && e.seqno <= instant)
}

/// The newest visible version of its key.
pub open spec fn scoped_winner(mem: Seq<Entry>, tree: Seq<Entry>, instant: SeqNo, e: Entry) -> bool {
    &&& in_scope(mem, tree, instant, e)
    &&& forall|e2: Entry|
        #[trigger] in_scope(mem, tree, instant, e2) && e2.key == e.key ==> e2.seqno <= e.seqno
}

/// The pairs' keys ascend strictly.
pub open spec fn pairs_sorted(pairs: Seq<(Seq<u8>, Seq<u8>)>) -> bool {
    forall|i: int, j: int|
        0 <= i < j < pairs.len() ==> crate::keyorder::lex_lt(
            (#[trigger] pairs[i]).0,
            (#[trigger] pairs[j]).0,
        )
}

/// Every pair carries its witness: the visible non-tombstone newest
/// version it was read from.
pub open spec fn pairs_witnessed(
    mem: Seq<Entry>,
    tree: Seq<Entry>,
    instant: SeqNo,
    pairs: Seq<(Seq<u8>, Seq<u8>)>,
    ws: Seq<Entry>,
) -> bool {
    &&& ws.len() == pairs.len()
    &&& forall|i: int|
        #![trigger ws[i]]
        0 <= i < pairs.len() ==> scoped_winner(mem, tree, instant, ws[i]) && !ws[i].tombstone
            && ws[i].key == pairs[i].0 && ws[i].value == pairs[i].1
}

/// Every visible non-tombstone newest version appears as a pair.
pub open spec fn pairs_complete(
    mem: Seq<Entry>,
    tree: Seq<Entry>,
    instant: SeqNo,
    pairs: Seq<(Seq<u8>, Seq<u8>)>,
) -> bool {
    forall|e: Entry|
        #![trigger scoped_winner(mem, tree, instant, e)]
        scoped_winner(mem, tree, instant, e) && !e.tombstone ==> exists|i: int|
            0 <= i < pairs.len() && #[trigger] pairs[i] == (e.key, e.value)
}

/// What a merged ordered scan yields: for every key with a visible,
/// non-tombstone newest version, exactly one pair carrying that
/// version's value, in strictly ascending key order.
pub open spec fn merged_spec(
    mem: Seq<Entry>,
    tree: Seq<Entry>,
    instant: SeqNo,
    pairs: Seq<(Seq<u8>, Seq<u8>)>,
    ws: Seq<Entry>,
) -> bool {
    &&& pairs_sorted(pairs)
    &&& pairs_witnessed(mem, tree, instant, pairs, ws)
    &&& pairs_complete(mem, tree, instant, pairs)
}

/// The merged ordered scan of one tree under a private overlay.
#[verifier::loop_isolation(false)]
#[verifier::rlimit(100)]
#[verifier::spinoff_prover]
fn merged_pairs(tree: &TreeInner, mem: &MemTable, instant: SeqNo) -> (r: (
    Vec<(Vec<u8>, Vec<u8>)>,
    Ghost<Seq<Entry>>,
))
    requires
        tree.wf(),
        mem.wf(),
        forall|e: Entry| #[trigger] mem@.contains(e) ==> e.seqno == SEQNO_MAX,
        forall|e: Entry| #[trigger] tree.all_entries().contains(e) ==> e.seqno < SEQNO_MAX,
        forall|e1: Entry, e2: Entry|
            tree.all_entries().contains(e1) && tree.all_entries().contains(e2) && e1.key == e2.key
                && e1.seqno == e2.seqno ==> e1 == e2,
    ensures
        merged_spec(mem@, tree.all_entries(), instant, pairs_view(r.0@), r.1@),
{
    let ghost tv = tree.all_entries();
    let mut all: Vec<InternalValue> = Vec::new();
    proof {
        assert(views_of(all@) =~= Seq::<Entry>::empty());
    }
    collect_filtered(&mut all, &mem.entries, 0xFFFF_FFFF_FFFF_FFFF);
    proof {
        assert forall|e: Entry| #[trigger] views_of(all@).contains(e) <==> mem@.contains(e) by {}
        assert forall|e1: Entry, e2: Entry|
            views_of(all@).contains(e1) && tv.contains(e2) && e1.key == e2.key && e1.seqno
                == e2.seqno implies e1 == e2 by {
            assert(e1.seqno == SEQNO_MAX && e2.seqno < SEQNO_MAX);
        }
    }
    tree.collect_all(&mut all, instant);
    let ghost av = views_of(all@);
    proof {
        assert forall|e: Entry| #[trigger]
            av.contains(e) <==> in_scope(mem@, tv, instant, e) by {}
    }
    let merged = merge_compress(&all, true, None);
    let ghost mv = views_of(merged@);
    proof {
        // membership in the merge output is exactly visible
        // newest-version-hood
        assert forall|e: Entry| #[trigger]
            mv.contains(e) <==> (scoped_winner(mem@, tv, instant, e) && !e.tombstone) by {
            if mv.contains(e) {
                assert(av.contains(e) && is_newest_match(av, e, e.key, SEQNO_MAX));
                assert forall|e2: Entry|
                    #[trigger] in_scope(mem@, tv, instant, e2) && e2.key == e.key implies e2.seqno
                    <= e.seqno by {
                    assert(av.contains(e2));
                    let k = choose|k: int| 0 <= k < av.len() && av[k] == e2;
                    assert(crate::value::entry_matches(av[k], e.key, SEQNO_MAX));
                }
            }
            if scoped_winner(mem@, tv, instant, e) && !e.tombstone {
                assert(av.contains(e));
                assert(is_newest_match(av, e, e.key, SEQNO_MAX)) by {
                    assert forall|k: int|
                        0 <= k < av.len() && crate::value::entry_matches(
                            #[trigger] av[k],
                            e.key,
                            SEQNO_MAX,
                        ) implies av[k].seqno <= e.seqno by {
                        assert(av.contains(av[k]));
                        assert(in_scope(mem@, tv, instant, av[k]));
                    }
                }
            }
        }
    }
    let mut out: Vec<(Vec<u8>, Vec<u8>)> = Vec::new();
    let mut i: usize = 0;
    while i < merged.len()
        invariant
            i <= merged@.len(),
            mv == views_of(merged@),
            pairs_view(out@).len() == i,
            forall|k: int|
                0 <= k < i ==> (#[trigger] pairs_view(out@)[k]).0 == mv[k].key && pairs_view(
                    out@,
                )[k].1 == mv[k].value,
        decreases merged@.len() - i,
    {
        let k = copy_bytes(&merged[i].key);
        let v = copy_bytes(&merged[i].value);
        let ghost pre = pairs_view(out@);
        out.push((k, v));
        proof {
            assert(pairs_view(out@) =~= pre.push((mv[i as int].key, mv[i as int].value)));
        }
        i += 1;
    }
    proof {
        lemma_pairs_spec(mem@, tv, instant, mv, pairs_view(out@));
    }
    (out, Ghost(mv))
}

/// A sorted run of exactly the visible newest versions, read off as
/// pairs, satisfies the merged-scan contract.
proof fn lemma_pairs_spec(
    mem: Seq<Entry>,
    tv: Seq<Entry>,
    instant: SeqNo,
    mv: Seq<Entry>,
    pv: Seq<(Seq<u8>, Seq<u8>)>,
)
    requires
        forall|e: Entry| #[trigger]
            mv.contains(e) <==> (scoped_winner(mem, tv, instant, e) && !e.tombstone),
        crate::value::entries_sorted(mv),
        pv.len() == mv.len(),
        forall|k: int|
            0 <= k < pv.len() ==> (#[trigger] pv[k]).0 == mv[k].key && pv[k].1 == mv[k].value,
    ensures
        merged_spec(mem, tv, instant, pv, mv),
{
    assert forall|i: int, j: int| 0 <= i < j < pv.len() implies crate::keyorder::lex_lt(
        (#[trigger] pv[i]).0,
        (#[trigger] pv[j]).0,
    ) by {
        assert(crate::value::entry_lt(mv[i], mv[j]));
        assert(mv.contains(mv[i]) && mv.contains(mv[j]));
        if mv[i].key == mv[j].key {
            assert(scoped_winner(mem, tv, instant, mv[i]) && scoped_winner(
                mem,
                tv,
                instant,
                mv[j],
            ));
            assert(in_scope(mem, tv, instant, mv[i]) && in_scope(mem, tv, instant, mv[j]));
            assert(mv[i].seqno <= mv[j].seqno && mv[j].seqno <= mv[i].seqno);
        }
    }
    assert forall|i: int| #![trigger mv[i]] 0 <= i < pv.len() implies scoped_winner(
        mem,
        tv,
        instant,
        mv[i],
    ) && !mv[i].tombstone && mv[i].key == pv[i].0 && mv[i].value == pv[i].1 by {
        assert(mv.contains(mv[i]));
    }
    assert forall|e: Entry|
        #![trigger scoped_winner(mem, tv, instant, e)]
        scoped_winner(mem, tv, instant, e) && !e.tombstone implies exists|i: int|
        0 <= i < pv.len() && #[trigger] pv[i] == (e.key, e.value) by {
        assert(mv.contains(e));
        let k = choose|k: int| 0 <= k < mv.len() && mv[k] == e;
        assert(pv[k].0 == e.key && pv[k].1 == e.value);
        assert(pv[k] == (e.key, e.value));
    }
    assert(pairs_sorted(pv));
    assert(pairs_witnessed(mem, tv, instant, pv, mv));
    assert(pairs_complete(mem, tv, instant, pv));
}


impl WriteTransaction {
    /// The ordered scan of the transaction's state of one partition:
    /// private writes merged over the snapshot, newest version per
    /// key, tombstoned keys absent. The ghost component carries the
    /// witnessing entries.
    pub fn iter(&self, partition: &PartitionHandle) -> (r: (
        Vec<(Vec<u8>, Vec<u8>)>,
        Ghost<Seq<Entry>>,
    ))
        requires
            self.wf(),
            partition.id < self.keyspace.partitions@.len(),
        ensures
            merged_spec(
                self.mem_entries(partition.id as int),
                self.tree_entries(partition.id as int),
                self.instant,
                pairs_view(r.0@),
                r.1@,
            ),
    {
        let pid = partition.id;
        proof {
            assert forall|e: Entry| #[trigger]
                self.tree_entries(pid as int).contains(e) implies e.seqno < SEQNO_MAX by {
                assert(e.seqno < self.keyspace.next_seqno);
            }
            assert(self.keyspace.partitions@[pid as int].tree.all_entries() == self.tree_entries(
                pid as int,
            ));
            assert(self.memtables@[pid as int]@ == self.mem_entries(pid as int));
        }
        merged_pairs(
            &self.keyspace.partitions[pid].tree,
            &self.memtables[pid],
            self.instant,
        )
    }

    /// The ordered scan restricted to keys between `lower` and
    /// `upper`, both inclusive.
    #[verifier::loop_isolation(false)]
    pub fn range(&self, partition: &PartitionHandle, lower: &Vec<u8>, upper: &Vec<u8>) -> (r: (
        Vec<(Vec<u8>, Vec<u8>)>,
        Ghost<Seq<Entry>>,
    ))
        requires
            self.wf(),
            partition.id < self.keyspace.partitions@.len(),
        ensures
            pairs_sorted(pairs_view(r.0@)),
            pairs_witnessed(
                self.mem_entries(partition.id as int),
                self.tree_entries(partition.id as int),
                self.instant,
                pairs_view(r.0@),
                r.1@,
            ),
            forall|k: int|
                0 <= k < pairs_view(r.0@).len() ==> crate::keyorder::lex_le(
                    lower@,
                    (#[trigger] pairs_view(r.0@)[k]).0,
                ) && crate::keyorder::lex_le(pairs_view(r.0@)[k].0, upper@),
            forall|e: Entry|
                #![trigger scoped_winner(self.mem_entries(partition.id as int), self.tree_entries(partition.id as int), self.instant, e)]
                scoped_winner(
                    self.mem_entries(partition.id as int),
                    self.tree_entries(partition.id as int),
                    self.instant,
                    e,
                ) && !e.tombstone && crate::keyorder::lex_le(lower@, e.key)
                    && crate::keyorder::lex_le(e.key, upper@) ==> exists|i: int|
                    0 <= i < pairs_view(r.0@).len() && #[trigger] pairs_view(r.0@)[i] == (
                    e.key,
                    e.value,
                ),
    {
        let (full, ws) = self.iter(partition);
        self.filter_pairs(partition, full, ws, lower, upper, false)
    }

    /// The ordered scan restricted to keys beginning with `prefix`.
    #[verifier::loop_isolation(false)]
    pub fn prefix(&self, partition: &PartitionHandle, prefix: &Vec<u8>) -> (r: (
        Vec<(Vec<u8>, Vec<u8>)>,
        Ghost<Seq<Entry>>,
    ))
        requires
            self.wf(),
            partition.id < self.keyspace.partitions@.len(),
        ensures
            pairs_sorted(pairs_view(r.0@)),
            pairs_witnessed(
                self.mem_entries(partition.id as int),
                self.tree_entries(partition.id as int),
                self.instant,
                pairs_view(r.0@),
                r.1@,
            ),
            forall|k: int|
                0 <= k < pairs_view(r.0@).len() ==> crate::keyorder::is_prefix_of(
                    prefix@,
                    (#[trigger] pairs_view(r.0@)[k]).0,
                ),
            forall|e: Entry|
                #![trigger scoped_winner(self.mem_entries(partition.id as int), self.tree_entries(partition.id as int), self.instant, e)]
                scoped_winner(
                    self.mem_entries(partition.id as int),
                    self.tree_entries(partition.id as int),
                    self.instant,
                    e,
                ) && !e.tombstone && crate::keyorder::is_prefix_of(prefix@, e.key) ==> exists|
                    i: int,
                |
                    0 <= i < pairs_view(r.0@).len() && #[trigger] pairs_view(r.0@)[i] == (
                    e.key,
                    e.value,
                ),
    {
        let (full, ws) = self.iter(partition);
        self.filter_pairs(partition, full, ws, prefix, prefix, true)
    }

    /// Keeps the pairs whose key lies between the bounds (or, in
    /// prefix mode, begins with the first bound).
    #[verifier::loop_isolation(false)]
    #[verifier::rlimit(100)]
    #[verifier::spinoff_prover]
    fn filter_pairs(
        &self,
        partition: &PartitionHandle,
        full: Vec<(Vec<u8>, Vec<u8>)>,
        ws: Ghost<Seq<Entry>>,
        lo: &Vec<u8>,
        hi: &Vec<u8>,
        prefix_mode: bool,
    ) -> (r: (Vec<(Vec<u8>, Vec<u8>)>, Ghost<Seq<Entry>>))
        requires
            self.wf(),
            partition.id < self.keyspace.partitions@.len(),
            merged_spec(
                self.mem_entries(partition.id as int),
                self.tree_entries(partition.id as int),
                self.instant,
                pairs_view(full@),
                ws@,
            ),
        ensures
            pairs_sorted(pairs_view(r.0@)),
            pairs_witnessed(
                self.mem_entries(partition.id as int),
                self.tree_entries(partition.id as int),
                self.instant,
                pairs_view(r.0@),
                r.1@,
            ),
            forall|k: int|
                0 <= k < pairs_view(r.0@).len() ==> key_selected(
                    (#[trigger] pairs_view(r.0@)[k]).0,
                    lo@,
                    hi@,
                    prefix_mode,
                ),
            forall|e: Entry|
                #![trigger scoped_winner(self.mem_entries(partition.id as int), self.tree_entries(partition.id as int), self.instant, e)]
                scoped_winner(
                    self.mem_entries(partition.id as int),
                    self.tree_entries(partition.id as int),
                    self.instant,
                    e,
                ) && !e.tombstone && key_selected(e.key, lo@, hi@, prefix_mode) ==> exists|i: int|
                    0 <= i < pairs_view(r.0@).len() && #[trigger] pairs_view(r.0@)[i] == (
                    e.key,
                    e.value,
                ),
    {
        let ghost mem = self.mem_entries(partition.id as int);
        let ghost tre = self.tree_entries(partition.id as int);
        let ghost fv = pairs_view(full@);
        let mut out: Vec<(Vec<u8>, Vec<u8>)> = Vec::new();
        let ghost mut ows: Seq<Entry> = Seq::empty();
        let ghost mut idxs: Seq<int> = Seq::empty();
        let ghost mut where_of: Seq<int> = Seq::empty();
        let mut j: usize = 0;
        while j < full.len()
            invariant
                j <= fv.len(),
                fv == pairs_view(full@),
                idxs.len() == pairs_view(out@).len(),
                ows.len() == pairs_view(out@).len(),
                where_of.len() == j,
                forall|p: int, q: int| 0 <= p < q < idxs.len() ==> idxs[p] < idxs[q],
                forall|p: int|
                    0 <= p < idxs.len() ==> 0 <= #[trigger] idxs[p] < j && pairs_view(out@)[p]
                        == fv[idxs[p]] && ows[p] == ws@[idxs[p]] && key_selected(
                        fv[idxs[p]].0,
                        lo@,
                        hi@,
                        prefix_mode,
                    ),
                forall|j2: int|
                    0 <= j2 < j && key_selected((#[trigger] fv[j2]).0, lo@, hi@, prefix_mode)
                        ==> 0 <= where_of[j2] < pairs_view(out@).len() && pairs_view(
                        out@,
                    )[where_of[j2]] == fv[j2],
            decreases fv.len() - j,
        {
            let keep = if prefix_mode {
                crate::keyorder::has_prefix(&full[j].0, lo)
            } else {
                let c1 = crate::keyorder::key_cmp(lo, &full[j].0);
                let c2 = crate::keyorder::key_cmp(&full[j].0, hi);
                !matches!(c1, crate::keyorder::KeyOrd::Greater) && !matches!(
                    c2,
                    crate::keyorder::KeyOrd::Greater,
                )
            };
            proof {
                assert(keep == key_selected(fv[j as int].0, lo@, hi@, prefix_mode));
            }
            let ghost pre = pairs_view(out@);
            if keep {
                let k = copy_bytes(&full[j].0);
                let v = copy_bytes(&full[j].1);
                out.push((k, v));
                proof {
                    assert(pairs_view(out@) =~= pre.push(fv[j as int]));
                    idxs = idxs.push(j as int);
                    ows = ows.push(ws@[j as int]);
                    where_of = where_of.push(pre.len() as int);
                }
            } else {
                proof {
                    where_of = where_of.push(-1);
                }
            }
            proof {
                assert forall|j2: int|
                    0 <= j2 < j + 1 && key_selected(
                        (#[trigger] fv[j2]).0,
                        lo@,
                        hi@,
                        prefix_mode,
                    ) implies 0 <= where_of[j2] < pairs_view(out@).len() && pairs_view(
                    out@,
                )[where_of[j2]] == fv[j2] by {
                    if j2 < j {
                        assert(pre[where_of[j2]] == fv[j2]);
                        if pairs_view(out@) != pre {
                            assert(pairs_view(out@)[where_of[j2]] == pre[where_of[j2]]);
                        }
                    } else {
                        assert(keep);
                        assert(pairs_view(out@)[pre.len() as int] == fv[j2]);
                    }
                }
            }
            j += 1;
        }
        proof {
            let ov = pairs_view(out@);
            assert forall|p: int, q: int| 0 <= p < q < ov.len() implies crate::keyorder::lex_lt(
                (#[trigger] ov[p]).0,
                (#[trigger] ov[q]).0,
            ) by {
                assert(crate::keyorder::lex_lt(fv[idxs[p]].0, fv[idxs[q]].0));
            }
            assert forall|p: int|
                #![trigger ows[p]]
                0 <= p < ov.len() implies scoped_winner(mem, tre, self.instant, ows[p])
                && !ows[p].tombstone && ows[p].key == ov[p].0 && ows[p].value == ov[p].1 by {
                assert(ws@[idxs[p]].key == fv[idxs[p]].0);
            }
            assert forall|k: int| 0 <= k < ov.len() implies key_selected(
                (#[trigger] ov[k]).0,
                lo@,
                hi@,
                prefix_mode,
            ) by {
                assert(ov[k] == fv[idxs[k]]);
            }
            assert forall|e: Entry|
                #![trigger scoped_winner(mem, tre, self.instant, e)]
                scoped_winner(mem, tre, self.instant, e) && !e.tombstone && key_selected(
                    e.key,
                    lo@,
                    hi@,
                    prefix_mode,
                ) implies exists|i: int|
                0 <= i < ov.len() && #[trigger] ov[i] == (e.key, e.value) by {
                let i0 = choose|i0: int| 0 <= i0 < fv.len() && #[trigger] fv[i0] == (e.key, e.value);
                assert(key_selected(fv[i0].0, lo@, hi@, prefix_mode));
                assert(ov[where_of[i0]] == fv[i0]);
            }
        }
                (out, Ghost(ows))
    }

    /// The first (smallest-key) visible pair of the partition's
    /// state, or nothing when the scan is empty.
    pub fn first_key_value(&self, partition: &PartitionHandle) -> (r: Result<
        Option<(Vec<u8>, Vec<u8>)>,
        Error,
    >)
        requires
            self.wf(),
            partition.id < self.keyspace.partitions@.len(),
        ensures
            r matches Ok(opt) && exists|pairs: Seq<(Seq<u8>, Seq<u8>)>, w: Seq<Entry>|
                #[trigger] merged_spec(
                    self.mem_entries(partition.id as int),
                    self.tree_entries(partition.id as int),
                    self.instant,
                    pairs,
                    w,
                ) && (match opt {
                    Option::None => pairs.len() == 0,
                    Option::Some(kv) => pairs.len() > 0 && (kv.0@, kv.1@) == pairs[0],
                }),
    {
        let (full, _ws) = self.iter(partition);
        if full.len() == 0 {
            Ok(None)
        } else {
            let k = copy_bytes(&full[0].0);
            let v = copy_bytes(&full[0].1);
            proof {
                assert((k@, v@) == pairs_view(full@)[0]);
            }
            Ok(Some((k, v)))
        }
    }

    /// The last (largest-key) visible pair of the partition's state,
    /// or nothing when the scan is empty.
    pub fn last_key_value(&self, partition: &PartitionHandle) -> (r: Result<
        Option<(Vec<u8>, Vec<u8>)>,
        Error,
    >)
        requires
            self.wf(),
            partition.id < self.keyspace.partitions@.len(),
        ensures
            r matches Ok(opt) && exists|pairs: Seq<(Seq<u8>, Seq<u8>)>, w: Seq<Entry>|
                #[trigger] merged_spec(
                    self.mem_entries(partition.id as int),
                    self.tree_entries(partition.id as int),
                    self.instant,
                    pairs,
                    w,
                ) && (match opt {
                    Option::None => pairs.len() == 0,
                    Option::Some(kv) => pairs.len() > 0 && (kv.0@, kv.1@) == pairs[pairs.len() - 1],
                }),
    {
        let (full, _ws) = self.iter(partition);
        if full.len() == 0 {
            Ok(None)
        } else {
            let n = full.len();
            let k = copy_bytes(&full[n - 1].0);
            let v = copy_bytes(&full[n - 1].1);
            proof {
                assert((k@, v@) == pairs_view(full@)[full@.len() - 1]);
            }
            Ok(Some((k, v)))
        }
    }

    /// How many keys the transaction's state holds in the partition:
    /// the length of its ordered scan.
    pub fn len(&self, partition: &PartitionHandle) -> (r: Result<usize, Error>)
        requires
            self.wf(),
            partition.id < self.keyspace.partitions@.len(),
        ensures
            r matches Ok(n) && exists|pairs: Seq<(Seq<u8>, Seq<u8>)>, w: Seq<Entry>|
                #[trigger] merged_spec(
                    self.mem_entries(partition.id as int),
                    self.tree_entries(partition.id as int),
                    self.instant,
                    pairs,
                    w,
                ) && n == pairs.len(),
    {
        let (full, _ws) = self.iter(partition);
        Ok(full.len())
    }
}

/// Whether a key falls inside the scan's bound: between `lo` and
/// `hi` inclusive, or carrying `lo` as a prefix in prefix mode.
pub open spec fn key_selected(key: Seq<u8>, lo: Seq<u8>, hi: Seq<u8>, prefix_mode: bool) -> bool {
    if prefix_mode {
        crate::keyorder::is_prefix_of(lo, key)
    } else {
        crate::keyorder::lex_le(lo, key) && crate::keyorder::lex_le(key, hi)
    }
}

/// A cheap read-only view of the keyspace at a captured stamp.
pub struct ReadTransaction {
    /// The stamp this reader observes the keyspace at.
    pub instant: SeqNo,
}

impl Keyspace {
    /// Opens a read transaction at the latest committed stamp and
    /// registers its snapshot.
    pub fn read_tx(&mut self) -> (r: ReadTransaction)
        requires
            old(self).wf(),
        ensures
            final(self).wf(),
            r.instant == old(self).visible_seqno,
            final(self).partitions@ == old(self).partitions@,
            final(self).journal@ == old(self).journal@,
            final(self).next_seqno == old(self).next_seqno,
            final(self).visible_seqno == old(self).visible_seqno,
            final(self).snapshots.seqnos@ == old(self).snapshots.seqnos@.push(
                old(self).visible_seqno,
            ),
    {
        let instant = self.visible_seqno;
        self.snapshots.open(instant);
        proof {
            assert forall|p: int|
                0 <= p < self.partitions@.len() implies #[trigger] self.tree_entries(p) == old(
                self,
            ).tree_entries(p) by {
                assert(self.partitions@[p] == old(self).partitions@[p]);
            }
        }
        ReadTransaction { instant }
    }
}

impl ReadTransaction {
    /// A point read at the captured stamp: later commits do not
    /// change what this returns.
    pub fn get(&self, ks: &Keyspace, partition: &PartitionHandle, key: &Vec<u8>) -> (r: Result<
        Option<Vec<u8>>,
        Error,
    >)
        requires
            ks.wf(),
        ensures
            (r is Err) == (partition.id as int >= ks.partitions@.len()),
            r matches Ok(v) ==> reads_as(
                ks.tree_entries(partition.id as int),
                key@,
                self.instant,
                opt_bytes(v),
            ),
    {
        if partition.id >= ks.partitions.len() {
            return Err(Error::InvalidArgument);
        }
        let got = ks.partitions[partition.id].tree.get_internal(key, self.instant);
        match got {
            Option::None => Ok(None),
            Option::Some(item) => {
                proof {
                    assert(is_newest_match(
                        ks.tree_entries(partition.id as int),
                        item@,
                        key@,
                        self.instant,
                    ));
                }
                if item.is_tombstone() {
                    Ok(None)
                } else {
                    Ok(Some(copy_bytes(&item.value)))
                }
            },
        }
    }

    /// The ordered scan of one partition at the captured stamp.
    pub fn iter(&self, ks: &Keyspace, partition: &PartitionHandle) -> (r: (
        Vec<(Vec<u8>, Vec<u8>)>,
        Ghost<Seq<Entry>>,
    ))
        requires
            ks.wf(),
            partition.id < ks.partitions@.len(),
        ensures
            merged_spec(
                Seq::<Entry>::empty(),
                ks.tree_entries(partition.id as int),
                self.instant,
                pairs_view(r.0@),
                r.1@,
            ),
    {
        let empty = MemTable::new();
        proof {
            assert forall|e: Entry| #[trigger]
                ks.tree_entries(partition.id as int).contains(e) implies e.seqno < SEQNO_MAX by {
                assert(e.seqno < ks.next_seqno);
            }
            assert(ks.partitions@[partition.id as int].tree.all_entries() == ks.tree_entries(
                partition.id as int,
            ));
            assert forall|e: Entry| #[trigger] empty@.contains(e) implies e.seqno == SEQNO_MAX by {
                assert(false);
            }
        }
        merged_pairs(&ks.partitions[partition.id].tree, &empty, self.instant)
    }

    /// Releases the snapshot this reader held.
    pub fn release(self, ks: &mut Keyspace)
        requires
            old(ks).wf(),
        ensures
            final(ks).wf(),
            final(ks).partitions@ == old(ks).partitions@,
            final(ks).journal@ == old(ks).journal@,
            final(ks).next_seqno == old(ks).next_seqno,
            final(ks).visible_seqno == old(ks).visible_seqno,
    {
        ks.snapshots.close(self.instant);
        proof {
            assert forall|p: int|
                0 <= p < ks.partitions@.len() implies #[trigger] ks.tree_entries(p) == old(
                ks,
            ).tree_entries(p) by {
                assert(ks.partitions@[p] == old(ks).partitions@[p]);
            }
        }
    }
}

} // verus!
