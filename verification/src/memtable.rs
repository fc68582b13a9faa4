//! The in-memory ordered buffer of pending writes.
use crate::sorted_run::{has_key_seqno, insert_sorted, opt_view, run_get, views_of};
use crate::value::{best_for, entries_sorted, Entry, InternalValue, SeqNo, SEQNO_MAX};
use vstd::prelude::*;

verus! {

/// `a + b`, clamped at the largest 64-bit value.
pub open spec fn sat_add(a: u64, b: u64) -> u64 {
    if a + b > SEQNO_MAX {
        SEQNO_MAX
    } else {
        (a + b) as u64
    }
}

fn sat_add_u64(a: u64, b: u64) -> (r: u64)
    ensures
        r == sat_add(a, b),
{
    if b > 0xFFFF_FFFF_FFFF_FFFF - a {
        0xFFFF_FFFF_FFFF_FFFF
    } else {
        a + b
    }
}

/// An ordered map from (key, stamp) to (value, kind), with a byte
/// size estimate. Writers append new versions; readers see a newest
/// version at or below their snapshot.
pub struct MemTable {
    /// The run, strictly sorted in the internal order.
    pub entries: Vec<InternalValue>,
    /// Rough sum of key and value lengths ever inserted, clamped.
    pub approximate_size: u64,
}

impl View for MemTable {
    type V = Seq<Entry>;

    open spec fn view(&self) -> Seq<Entry> {
        views_of(self.entries@)
    }
}

impl MemTable {
    /// The structural invariant: the run is strictly sorted, which
    /// also makes (key, stamp) pairs unique.
    pub open spec fn wf(self) -> bool {
        entries_sorted(self@)
    }

    /// An empty memtable.
    pub fn new() -> (r: MemTable)
        ensures
            r.wf(),
            r@ == Seq::<Entry>::empty(),
            r.approximate_size == 0,
    {
        let r = MemTable { entries: Vec::new(), approximate_size: 0 };
        assert(r@ =~= Seq::<Entry>::empty());
        r
    }

    /// Inserts one version. A version under an already-present
    /// (key, stamp) pair replaces the old one; everything else is
    /// untouched. The size estimate grows by the entry's weight,
    /// clamped.
    pub fn insert(&mut self, item: InternalValue)
        requires
            old(self).wf(),
        ensures
            final(self).wf(),
            forall|e: Entry| #[trigger]
                final(self)@.contains(e) <==> ((old(self)@.contains(e) && !(e.key == item@.key
                    && e.seqno == item@.seqno)) || e == item@),
            final(self)@.len() == old(self)@.len() + (if has_key_seqno(
                old(self)@,
                item@.key,
                item@.seqno,
            ) {
                0int
            } else {
                1int
            }),
            final(self).approximate_size == sat_add(
                sat_add(old(self).approximate_size, item@.key.len() as u64),
                item@.value.len() as u64,
            ),
    {
        let klen = item.key.len() as u64;
        let vlen = item.value.len() as u64;
        self.approximate_size = sat_add_u64(sat_add_u64(self.approximate_size, klen), vlen);
        insert_sorted(&mut self.entries, item);
    }

    /// The newest version of `key` with stamp at or below
    /// `max_seqno` (unrestricted when `None`); a tombstone is
    /// returned as such, callers interpret it.
    pub fn get(&self, key: &Vec<u8>, max_seqno: Option<SeqNo>) -> (r: Option<InternalValue>)
        ensures
            best_for(
                self@,
                key@,
                match max_seqno {
                    Option::None => SEQNO_MAX,
                    Option::Some(s) => s,
                },
                opt_view(r),
            ),
    {
        let limit = match max_seqno {
            Option::None => 0xFFFF_FFFF_FFFF_FFFF,
            Option::Some(s) => s,
        };
        run_get(&self.entries, key, limit)
    }

    /// How many versions the memtable holds.
    pub fn len(&self) -> (r: usize)
        ensures
            r == self@.len(),
    {
        self.entries.len()
    }

    /// True when nothing was ever inserted.
    pub fn is_empty(&self) -> (r: bool)
        ensures
            r == (self@.len() == 0),
    {
        self.entries.len() == 0
    }

    /// The clamped size estimate.
    pub fn size_in_bytes(&self) -> (r: u64)
        ensures
            r == self.approximate_size,
    {
        self.approximate_size
    }
}

} // verus!
