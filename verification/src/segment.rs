//! Immutable sorted runs with their metadata. On disk these are the
//! tree's segment files; here the run is held in memory and the
//! metadata is proved to describe it.
use crate::keyorder::{key_cmp, lex_le, lex_lt, KeyOrd};
use crate::sorted_run::{opt_view, run_get, views_of};
use crate::value::{
    best_for, copy_bytes, entries_sorted, Entry, InternalValue, SeqNo,
};
use vstd::prelude::*;

verus! {

/// How many delete markers a run holds.
pub open spec fn count_tombstones(s: Seq<Entry>) -> nat
    decreases s.len(),
{
    if s.len() == 0 {
        0
    } else {
        count_tombstones(s.drop_last()) + (if s.last().tombstone {
            1nat
        } else {
            0nat
        })
    }
}

/// An immutable sorted run plus the metadata the manifest keeps.
pub struct Segment {
    /// Unique within a keyspace lifetime.
    pub id: u64,
    /// The run, strictly sorted in the internal order.
    pub entries: Vec<InternalValue>,
    /// Smallest user key in the run (empty for an empty run).
    pub key_min: Vec<u8>,
    /// Largest user key in the run (empty for an empty run).
    pub key_max: Vec<u8>,
    /// Smallest stamp in the run.
    pub seqno_min: SeqNo,
    /// Largest stamp in the run.
    pub seqno_max: SeqNo,
    /// How many entries the run holds.
    pub item_count: u64,
    /// How many of them are delete markers.
    pub tombstone_count: u64,
}

/// The mathematical shadow of a segment.
pub struct SegmentView {
    pub id: u64,
    pub entries: Seq<Entry>,
    pub key_min: Seq<u8>,
    pub key_max: Seq<u8>,
    pub seqno_min: SeqNo,
    pub seqno_max: SeqNo,
    pub item_count: u64,
    pub tombstone_count: u64,
}

impl View for Segment {
    type V = SegmentView;

    open spec fn view(&self) -> SegmentView {
        SegmentView {
            id: self.id,
            entries: views_of(self.entries@),
            key_min: self.key_min@,
            key_max: self.key_max@,
            seqno_min: self.seqno_min,
            seqno_max: self.seqno_max,
            item_count: self.item_count,
            tombstone_count: self.tombstone_count,
        }
    }
}

/// The metadata describes the run: counts are exact, the key range
/// and stamp range cover every entry, and the range ends are the
/// first and last keys of the sorted run.
pub open spec fn seg_wf(s: SegmentView) -> bool {
    &&& entries_sorted(s.entries)
    &&& s.item_count == s.entries.len()
    &&& s.tombstone_count == count_tombstones(s.entries)
    &&& s.entries.len() == 0 ==> (s.key_min == Seq::<u8>::empty() && s.key_max == Seq::<
        u8,
    >::empty())
    &&& s.entries.len() > 0 ==> (s.key_min == s.entries[0].key && s.key_max == s.entries[s.entries.len()
        - 1].key)
    &&& forall|i: int|
        0 <= i < s.entries.len() ==> lex_le(s.key_min, (#[trigger] s.entries[i]).key) && lex_le(
            s.entries[i].key,
            s.key_max,
        ) && s.seqno_min <= s.entries[i].seqno <= s.seqno_max
}

/// Two segments' key ranges share no key. An empty run overlaps
/// nothing.
pub open spec fn ranges_disjoint(a: SegmentView, b: SegmentView) -> bool {
    ||| a.entries.len() == 0
    ||| b.entries.len() == 0
    ||| lex_lt(a.key_max, b.key_min)
    ||| lex_lt(b.key_max, a.key_min)
}

impl Segment {
    /// Builds a segment from a sorted run, computing the metadata
    /// it is described by.
    pub fn from_entries(id: u64, entries: Vec<InternalValue>) -> (r: Segment)
        requires
            entries_sorted(views_of(entries@)),
        ensures
            seg_wf(r@),
            r@.id == id,
            r@.entries == views_of(entries@),
    {
        let ghost ev = views_of(entries@);
        let n = entries.len();
        let mut seqno_min: u64 = 0;
        let mut seqno_max: u64 = 0;
        let mut tombstone_count: u64 = 0;
        let mut key_min: Vec<u8> = Vec::new();
        let mut key_max: Vec<u8> = Vec::new();
        if n > 0 {
            seqno_min = entries[0].seqno;
            seqno_max = entries[0].seqno;
            key_min = copy_bytes(&entries[0].key);
            key_max = copy_bytes(&entries[n - 1].key);
        }
        let mut i: usize = 0;
        while i < n
            invariant
                i <= n,
                n == entries@.len(),
                ev == views_of(entries@),
                tombstone_count as nat == count_tombstones(ev.take(i as int)),
                tombstone_count <= i,
                forall|j: int| 0 <= j < i ==> seqno_min <= (#[trigger] ev[j]).seqno <= seqno_max,
            decreases n - i,
        {
            if entries[i].seqno < seqno_min {
                seqno_min = entries[i].seqno;
            }
            if entries[i].seqno > seqno_max {
                seqno_max = entries[i].seqno;
            }
            let t = entries[i].is_tombstone();
            proof {
                assert(ev.take(i + 1).drop_last() =~= ev.take(i as int));
                assert(ev.take(i + 1).last() == ev[i as int]);
            }
            if t {
                tombstone_count = tombstone_count + 1;
            }
            i += 1;
        }
        proof {
            assert(ev.take(n as int) =~= ev);
        }
        let r = Segment {
            id,
            entries,
            key_min,
            key_max,
            seqno_min,
            seqno_max,
            item_count: n as u64,
            tombstone_count,
        };
        proof {
            if n > 0 {
                assert forall|i: int| 0 <= i < ev.len() implies lex_le(
                    r@.key_min,
                    (#[trigger] ev[i]).key,
                ) && lex_le(ev[i].key, r@.key_max) by {
                    if i > 0 {
                        assert(crate::value::entry_lt(ev[0], ev[i]));
                    }
                    if i < ev.len() - 1 {
                        assert(crate::value::entry_lt(ev[i], ev[ev.len() - 1]));
                    }
                }
            }
        }
        r
    }

    /// A point read of the run at `snapshot`.
    pub fn get(&self, key: &Vec<u8>, snapshot: SeqNo) -> (r: Option<InternalValue>)
        ensures
            best_for(self@.entries, key@, snapshot, opt_view(r)),
    {
        run_get(&self.entries, key, snapshot)
    }

    /// A deep copy of the segment.
    pub fn duplicate(&self) -> (r: Segment)
        ensures
            r@ == self@,
    {
        let mut es: Vec<InternalValue> = Vec::new();
        let mut i: usize = 0;
        while i < self.entries.len()
            invariant
                i <= self.entries@.len(),
                views_of(es@) == views_of(self.entries@).take(i as int),
            decreases self.entries@.len() - i,
        {
            let ghost pre = views_of(es@);
            let d = self.entries[i].duplicate();
            let ghost dv = d@;
            es.push(d);
            proof {
                assert(views_of(es@) =~= pre.push(dv));
                assert(dv == views_of(self.entries@)[i as int]);
                assert(views_of(self.entries@).take(i + 1) =~= views_of(self.entries@).take(
                    i as int,
                ).push(views_of(self.entries@)[i as int]));
            }
            i += 1;
        }
        let r = Segment {
            id: self.id,
            entries: es,
            key_min: copy_bytes(&self.key_min),
            key_max: copy_bytes(&self.key_max),
            seqno_min: self.seqno_min,
            seqno_max: self.seqno_max,
            item_count: self.item_count,
            tombstone_count: self.tombstone_count,
        };
        proof {
            assert(views_of(self.entries@).take(self.entries@.len() as int) =~= views_of(
                self.entries@,
            ));
        }
        r
    }
}

/// Whether two segments' key ranges are disjoint.
pub fn segs_disjoint(a: &Segment, b: &Segment) -> (r: bool)
    ensures
        r == ranges_disjoint(a@, b@),
{
    if a.entries.len() == 0 || b.entries.len() == 0 {
        return true;
    }
    let c1 = key_cmp(&a.key_max, &b.key_min);
    if matches!(c1, KeyOrd::Less) {
        return true;
    }
    let c2 = key_cmp(&b.key_max, &a.key_min);
    matches!(c2, KeyOrd::Less)
}

} // verus!
