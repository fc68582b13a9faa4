//! The counter of open snapshots: a multiset of the stamps readers
//! hold, consulted before a tombstone may be dropped.
use crate::value::SeqNo;
use vstd::prelude::*;

verus! {

/// Tracks which snapshot stamps are still held by readers.
pub struct SnapshotCounter {
    pub seqnos: Vec<SeqNo>,
}

impl SnapshotCounter {
    /// No snapshots held.
    pub fn new() -> (r: SnapshotCounter)
        ensures
            r.seqnos@ == Seq::<SeqNo>::empty(),
    {
        let r = SnapshotCounter { seqnos: Vec::new() };
        assert(r.seqnos@ =~= Seq::<SeqNo>::empty());
        r
    }

    /// A reader opened a snapshot at `seqno`.
    pub fn open(&mut self, seqno: SeqNo)
        ensures
            final(self).seqnos@ == old(self).seqnos@.push(seqno),
    {
        self.seqnos.push(seqno);
    }

    /// A reader released its snapshot at `seqno`: one occurrence
    /// leaves the multiset; a stamp never opened changes nothing.
    pub fn close(&mut self, seqno: SeqNo)
        ensures
            old(self).seqnos@.contains(seqno) ==> exists|k: int|
                0 <= k < old(self).seqnos@.len() && old(self).seqnos@[k] == seqno
                    && final(self).seqnos@ == old(self).seqnos@.remove(k),
            !old(self).seqnos@.contains(seqno) ==> final(self).seqnos@ == old(self).seqnos@,
    {
        let mut i: usize = 0;
        while i < self.seqnos.len()
            invariant
                i <= self.seqnos@.len(),
                self.seqnos@ == old(self).seqnos@,
                forall|k: int| 0 <= k < i ==> self.seqnos@[k] != seqno,
            decreases self.seqnos@.len() - i,
        {
            if self.seqnos[i] == seqno {
                self.seqnos.remove(i);
                return ;
            }
            i += 1;
        }
    }

    /// No reader holds a snapshot.
    pub fn is_empty(&self) -> (r: bool)
        ensures
            r == (self.seqnos@.len() == 0),
    {
        self.seqnos.len() == 0
    }

    /// The oldest held snapshot stamp, or nothing when none is held.
    pub fn min_live(&self) -> (r: Option<SeqNo>)
        ensures
            match r {
                Option::None => self.seqnos@.len() == 0,
                Option::Some(m) => self.seqnos@.contains(m) && forall|k: int|
                    0 <= k < self.seqnos@.len() ==> m <= #[trigger] self.seqnos@[k],
            },
    {
        if self.seqnos.len() == 0 {
            return None;
        }
        let mut m = self.seqnos[0];
        let ghost mut wit: int = 0;
        let mut i: usize = 1;
        while i < self.seqnos.len()
            invariant
                1 <= i <= self.seqnos@.len(),
                0 <= wit < self.seqnos@.len(),
                m == self.seqnos@[wit],
                forall|k: int| 0 <= k < i ==> m <= #[trigger] self.seqnos@[k],
            decreases self.seqnos@.len() - i,
        {
            if self.seqnos[i] < m {
                m = self.seqnos[i];
                proof {
                    wit = i as int;
                }
            }
            i += 1;
        }
        proof {
            assert(self.seqnos@[wit] == m);
        }
        Some(m)
    }
}

} // verus!
