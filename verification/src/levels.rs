//! The levels manifest: which segments stand in which level, a
//! hidden set for segments taken by an in-flight compaction, and the
//! atomic swap that retires merged segments.
use crate::error::Error;
use crate::segment::{ranges_disjoint, seg_wf, segs_disjoint, Segment, SegmentView};
use crate::sorted_run::views_of;
use crate::value::{entries_sorted, Entry, InternalValue};
use vstd::prelude::*;

verus! {

/// The segment views of one level.
pub open spec fn level_views(l: Seq<Segment>) -> Seq<SegmentView> {
    l.map_values(|s: Segment| s@)
}

/// A pushed element joins the members, and nothing else changes.
pub proof fn lemma_push_contains<A>(s: Seq<A>, x: A, y: A)
    ensures
        s.push(x).contains(y) <==> (s.contains(y) || y == x),
{
    if s.contains(y) {
        let k = choose|k: int| 0 <= k < s.len() && s[k] == y;
        assert(s.push(x)[k] == y);
    }
    if y == x {
        assert(s.push(x)[s.len() as int] == y);
    }
    if s.push(x).contains(y) {
        let k = choose|k: int| 0 <= k < s.push(x).len() && s.push(x)[k] == y;
        if k < s.len() {
            assert(s[k] == y);
        }
    }
}

/// A level is well formed when its segments are; levels one and
/// deeper also keep their key ranges pairwise disjoint.
pub open spec fn level_wf(l: Seq<SegmentView>, disjoint: bool) -> bool {
    &&& forall|i: int| 0 <= i < l.len() ==> seg_wf(#[trigger] l[i])
    &&& disjoint ==> forall|i: int, j: int|
        0 <= i < j < l.len() ==> ranges_disjoint(#[trigger] l[i], #[trigger] l[j])
}

/// The manifest: an ordered list of levels, the hidden set, and the
/// next fresh segment id.
pub struct Levels {
    pub levels: Vec<Vec<Segment>>,
    pub hidden: Vec<u64>,
    pub next_segment_id: u64,
}

impl Levels {
    /// The level views.
    pub open spec fn lv(self) -> Seq<Seq<SegmentView>> {
        self.levels@.map_values(|v: Vec<Segment>| level_views(v@))
    }

    /// The manifest invariant: every level well formed, level one
    /// and deeper disjoint, ids unique and below the id counter.
    pub open spec fn wf(self) -> bool {
        let lv = self.lv();
        &&& 1 <= lv.len() <= 255
        &&& forall|l: int| 0 <= l < lv.len() ==> level_wf(#[trigger] lv[l], l >= 1)
        &&& forall|l: int, i: int|
            0 <= l < lv.len() && 0 <= i < lv[l].len() ==> (#[trigger] lv[l][i]).id
                < self.next_segment_id
        &&& forall|l1: int, i1: int, l2: int, i2: int|
            0 <= l1 < lv.len() && 0 <= i1 < lv[l1].len() && 0 <= l2 < lv.len() && 0 <= i2
                < lv[l2].len() && (l1 != l2 || i1 != i2) ==> (#[trigger] lv[l1][i1]).id != (
            #[trigger] lv[l2][i2]).id
    }

    /// A segment view stands in level `l`.
    pub open spec fn in_level(self, l: int, s: SegmentView) -> bool {
        0 <= l < self.lv().len() && self.lv()[l].contains(s)
    }

    /// No two entries anywhere in the manifest share a (key, stamp)
    /// pair without being the same entry: the keyspace issues every
    /// stamp once, so its manifests always satisfy this.
    pub open spec fn coherent(self) -> bool {
        forall|l1: int, i1: int, l2: int, i2: int, e1: Entry, e2: Entry|
            0 <= l1 < self.lv().len() && 0 <= i1 < self.lv()[l1].len() && 0 <= l2 < self.lv().len()
                && 0 <= i2 < self.lv()[l2].len() && #[trigger] self.lv()[l1][i1].entries.contains(
                e1,
            ) && #[trigger] self.lv()[l2][i2].entries.contains(e2) && e1.key == e2.key && e1.seqno
                == e2.seqno ==> e1 == e2
    }

    /// A fresh manifest with `level_count` empty levels. Rejects a
    /// zero level count, and nothing else.
    pub fn create_new(level_count: u8) -> (r: Result<Levels, Error>)
        ensures
            level_count == 0 ==> r == Err::<Levels, Error>(Error::InvalidArgument),
            level_count > 0 ==> (r matches Ok(lv) && lv.wf() && lv.lv().len() == level_count
                && (forall|l: int| 0 <= l < level_count ==> (#[trigger] lv.lv()[l]).len() == 0)
                && lv.hidden@ == Seq::<u64>::empty() && lv.next_segment_id == 0),
    {
        if level_count == 0 {
            return Err(Error::InvalidArgument);
        }
        let mut levels: Vec<Vec<Segment>> = Vec::new();
        let mut i: usize = 0;
        while i < level_count as usize
            invariant
                i <= level_count as usize,
                levels@.len() == i,
                forall|l: int| 0 <= l < i ==> (#[trigger] levels@[l])@.len() == 0,
            decreases level_count as usize - i,
        {
            let empty: Vec<Segment> = Vec::new();
            levels.push(empty);
            i += 1;
        }
        let r = Levels { levels, hidden: Vec::new(), next_segment_id: 0 };
        assert(r.hidden@ =~= Seq::<u64>::empty());
        Ok(r)
    }

    /// How many levels the manifest has.
    pub fn level_count(&self) -> (r: usize)
        ensures
            r == self.lv().len(),
    {
        self.levels.len()
    }

    /// How many segments stand in level `l`.
    pub fn level_len(&self, l: usize) -> (r: usize)
        requires
            l < self.lv().len(),
        ensures
            r == self.lv()[l as int].len(),
    {
        self.levels[l].len()
    }

    /// The segment at position `i` of level `l`.
    pub fn segment_at(&self, l: usize, i: usize) -> (r: &Segment)
        requires
            l < self.lv().len(),
            i < self.lv()[l as int].len(),
        ensures
            r@ == self.lv()[l as int][i as int],
    {
        &self.levels[l][i]
    }

    /// Appends a fresh segment holding `entries` to level zero and
    /// returns its id. Fails only when the id counter is exhausted,
    /// which poisons nothing: the manifest is unchanged.
    pub fn add_segment_l0(&mut self, entries: Vec<InternalValue>) -> (r: Result<u64, Error>)
        requires
            old(self).wf(),
            entries_sorted(views_of(entries@)),
        ensures
            (r is Err) == (old(self).next_segment_id == 0xFFFF_FFFF_FFFF_FFFF),
            r matches Err(e) ==> *final(self) == *old(self) && e == Error::Poisoned,
            r matches Ok(id) ==> ({
                &&& id == old(self).next_segment_id
                &&& final(self).wf()
                &&& final(self).next_segment_id == old(self).next_segment_id + 1
                &&& final(self).hidden@ == old(self).hidden@
                &&& final(self).lv().len() == old(self).lv().len()
                &&& final(self).lv()[0].len() == old(self).lv()[0].len() + 1
                &&& final(self).lv()[0].last().entries == views_of(entries@)
                &&& final(self).lv()[0].last().id == id
                &&& seg_wf(final(self).lv()[0].last())
                &&& forall|l: int, i: int|
                    0 <= l < old(self).lv().len() && 0 <= i < old(self).lv()[l].len()
                        ==> final(self).lv()[l][i] == #[trigger] old(self).lv()[l][i]
                &&& forall|l: int|
                    1 <= l < old(self).lv().len() ==> (#[trigger] final(self).lv()[l]).len()
                        == old(self).lv()[l].len()
            }),
    {
        if self.next_segment_id == 0xFFFF_FFFF_FFFF_FFFF {
            return Err(Error::Poisoned);
        }
        let id = self.next_segment_id;
        let seg = Segment::from_entries(id, entries);
        let mut level0 = self.levels.remove(0);
        level0.push(seg);
        self.levels.insert(0, level0);
        self.next_segment_id = id + 1;
        proof {
            let olv = old(self).lv();
            let nlv = self.lv();
            assert(nlv.len() == olv.len());
            assert forall|l: int| 0 <= l < nlv.len() && l != 0 implies nlv[l] == olv[l] by {
                assert(self.levels@[l] == old(self).levels@[l]);
            }
            assert(nlv[0] =~= olv[0].push(seg@));
            assert forall|l: int| 0 <= l < nlv.len() implies level_wf(#[trigger] nlv[l], l >= 1) by {
                if l != 0 {
                    assert(level_wf(olv[l], l >= 1));
                }
            }
        }
        Ok(id)
    }
}

/// The segments of a level that no in-flight compaction has taken.
pub open spec fn visible_segs(l: Seq<SegmentView>, hidden: Seq<u64>) -> Seq<SegmentView>
    decreases l.len(),
{
    if l.len() == 0 {
        Seq::empty()
    } else {
        let rest = visible_segs(l.drop_last(), hidden);
        if hidden.contains(l.last().id) {
            rest
        } else {
            rest.push(l.last())
        }
    }
}

impl Levels {
    /// Some level holds a segment with this id.
    pub open spec fn id_present(self, id: u64) -> bool {
        exists|l: int, i: int|
            0 <= l < self.lv().len() && 0 <= i < self.lv()[l].len() && (#[trigger] self.lv()[l][i]).id
                == id
    }

    /// Marks segments as taken by a compaction. Every id must name a
    /// present segment that is not yet hidden; otherwise nothing
    /// changes and the call is rejected.
    #[verifier::loop_isolation(false)]
    pub fn hide_segments(&mut self, ids: &Vec<u64>) -> (r: Result<(), Error>)
        requires
            old(self).wf(),
        ensures
            r matches Err(e) ==> *final(self) == *old(self) && e == Error::InvalidArgument,
            (r is Err) == (exists|k: int|
                0 <= k < ids@.len() && (!old(self).id_present(#[trigger] ids@[k]) || old(
                    self,
                ).hidden@.contains(ids@[k]))),
            r is Ok ==> ({
                &&& final(self).hidden@ == old(self).hidden@ + ids@
                &&& final(self).levels@ == old(self).levels@
                &&& final(self).next_segment_id == old(self).next_segment_id
                &&& final(self).wf()
            }),
    {
        let mut k: usize = 0;
        while k < ids.len()
            invariant
                k <= ids@.len(),
                self == old(self),
                forall|k2: int|
                    0 <= k2 < k ==> self.id_present(#[trigger] ids@[k2]) && !self.hidden@.contains(
                        ids@[k2],
                    ),
            decreases ids@.len() - k,
        {
            if id_in(&self.hidden, ids[k]) {
                return Err(Error::InvalidArgument);
            }
            if !self.find_id(ids[k]) {
                return Err(Error::InvalidArgument);
            }
            k += 1;
        }
        let mut k: usize = 0;
        while k < ids.len()
            invariant
                k <= ids@.len(),
                self.levels@ == old(self).levels@,
                self.next_segment_id == old(self).next_segment_id,
                self.hidden@ == old(self).hidden@ + ids@.take(k as int),
            decreases ids@.len() - k,
        {
            let ghost pre = self.hidden@;
            self.hidden.push(ids[k]);
            proof {
                assert(self.hidden@ =~= old(self).hidden@ + ids@.take(k + 1));
            }
            k += 1;
        }
        proof {
            assert(ids@.take(ids@.len() as int) =~= ids@);
        }
        Ok(())
    }

    /// Takes segments out of the hidden set, after a compaction
    /// gave them up or retired them.
    pub fn unhide_segments(&mut self, ids: &Vec<u64>)
        requires
            old(self).wf(),
        ensures
            final(self).wf(),
            final(self).levels@ == old(self).levels@,
            final(self).next_segment_id == old(self).next_segment_id,
            forall|h: u64| #[trigger]
                final(self).hidden@.contains(h) <==> (old(self).hidden@.contains(h)
                    && !ids@.contains(h)),
    {
        let newhidden = filter_ids(&self.hidden, ids);
        self.hidden = newhidden;
    }

    /// Where the segment with this id stands, if anywhere.
    pub fn locate_id(&self, id: u64) -> (r: Option<(usize, usize)>)
        ensures
            match r {
                Option::Some(pos) => pos.0 < self.lv().len() && pos.1 < self.lv()[pos.0 as int].len()
                    && (self.lv()[pos.0 as int][pos.1 as int]).id == id,
                Option::None => !self.id_present(id),
            },
    {
        let mut l: usize = 0;
        while l < self.levels.len()
            invariant
                l <= self.lv().len(),
                forall|l2: int, i: int|
                    0 <= l2 < l && 0 <= i < self.lv()[l2].len() ==> (#[trigger] self.lv()[l2][i]).id
                        != id,
            decreases self.lv().len() - l,
        {
            let mut i: usize = 0;
            while i < self.levels[l].len()
                invariant
                    l < self.lv().len(),
                    i <= self.lv()[l as int].len(),
                    forall|l2: int, i2: int|
                        0 <= l2 < l && 0 <= i2 < self.lv()[l2].len() ==> (#[trigger] self.lv()[l2][i2]).id
                            != id,
                    forall|i2: int|
                        0 <= i2 < i ==> (#[trigger] self.lv()[l as int][i2]).id != id,
                decreases self.lv()[l as int].len() - i,
            {
                if self.levels[l][i].id == id {
                    proof {
                        assert((self.lv()[l as int][i as int]).id == id);
                    }
                    return Some((l, i));
                }
                i += 1;
            }
            l += 1;
        }
        None
    }

    /// Whether any level holds a segment with this id.
    pub fn find_id(&self, id: u64) -> (r: bool)
        ensures
            r == self.id_present(id),
    {
        let mut l: usize = 0;
        while l < self.levels.len()
            invariant
                l <= self.lv().len(),
                forall|l2: int, i: int|
                    0 <= l2 < l && 0 <= i < self.lv()[l2].len() ==> (#[trigger] self.lv()[l2][i]).id
                        != id,
            decreases self.lv().len() - l,
        {
            let mut i: usize = 0;
            while i < self.levels[l].len()
                invariant
                    l < self.lv().len(),
                    i <= self.lv()[l as int].len(),
                    forall|l2: int, i2: int|
                        0 <= l2 < l && 0 <= i2 < self.lv()[l2].len() ==> (#[trigger] self.lv()[l2][i2]).id
                            != id,
                    forall|i2: int|
                        0 <= i2 < i ==> (#[trigger] self.lv()[l as int][i2]).id != id,
                decreases self.lv()[l as int].len() - i,
            {
                if self.levels[l][i].id == id {
                    proof {
                        assert((self.lv()[l as int][i as int]).id == id);
                    }
                    return true;
                }
                i += 1;
            }
            l += 1;
        }
        false
    }

    /// Removes `removed_ids` from every level, installs `added` at
    /// the back of level `dest_level`, and clears those ids from the
    /// hidden set: the one transition compaction commits. Rejected,
    /// with nothing changed, when the destination does not exist,
    /// the segment's id is not the next fresh id, or the new segment
    /// would overlap a surviving segment of a disjoint level.
    #[verifier::loop_isolation(false)]
    pub fn atomic_swap(&mut self, removed_ids: &Vec<u64>, added: Segment, dest_level: u8) -> (r:
        Result<(), Error>)
        requires
            old(self).wf(),
            seg_wf(added@),
        ensures
            r matches Err(e) ==> *final(self) == *old(self) && e == Error::InvalidArgument,
            (r is Err) == (dest_level as int >= old(self).lv().len() || old(self).next_segment_id
                == 0xFFFF_FFFF_FFFF_FFFF || added@.id != old(self).next_segment_id || (dest_level
                >= 1 && exists|i: int|
                0 <= i < old(self).lv()[dest_level as int].len() && !removed_ids@.contains(
                    (#[trigger] old(self).lv()[dest_level as int][i]).id,
                ) && !ranges_disjoint(old(self).lv()[dest_level as int][i], added@))),
            r is Ok ==> ({
                &&& final(self).wf()
                &&& final(self).lv().len() == old(self).lv().len()
                &&& final(self).next_segment_id == old(self).next_segment_id + 1
                &&& forall|l: int, s: SegmentView|
                    0 <= l < old(self).lv().len() ==> (#[trigger] final(self).lv()[l].contains(s)
                        <==> ((old(self).lv()[l].contains(s) && !removed_ids@.contains(s.id)) || (l
                        == dest_level as int && s == added@)))
                &&& forall|h: u64| #[trigger]
                    final(self).hidden@.contains(h) <==> (old(self).hidden@.contains(h)
                        && !removed_ids@.contains(h))
            }),
    {
        let dl = dest_level as usize;
        if dl >= self.levels.len() {
            return Err(Error::InvalidArgument);
        }
        if self.next_segment_id == 0xFFFF_FFFF_FFFF_FFFF || added.id != self.next_segment_id {
            return Err(Error::InvalidArgument);
        }
        if dl >= 1 {
            let mut i: usize = 0;
            while i < self.levels[dl].len()
                invariant
                    self == old(self),
                    dl < self.lv().len(),
                    i <= self.lv()[dl as int].len(),
                    added@ == added@,
                    forall|i2: int|
                        0 <= i2 < i ==> removed_ids@.contains(
                            (#[trigger] self.lv()[dl as int][i2]).id,
                        ) || ranges_disjoint(self.lv()[dl as int][i2], added@),
                decreases self.lv()[dl as int].len() - i,
            {
                if !id_in(removed_ids, self.levels[dl][i].id) && !segs_disjoint(
                    &self.levels[dl][i],
                    &added,
                ) {
                    proof {
                        assert(self.lv()[dest_level as int] == level_views(
                            self.levels@[dl as int]@,
                        ));
                        assert(self.lv()[dest_level as int][i as int]
                            == self.levels@[dl as int]@[i as int]@);
                        assert(!removed_ids@.contains(
                            (old(self).lv()[dest_level as int][i as int]).id,
                        ));
                        assert(!ranges_disjoint(
                            old(self).lv()[dest_level as int][i as int],
                            added@,
                        ));
                        assert(exists|i2: int|
                            0 <= i2 < old(self).lv()[dest_level as int].len()
                                && !removed_ids@.contains(
                                (#[trigger] old(self).lv()[dest_level as int][i2]).id,
                            ) && !ranges_disjoint(
                                old(self).lv()[dest_level as int][i2],
                                added@,
                            ));
                    }
                    return Err(Error::InvalidArgument);
                }
                proof {
                    assert(self.lv()[dl as int][i as int] == self.levels@[dl as int]@[i as int]@);
                }
                i += 1;
            }
        }
        let ghost olv = self.lv();
        let ghost onext = self.next_segment_id;
        let mut newlevels: Vec<Vec<Segment>> = Vec::new();
        let mut l: usize = 0;
        while l < self.levels.len()
            invariant
                self == old(self),
                olv == self.lv(),
                onext == self.next_segment_id,
                seg_wf(added@),
                added.id == self.next_segment_id < 0xFFFF_FFFF_FFFF_FFFF,
                l <= olv.len(),
                newlevels@.len() == l,
                dl < olv.len(),
                dl >= 1 ==> forall|i2: int|
                    0 <= i2 < olv[dl as int].len() ==> removed_ids@.contains(
                        (#[trigger] olv[dl as int][i2]).id,
                    ) || ranges_disjoint(olv[dl as int][i2], added@),
                forall|l2: int, s: SegmentView|
                    0 <= l2 < l ==> (#[trigger] level_views(newlevels@[l2]@).contains(s) <==> ((
                    olv[l2].contains(s) && !removed_ids@.contains(s.id)) || (l2 == dl as int && s
                        == added@))),
                forall|l2: int, p: int, q: int|
                    0 <= l2 < l && 0 <= p < q < level_views(newlevels@[l2]@).len() && l2 >= 1
                        ==> ranges_disjoint(
                        #[trigger] level_views(newlevels@[l2]@)[p],
                        #[trigger] level_views(newlevels@[l2]@)[q],
                    ),
                forall|l2: int, p: int|
                    0 <= l2 < l && 0 <= p < level_views(newlevels@[l2]@).len() ==> seg_wf(
                        #[trigger] level_views(newlevels@[l2]@)[p],
                    ) && level_views(newlevels@[l2]@)[p].id <= self.next_segment_id,
                forall|l2: int, p: int, q: int|
                    0 <= l2 < l && 0 <= p < level_views(newlevels@[l2]@).len() && 0 <= q
                        < level_views(newlevels@[l2]@).len() && p != q ==> (#[trigger] level_views(
                        newlevels@[l2]@,
                    )[p]).id != (#[trigger] level_views(newlevels@[l2]@)[q]).id,
                forall|la: int, pa: int, lb: int, pb: int|
                    0 <= la < l && 0 <= pa < level_views(newlevels@[la]@).len() && 0 <= lb < l && 0
                        <= pb < level_views(newlevels@[lb]@).len() && la != lb ==> (
                    #[trigger] level_views(newlevels@[la]@)[pa]).id != (#[trigger] level_views(
                        newlevels@[lb]@,
                    )[pb]).id,
            decreases olv.len() - l,
        {
            let (filtered0, fidx) = filter_level(&self.levels[l], removed_ids);
            let mut filtered = filtered0;
            let ghost ol = olv[l as int];
            let ghost fv0 = level_views(filtered@);
            proof {
                assert(ol == level_views(self.levels@[l as int]@));
            }
            if l == dl {
                let d = added.duplicate();
                filtered.push(d);
                proof {
                    assert(level_views(filtered@) =~= fv0.push(added@));
                }
            }
            let ghost fv = level_views(filtered@);
            proof {
                assert(ol == olv[l as int]);
                assert(level_wf(ol, l as int >= 1)) by {
                    assert(old(self).wf());
                }
                // membership of the rebuilt level
                assert forall|s: SegmentView| #[trigger]
                    fv.contains(s) <==> ((ol.contains(s) && !removed_ids@.contains(s.id)) || (
                l as int == dl as int && s == added@)) by {
                    if l == dl {
                        lemma_push_contains(fv0, added@, s);
                    } else {
                        assert(fv == fv0);
                    }
                }
                // every member of the rebuilt level is an old member
                // or the new segment
                assert forall|p: int| 0 <= p < fv.len() implies seg_wf(#[trigger] fv[p]) && fv[p].id
                    <= self.next_segment_id by {
                    if p < fv0.len() {
                        assert(fv[p] == fv0[p]);
                        let i0 = fidx@[p];
                        assert(fv0[p] == ol[i0]);
                        assert(seg_wf(ol[i0]));
                        assert((olv[l as int][i0]).id < onext);
                    } else {
                        assert(fv[p] == added@);
                    }
                }
                // pairwise disjointness, when this level demands it
                assert forall|p: int, q: int|
                    0 <= p < q < fv.len() && l as int >= 1 implies ranges_disjoint(
                    #[trigger] fv[p],
                    #[trigger] fv[q],
                ) by {
                    if q < fv0.len() {
                        let i0 = fidx@[p];
                        let j0 = fidx@[q];
                        assert(0 <= i0 < j0 < ol.len());
                        assert(fv0[p] == ol[i0] && fv0[q] == ol[j0]);
                        assert(ranges_disjoint(ol[i0], ol[j0]));
                    } else {
                        // q is the new segment at the destination
                        assert(l == dl);
                        assert(fv[q] == added@);
                        assert(fv[p] == fv0[p]);
                        let i0 = fidx@[p];
                        assert(fv0[p] == ol[i0]);
                        assert(!removed_ids@.contains(fv0[p].id));
                        assert(removed_ids@.contains((olv[dl as int][i0]).id) || ranges_disjoint(
                            olv[dl as int][i0],
                            added@,
                        ));
                        assert(ranges_disjoint(fv0[p], added@));
                    }
                }
                // ids stay pairwise distinct inside the level
                assert forall|p: int, q: int|
                    0 <= p < fv.len() && 0 <= q < fv.len() && p != q implies (#[trigger] fv[p]).id
                    != (#[trigger] fv[q]).id by {
                    let lo = if p < q {
                        p
                    } else {
                        q
                    };
                    let hi = if p < q {
                        q
                    } else {
                        p
                    };
                    if hi < fv0.len() {
                        let i0 = fidx@[lo];
                        let j0 = fidx@[hi];
                        assert(0 <= i0 < j0 < ol.len());
                        assert(fv0[lo] == ol[i0] && fv0[hi] == ol[j0]);
                        assert((olv[l as int][i0]).id != (olv[l as int][j0]).id);
                    } else {
                        assert(fv[hi] == added@);
                        let i0 = fidx@[lo];
                        assert(fv0[lo] == ol[i0]);
                        assert((olv[l as int][i0]).id < onext);
                    }
                }
            }
            newlevels.push(filtered);
            l += 1;
            proof {
                assert(level_views(newlevels@[l - 1]@) == fv);
                // ids stay distinct across levels
                assert forall|la: int, pa: int, lb: int, pb: int|
                    0 <= la < l && 0 <= pa < level_views(newlevels@[la]@).len() && 0 <= lb < l && 0
                        <= pb < level_views(newlevels@[lb]@).len() && la != lb implies (
                #[trigger] level_views(newlevels@[la]@)[pa]).id != (#[trigger] level_views(
                    newlevels@[lb]@,
                )[pb]).id by {
                    let sa = level_views(newlevels@[la]@)[pa];
                    let sb = level_views(newlevels@[lb]@)[pb];
                    assert(level_views(newlevels@[la]@).contains(sa));
                    assert(level_views(newlevels@[lb]@).contains(sb));
                    // each side is an old member (with a smaller id)
                    // or the new segment at the destination
                    if sa == added@ && sb == added@ {
                        // both can only stand in the destination
                        if !olv[la].contains(sa) {
                            assert(la == dl as int);
                        } else {
                            let i0 = choose|i0: int| 0 <= i0 < olv[la].len() && olv[la][i0] == sa;
                            assert((olv[la][i0]).id < onext);
                        }
                        if !olv[lb].contains(sb) {
                            assert(lb == dl as int);
                        } else {
                            let i0 = choose|i0: int| 0 <= i0 < olv[lb].len() && olv[lb][i0] == sb;
                            assert((olv[lb][i0]).id < onext);
                        }
                    } else if sa == added@ {
                        if olv[lb].contains(sb) {
                            let i0 = choose|i0: int| 0 <= i0 < olv[lb].len() && olv[lb][i0] == sb;
                            assert((olv[lb][i0]).id < onext);
                        }
                    } else if sb == added@ {
                        if olv[la].contains(sa) {
                            let i0 = choose|i0: int| 0 <= i0 < olv[la].len() && olv[la][i0] == sa;
                            assert((olv[la][i0]).id < onext);
                        }
                    } else {
                        assert(olv[la].contains(sa));
                        assert(olv[lb].contains(sb));
                        let ia = choose|ia: int| 0 <= ia < olv[la].len() && olv[la][ia] == sa;
                        let ib = choose|ib: int| 0 <= ib < olv[lb].len() && olv[lb][ib] == sb;
                        assert((olv[la][ia]).id != (olv[lb][ib]).id);
                    }
                }
            }
        }
        self.levels = newlevels;
        self.next_segment_id = self.next_segment_id + 1;
        let newhidden = filter_ids(&self.hidden, removed_ids);
        self.hidden = newhidden;
        proof {
            let nlv = self.lv();
            assert(nlv.len() == olv.len());
            assert forall|l2: int| 0 <= l2 < nlv.len() implies level_wf(
                #[trigger] nlv[l2],
                l2 >= 1,
            ) by {
                assert(nlv[l2] == level_views(self.levels@[l2]@));
            }
        }
        Ok(())
    }
}

/// The ids of `hidden` that are not in `removed`.
#[verifier::loop_isolation(false)]
fn filter_ids(hidden: &Vec<u64>, removed: &Vec<u64>) -> (r: Vec<u64>)
    ensures
        forall|h: u64| #[trigger]
            r@.contains(h) <==> (hidden@.contains(h) && !removed@.contains(h)),
{
    let mut out: Vec<u64> = Vec::new();
    let mut i: usize = 0;
    while i < hidden.len()
        invariant
            i <= hidden@.len(),
            forall|h: u64| #[trigger]
                out@.contains(h) <==> (hidden@.take(i as int).contains(h) && !removed@.contains(h)),
        decreases hidden@.len() - i,
    {
        let ghost pre = out@;
        let ghost hi = hidden@[i as int];
        let keep = !id_in(removed, hidden[i]);
        if keep {
            out.push(hidden[i]);
        }
        proof {
            assert(hidden@.take(i + 1) =~= hidden@.take(i as int).push(hi));
            assert forall|h: u64| #[trigger]
                out@.contains(h) <==> (hidden@.take(i + 1).contains(h)
                    && !removed@.contains(h)) by {
                lemma_push_contains(hidden@.take(i as int), hi, h);
                if keep {
                    assert(out@ =~= pre.push(hi));
                    lemma_push_contains(pre, hi, h);
                } else {
                    assert(out@ == pre);
                }
            }
        }
        i += 1;
    }
    proof {
        assert(hidden@.take(hidden@.len() as int) =~= hidden@);
    }
    out
}

/// The segments of `level` whose id is not in `removed`, in order,
/// with the positions they came from.
#[verifier::loop_isolation(false)]
fn filter_level(level: &Vec<Segment>, removed: &Vec<u64>) -> (res: (Vec<Segment>, Ghost<Seq<int>>))
    ensures
        forall|s: SegmentView| #[trigger]
            level_views(res.0@).contains(s) <==> (level_views(level@).contains(s)
                && !removed@.contains(s.id)),
        res.1@.len() == level_views(res.0@).len(),
        forall|p: int, q: int| 0 <= p < q < res.1@.len() ==> res.1@[p] < res.1@[q],
        forall|p: int|
            0 <= p < res.1@.len() ==> 0 <= #[trigger] res.1@[p] < level_views(level@).len()
                && level_views(res.0@)[p] == level_views(level@)[res.1@[p]] && !removed@.contains(
                level_views(res.0@)[p].id,
            ),
{
    let ghost ol = level_views(level@);
    let mut out: Vec<Segment> = Vec::new();
    let ghost mut idxs: Seq<int> = Seq::empty();
    let mut j: usize = 0;
    while j < level.len()
        invariant
            j <= ol.len(),
            ol == level_views(level@),
            idxs.len() == level_views(out@).len(),
            forall|p: int, q: int| 0 <= p < q < idxs.len() ==> idxs[p] < idxs[q],
            forall|p: int|
                0 <= p < idxs.len() ==> 0 <= #[trigger] idxs[p] < j && level_views(out@)[p]
                    == ol[idxs[p]] && !removed@.contains(ol[idxs[p]].id),
            forall|i: int|
                0 <= i < j && !removed@.contains((#[trigger] ol[i]).id) ==> level_views(
                    out@,
                ).contains(ol[i]),
        decreases ol.len() - j,
    {
        let ghost pre = level_views(out@);
        if !id_in(removed, level[j].id) {
            out.push(level[j].duplicate());
            proof {
                idxs = idxs.push(j as int);
                assert(level_views(out@) =~= pre.push(ol[j as int]));
            }
        }
        proof {
            assert forall|i: int|
                0 <= i < j + 1 && !removed@.contains((#[trigger] ol[i]).id) implies level_views(
                out@,
            ).contains(ol[i]) by {
                if i < j {
                    assert(pre.contains(ol[i]) || level_views(out@).contains(ol[i]));
                    if pre.contains(ol[i]) {
                        let k = choose|k: int| 0 <= k < pre.len() && pre[k] == ol[i];
                        assert(level_views(out@)[k] == ol[i]);
                    }
                } else {
                    assert(level_views(out@).last() == ol[j as int]);
                }
            }
        }
        j += 1;
    }
    proof {
        assert forall|s: SegmentView| #[trigger]
            level_views(out@).contains(s) implies (ol.contains(s) && !removed@.contains(
            s.id,
        )) by {
            let p = choose|p: int| 0 <= p < level_views(out@).len() && level_views(out@)[p] == s;
            assert(level_views(out@)[p] == ol[idxs[p]]);
            assert(ol.contains(s)) by {
                assert(ol[idxs[p]] == s);
            }
        }
        assert forall|s: SegmentView|
            (ol.contains(s) && !removed@.contains(s.id)) implies #[trigger] level_views(
            out@,
        ).contains(s) by {
            let i = choose|i: int| 0 <= i < ol.len() && ol[i] == s;
            assert(level_views(out@).contains(ol[i]));
        }
    }
    (out, Ghost(idxs))
}

/// Whether `ids` holds `id`.
pub fn id_in(ids: &Vec<u64>, id: u64) -> (r: bool)
    ensures
        r == ids@.contains(id),
{
    let mut i: usize = 0;
    while i < ids.len()
        invariant
            i <= ids@.len(),
            forall|k: int| 0 <= k < i ==> ids@[k] != id,
        decreases ids@.len() - i,
    {
        if ids[i] == id {
            return true;
        }
        i += 1;
    }
    false
}

} // verus!
