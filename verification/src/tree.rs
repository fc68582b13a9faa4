//! One partition's tree: the active memtable, the sealed memtables
//! awaiting flush, and the leveled segments, with a point read that
//! sees exactly the newest visible version across all of them.
use crate::error::Error;
use crate::levels::Levels;
use crate::memtable::MemTable;
use crate::segment::{Segment, SegmentView};
use crate::snapshot::SnapshotCounter;
use crate::sorted_run::{collect_filtered, opt_view, scan_best, views_of};
use crate::value::{best_for, entries_sorted, Entry, InternalValue, SeqNo};
use vstd::prelude::*;

verus! {

/// Per-tree settings fixed at creation.
#[derive(Clone, Copy)]
pub struct Config {
    /// How many levels the manifest holds.
    pub level_count: u8,
    /// When the active memtable reaches this many bytes, the tree
    /// asks to be flushed.
    pub max_memtable_size: u64,
}

/// The runs of the sealed memtables, oldest first.
pub open spec fn sealed_views(s: Seq<(u64, MemTable)>) -> Seq<Seq<Entry>> {
    s.map_values(|p: (u64, MemTable)| p.1@)
}

/// All entries of a list of runs, in list order.
pub open spec fn concat_runs(s: Seq<Seq<Entry>>) -> Seq<Entry>
    decreases s.len(),
{
    if s.len() == 0 {
        Seq::empty()
    } else {
        concat_runs(s.drop_last()) + s.last()
    }
}

/// All entries of the segments of one level.
pub open spec fn level_run(l: Seq<SegmentView>) -> Seq<Entry>
    decreases l.len(),
{
    if l.len() == 0 {
        Seq::empty()
    } else {
        level_run(l.drop_last()) + l.last().entries
    }
}

/// All entries of every level.
pub open spec fn levels_run(lv: Seq<Seq<SegmentView>>) -> Seq<Entry>
    decreases lv.len(),
{
    if lv.len() == 0 {
        Seq::empty()
    } else {
        levels_run(lv.drop_last()) + level_run(lv.last())
    }
}

/// One partition's tree.
pub struct TreeInner {
    /// The memtable taking writes.
    pub active_memtable: MemTable,
    /// Sealed memtables awaiting flush, oldest first, each under the
    /// id it was sealed as.
    pub sealed_memtables: Vec<(u64, MemTable)>,
    /// The levels manifest.
    pub levels: Levels,
    /// Tree configuration.
    pub config: Config,
    /// Stamps of snapshots still open on this tree.
    pub open_snapshots: SnapshotCounter,
    /// Tells background workers to wind down.
    pub stop_signal: bool,
    /// The id the next sealed memtable receives.
    pub next_memtable_id: u64,
}

impl TreeInner {
    /// Every entry the tree holds, in source order: active memtable,
    /// sealed memtables, then segments.
    pub open spec fn all_entries(self) -> Seq<Entry> {
        self.active_memtable@ + concat_runs(sealed_views(self.sealed_memtables@)) + levels_run(
            self.levels.lv(),
        )
    }

    /// Each source run is sorted and the manifest keeps its
    /// invariant.
    pub open spec fn wf(self) -> bool {
        &&& self.active_memtable.wf()
        &&& forall|i: int|
            0 <= i < self.sealed_memtables@.len() ==> (#[trigger] self.sealed_memtables@[i]).1.wf()
        &&& self.levels.wf()
    }

    /// A fresh, empty tree. Rejects only a zero level count.
    pub fn create_new(config: Config) -> (r: Result<TreeInner, Error>)
        ensures
            config.level_count == 0 ==> (r matches Err(e) && e == Error::InvalidArgument),
            config.level_count > 0 ==> (r matches Ok(t) && t.wf() && t.all_entries()
                == Seq::<Entry>::empty() && t.config == config && !t.stop_signal
                && t.open_snapshots.seqnos@ == Seq::<SeqNo>::empty() && t.active_memtable@
                == Seq::<Entry>::empty() && t.sealed_memtables@.len() == 0 && t.levels.lv().len()
                == config.level_count && (forall|l: int|
                0 <= l < config.level_count ==> (#[trigger] t.levels.lv()[l]).len() == 0)
                && t.levels.hidden@ == Seq::<u64>::empty() && t.levels.next_segment_id == 0
                && t.next_memtable_id == 0),
    {
        let levels = match Levels::create_new(config.level_count) {
            Ok(l) => l,
            Err(e) => {
                return Err(e);
            },
        };
        let t = TreeInner {
            active_memtable: MemTable::new(),
            sealed_memtables: Vec::new(),
            levels,
            config,
            open_snapshots: SnapshotCounter::new(),
            stop_signal: false,
            next_memtable_id: 0,
        };
        proof {
            assert(sealed_views(t.sealed_memtables@) =~= Seq::<Seq<Entry>>::empty());
            assert(concat_runs(Seq::<Seq<Entry>>::empty()) == Seq::<Entry>::empty());
            assert forall|l: int| 0 <= l < t.levels.lv().len() implies (#[trigger] t.levels.lv()[l]).len()
                == 0 by {}
            lemma_levels_run_empty(t.levels.lv());
            assert(t.all_entries() =~= Seq::<Entry>::empty());
        }
        Ok(t)
    }

    /// Inserts one entry into the active memtable. Everything else
    /// stays; an entry under an already-present (key, stamp) pair is
    /// replaced.
    pub fn insert_entry(&mut self, item: InternalValue)
        requires
            old(self).wf(),
            forall|e: Entry|
                old(self).all_entries().contains(e) ==> !((#[trigger] e.key) == item@.key
                    && e.seqno == item@.seqno),
        ensures
            final(self).wf(),
            forall|e: Entry| #[trigger]
                final(self).all_entries().contains(e) <==> (old(self).all_entries().contains(e)
                    || e == item@),
            final(self).sealed_memtables@ == old(self).sealed_memtables@,
            final(self).levels == old(self).levels,
            final(self).config == old(self).config,
            final(self).open_snapshots == old(self).open_snapshots,
            forall|e: Entry| #[trigger]
                final(self).active_memtable@.contains(e) <==> ((old(
                    self,
                ).active_memtable@.contains(e) && !(e.key == item@.key && e.seqno == item@.seqno))
                    || e == item@),
            final(self).active_memtable.wf(),
    {
        let ghost oldall = old(self).all_entries();
        self.active_memtable.insert(item);
        proof {
            let rest = concat_runs(sealed_views(self.sealed_memtables@)) + levels_run(
                self.levels.lv(),
            );
            assert(self.all_entries() =~= self.active_memtable@ + rest);
            assert(oldall =~= old(self).active_memtable@ + rest);
            assert forall|e: Entry| #[trigger]
                self.all_entries().contains(e) <==> (oldall.contains(e) || e == item@) by {
                lemma_concat_parts(self.active_memtable@, rest, e);
                lemma_concat_parts(old(self).active_memtable@, rest, e);
                if old(self).active_memtable@.contains(e) {
                    assert(oldall.contains(e));
                }
                if rest.contains(e) {
                    assert(oldall.contains(e));
                }
            }
        }
    }

    /// Seals the active memtable: it moves, unchanged, to the back
    /// of the sealed queue under a fresh id, and an empty memtable
    /// takes the writes. No entry is lost or invented.
    pub fn seal_active(&mut self)
        requires
            old(self).wf(),
            old(self).next_memtable_id < 0xFFFF_FFFF_FFFF_FFFF,
        ensures
            final(self).wf(),
            final(self).active_memtable@ == Seq::<Entry>::empty(),
            final(self).sealed_memtables@.len() == old(self).sealed_memtables@.len() + 1,
            final(self).levels == old(self).levels,
            forall|e: Entry| #[trigger]
                final(self).all_entries().contains(e) == old(self).all_entries().contains(e),
    {
        let fresh = MemTable::new();
        let mut taken = fresh;
        core::mem::swap(&mut taken, &mut self.active_memtable);
        let id = self.next_memtable_id;
        self.next_memtable_id = id + 1;
        self.sealed_memtables.push((id, taken));
        proof {
            let osv = sealed_views(old(self).sealed_memtables@);
            let nsv = sealed_views(self.sealed_memtables@);
            assert(nsv =~= osv.push(old(self).active_memtable@));
            assert(nsv.drop_last() =~= osv);
            assert(nsv.last() == old(self).active_memtable@);
            assert(concat_runs(nsv) == concat_runs(osv) + old(self).active_memtable@);
            assert forall|e: Entry| #[trigger]
                self.all_entries().contains(e) == old(self).all_entries().contains(e) by {
                lemma_all_entries_parts(*self, e);
                lemma_all_entries_parts(*old(self), e);
                lemma_concat_parts(concat_runs(osv), old(self).active_memtable@, e);
            }
        }
    }

    /// A point read at `snapshot`: the newest version among every
    /// source whose stamp does not exceed it; a tombstone is
    /// returned as such.
    pub fn get_internal(&self, key: &Vec<u8>, snapshot: SeqNo) -> (r: Option<InternalValue>)
        ensures
            best_for(self.all_entries(), key@, snapshot, opt_view(r)),
    {
        let ghost active = self.active_memtable@;
        let best = scan_best(&self.active_memtable.entries, key, snapshot, None);
        proof {
            let empty = Seq::<Entry>::empty();
            assert(best_for(empty, key@, snapshot, opt_view(None::<InternalValue>)));
            assert(empty + active =~= active);
        }
        let best = scan_sealed(&self.sealed_memtables, key, snapshot, best, Ghost(active));
        let ghost base = active + concat_runs(sealed_views(self.sealed_memtables@));
        let best = scan_levels(&self.levels, key, snapshot, best, Ghost(base));
        proof {
            assert(base + levels_run(self.levels.lv()) =~= self.all_entries());
        }
        best
    }

    /// Folds every entry of the tree with stamp at or below `limit`
    /// into the sorted run `dst`, which may already hold entries
    /// (for instance a transaction's private writes). Nothing is
    /// lost or invented: afterwards `dst` holds exactly its old
    /// entries and the tree's entries at or below the limit.
    #[verifier::loop_isolation(false)]
    #[verifier::rlimit(100)]
    #[verifier::spinoff_prover]
    pub fn collect_all(&self, dst: &mut Vec<InternalValue>, limit: SeqNo)
        requires
            self.wf(),
            entries_sorted(views_of(old(dst)@)),
            forall|e1: Entry, e2: Entry|
                views_of(old(dst)@).contains(e1) && self.all_entries().contains(e2) && e1.key
                    == e2.key && e1.seqno == e2.seqno ==> e1 == e2,
            forall|e1: Entry, e2: Entry|
                self.all_entries().contains(e1) && self.all_entries().contains(e2) && e1.key
                    == e2.key && e1.seqno == e2.seqno ==> e1 == e2,
        ensures
            entries_sorted(views_of(final(dst)@)),
            forall|e: Entry| #[trigger]
                views_of(final(dst)@).contains(e) <==> (views_of(old(dst)@).contains(e) || (
                self.all_entries().contains(e) && e.seqno <= limit)),
    {
        let ghost base = views_of(dst@);
        let ghost all = self.all_entries();
        proof {
            assert(views_of(dst@) =~= base);
        }
        let ghost empty = Seq::<Entry>::empty();
        proof {
            assert(entries_sorted(views_of(self.active_memtable.entries@)));
            assert forall|e: Entry| #[trigger]
                views_of(dst@).contains(e) <==> (base.contains(e) || (empty.contains(e) && e.seqno
                    <= limit)) by {}
            assert forall|e1: Entry, e2: Entry|
                views_of(dst@).contains(e1) && views_of(self.active_memtable.entries@).contains(e2)
                    && e1.key == e2.key && e1.seqno == e2.seqno implies e1 == e2 by {
                lemma_all_entries_parts(*self, e2);
            }
        }
        let done = collect_run(
            dst,
            &self.active_memtable.entries,
            limit,
            Ghost(base),
            Ghost(empty),
        );
        proof {
            assert(done@ =~= self.active_memtable@);
        }

        let ghost sv = sealed_views(self.sealed_memtables@);
        let mut done = Ghost(self.active_memtable@);
        proof {
            assert(concat_runs(sv.take(0)) =~= Seq::<Entry>::empty());
            assert(done@ =~= self.active_memtable@ + concat_runs(sv.take(0)));
        }
        let mut i: usize = 0;
        while i < self.sealed_memtables.len()
            invariant
                i <= sv.len(),
                sv == sealed_views(self.sealed_memtables@),
                all == self.all_entries(),
                base == views_of(old(dst)@),
                self.wf(),
                forall|e1: Entry, e2: Entry|
                    base.contains(e1) && all.contains(e2) && e1.key == e2.key && e1.seqno
                        == e2.seqno ==> e1 == e2,
                forall|e1: Entry, e2: Entry|
                    all.contains(e1) && all.contains(e2) && e1.key == e2.key && e1.seqno
                        == e2.seqno ==> e1 == e2,
                done@ =~= self.active_memtable@ + concat_runs(sv.take(i as int)),
                entries_sorted(views_of(dst@)),
                forall|e: Entry| #[trigger]
                    views_of(dst@).contains(e) <==> (base.contains(e) || (done@.contains(e)
                        && e.seqno <= limit)),
        decreases sv.len() - i,
        {
            proof {
                assert forall|e1: Entry, e2: Entry|
                    views_of(dst@).contains(e1) && views_of(
                        self.sealed_memtables@[i as int].1.entries@,
                    ).contains(e2) && e1.key == e2.key && e1.seqno == e2.seqno implies e1 == e2 by {
                    assert(all.contains(e2)) by {
                        lemma_concat_runs_contains(sv, i as int, e2);
                        lemma_all_entries_parts(*self, e2);
                    }
                    if !base.contains(e1) {
                        assert(done@.contains(e1));
                        assert(all.contains(e1)) by {
                            lemma_concat_parts(
                                self.active_memtable@,
                                concat_runs(sv.take(i as int)),
                                e1,
                            );
                            if concat_runs(sv.take(i as int)).contains(e1) {
                                lemma_concat_runs_prefix(sv, i as int, e1);
                            }
                            lemma_all_entries_parts(*self, e1);
                        }
                    }
                }
            }
            let d2 = collect_run(
                dst,
                &self.sealed_memtables[i].1.entries,
                limit,
                Ghost(base),
                done,
            );
            proof {
                assert(sv.take(i + 1).drop_last() =~= sv.take(i as int));
                assert(sv.take(i + 1).last() == sv[i as int]);
                assert(sv[i as int] == views_of(self.sealed_memtables@[i as int].1.entries@));
                assert(d2@ =~= self.active_memtable@ + concat_runs(sv.take(i + 1)));
            }
            done = d2;
            i += 1;
        }
        proof {
            assert(sv.take(sv.len() as int) =~= sv);
        }
        let ghost lv = self.levels.lv();
        let mut l: usize = 0;
        while l < self.levels.levels.len()
            invariant
                l <= lv.len(),
                lv == self.levels.lv(),
                all == self.all_entries(),
                base == views_of(old(dst)@),
                self.wf(),
                forall|e1: Entry, e2: Entry|
                    base.contains(e1) && all.contains(e2) && e1.key == e2.key && e1.seqno
                        == e2.seqno ==> e1 == e2,
                forall|e1: Entry, e2: Entry|
                    all.contains(e1) && all.contains(e2) && e1.key == e2.key && e1.seqno
                        == e2.seqno ==> e1 == e2,
                done@ =~= self.active_memtable@ + concat_runs(sealed_views(self.sealed_memtables@))
                    + levels_run(lv.take(l as int)),
                entries_sorted(views_of(dst@)),
                forall|e: Entry| #[trigger]
                    views_of(dst@).contains(e) <==> (base.contains(e) || (done@.contains(e)
                        && e.seqno <= limit)),
            decreases lv.len() - l,
        {
            let ghost lvl = lv[l as int];
            proof {
                assert(level_run(lvl.take(0)) =~= Seq::<Entry>::empty());
                assert(done@ =~= self.active_memtable@ + concat_runs(
                    sealed_views(self.sealed_memtables@),
                ) + levels_run(lv.take(l as int)) + level_run(lvl.take(0)));
            }
            let mut si: usize = 0;
            while si < self.levels.levels[l].len()
                invariant
                    l < lv.len(),
                    si <= lvl.len(),
                    lvl == lv[l as int],
                    lv == self.levels.lv(),
                    all == self.all_entries(),
                    base == views_of(old(dst)@),
                    self.wf(),
                    forall|e1: Entry, e2: Entry|
                        base.contains(e1) && all.contains(e2) && e1.key == e2.key && e1.seqno
                            == e2.seqno ==> e1 == e2,
                    forall|e1: Entry, e2: Entry|
                        all.contains(e1) && all.contains(e2) && e1.key == e2.key && e1.seqno
                            == e2.seqno ==> e1 == e2,
                    done@ =~= self.active_memtable@ + concat_runs(
                        sealed_views(self.sealed_memtables@),
                    ) + levels_run(lv.take(l as int)) + level_run(lvl.take(si as int)),
                    entries_sorted(views_of(dst@)),
                    forall|e: Entry| #[trigger]
                        views_of(dst@).contains(e) <==> (base.contains(e) || (done@.contains(e)
                            && e.seqno <= limit)),
                decreases lvl.len() - si,
            {
                proof {
                    assert(lvl[si as int].entries == views_of(
                        self.levels.levels@[l as int]@[si as int].entries@,
                    ));
                    assert forall|e1: Entry, e2: Entry|
                        views_of(dst@).contains(e1) && views_of(
                            self.levels.levels@[l as int]@[si as int].entries@,
                        ).contains(e2) && e1.key == e2.key && e1.seqno == e2.seqno implies e1
                        == e2 by {
                        assert(all.contains(e2)) by {
                            lemma_level_run_contains(lvl, si as int, e2);
                            lemma_levels_run_contains(lv, l as int, e2);
                            lemma_all_entries_parts(*self, e2);
                        }
                        if !base.contains(e1) {
                            assert(done@.contains(e1));
                            lemma_concat_parts(
                                self.active_memtable@ + concat_runs(
                                    sealed_views(self.sealed_memtables@),
                                ) + levels_run(lv.take(l as int)),
                                level_run(lvl.take(si as int)),
                                e1,
                            );
                            lemma_concat_parts(
                                self.active_memtable@ + concat_runs(
                                    sealed_views(self.sealed_memtables@),
                                ),
                                levels_run(lv.take(l as int)),
                                e1,
                            );
                            lemma_concat_parts(
                                self.active_memtable@,
                                concat_runs(sealed_views(self.sealed_memtables@)),
                                e1,
                            );
                            if levels_run(lv.take(l as int)).contains(e1) {
                                lemma_levels_run_prefix(lv, l as int, e1);
                            }
                            if level_run(lvl.take(si as int)).contains(e1) {
                                lemma_level_run_prefix(lvl, si as int, e1);
                                lemma_levels_run_contains(lv, l as int, e1);
                            }
                            lemma_all_entries_parts(*self, e1);
                        }
                    }
                }
                let d2 = collect_run(
                    dst,
                    &self.levels.levels[l][si].entries,
                    limit,
                    Ghost(base),
                    done,
                );
                proof {
                    assert(lvl.take(si + 1).drop_last() =~= lvl.take(si as int));
                    assert(lvl.take(si + 1).last() == lvl[si as int]);
                    assert(d2@ =~= self.active_memtable@ + concat_runs(
                        sealed_views(self.sealed_memtables@),
                    ) + levels_run(lv.take(l as int)) + level_run(lvl.take(si + 1)));
                }
                done = d2;
                si += 1;
            }
            proof {
                assert(lvl.take(lvl.len() as int) =~= lvl);
                assert(lv.take(l + 1).drop_last() =~= lv.take(l as int));
                assert(lv.take(l + 1).last() == lv[l as int]);
                assert(done@ =~= self.active_memtable@ + concat_runs(
                    sealed_views(self.sealed_memtables@),
                ) + levels_run(lv.take(l + 1)));
            }
            l += 1;
        }
        proof {
            assert(lv.take(lv.len() as int) =~= lv);
            assert(done@ =~= all);
        }
    }
}

/// Folds the sealed memtables into a point-read answer that already
/// covers `prior`.
#[verifier::loop_isolation(false)]
fn scan_sealed(
    sealed: &Vec<(u64, MemTable)>,
    key: &Vec<u8>,
    snapshot: SeqNo,
    acc: Option<InternalValue>,
    Ghost(prior): Ghost<Seq<Entry>>,
) -> (r: Option<InternalValue>)
    requires
        best_for(prior, key@, snapshot, opt_view(acc)),
    ensures
        best_for(prior + concat_runs(sealed_views(sealed@)), key@, snapshot, opt_view(r)),
{
    let ghost sv = sealed_views(sealed@);
    let mut best = acc;
    let mut i: usize = 0;
    while i < sealed.len()
        invariant
            i <= sv.len(),
            sv == sealed_views(sealed@),
            best_for(prior + concat_runs(sv.take(i as int)), key@, snapshot, opt_view(best)),
        decreases sv.len() - i,
    {
        let ghost region = prior + concat_runs(sv.take(i as int));
        best = scan_best(&sealed[i].1.entries, key, snapshot, best);
        proof {
            assert(sv.take(i + 1).drop_last() =~= sv.take(i as int));
            assert(sv.take(i + 1).last() == sv[i as int]);
            assert(sv[i as int] == views_of(sealed@[i as int].1.entries@));
            assert(best_for(
                region + views_of(sealed@[i as int].1.entries@),
                key@,
                snapshot,
                opt_view(best),
            ));
            assert(region + sv[i as int] =~= prior + concat_runs(sv.take(i + 1)));
        }
        i += 1;
    }
    proof {
        assert(sv.take(sv.len() as int) =~= sv);
    }
    best
}

/// Folds one level's segments into a point-read answer that already
/// covers `prior`.
#[verifier::loop_isolation(false)]
fn scan_level(
    segs: &Vec<Segment>,
    key: &Vec<u8>,
    snapshot: SeqNo,
    acc: Option<InternalValue>,
    Ghost(prior): Ghost<Seq<Entry>>,
) -> (r: Option<InternalValue>)
    requires
        best_for(prior, key@, snapshot, opt_view(acc)),
    ensures
        best_for(
            prior + level_run(crate::levels::level_views(segs@)),
            key@,
            snapshot,
            opt_view(r),
        ),
{
    let ghost lvl = crate::levels::level_views(segs@);
    let mut best = acc;
    let mut i: usize = 0;
    while i < segs.len()
        invariant
            i <= lvl.len(),
            lvl == crate::levels::level_views(segs@),
            best_for(prior + level_run(lvl.take(i as int)), key@, snapshot, opt_view(best)),
        decreases lvl.len() - i,
    {
        let ghost region = prior + level_run(lvl.take(i as int));
        best = scan_best(&segs[i].entries, key, snapshot, best);
        proof {
            assert(lvl.take(i + 1).drop_last() =~= lvl.take(i as int));
            assert(lvl.take(i + 1).last() == lvl[i as int]);
            assert(lvl[i as int].entries == views_of(segs@[i as int].entries@));
            assert(best_for(
                region + views_of(segs@[i as int].entries@),
                key@,
                snapshot,
                opt_view(best),
            ));
            assert(region + lvl[i as int].entries =~= prior + level_run(lvl.take(i + 1)));
        }
        i += 1;
    }
    proof {
        assert(lvl.take(lvl.len() as int) =~= lvl);
    }
    best
}

/// Folds every level into a point-read answer that already covers
/// `prior`.
#[verifier::loop_isolation(false)]
fn scan_levels(
    levels: &Levels,
    key: &Vec<u8>,
    snapshot: SeqNo,
    acc: Option<InternalValue>,
    Ghost(prior): Ghost<Seq<Entry>>,
) -> (r: Option<InternalValue>)
    requires
        best_for(prior, key@, snapshot, opt_view(acc)),
    ensures
        best_for(prior + levels_run(levels.lv()), key@, snapshot, opt_view(r)),
{
    let ghost lv = levels.lv();
    let mut best = acc;
    let mut l: usize = 0;
    while l < levels.levels.len()
        invariant
            l <= lv.len(),
            lv == levels.lv(),
            best_for(prior + levels_run(lv.take(l as int)), key@, snapshot, opt_view(best)),
        decreases lv.len() - l,
    {
        let ghost region = prior + levels_run(lv.take(l as int));
        best = scan_level(&levels.levels[l], key, snapshot, best, Ghost(region));
        proof {
            assert(lv.take(l + 1).drop_last() =~= lv.take(l as int));
            assert(lv.take(l + 1).last() == lv[l as int]);
            assert(lv[l as int] == crate::levels::level_views(levels.levels@[l as int]@));
            assert(region + level_run(lv[l as int]) =~= prior + levels_run(lv.take(l + 1)));
        }
        l += 1;
    }
    proof {
        assert(lv.take(lv.len() as int) =~= lv);
    }
    best
}

/// Folds one source run into the collection, extending the covered
/// region from `prior` by that run.
#[verifier::loop_isolation(false)]
#[verifier::rlimit(60)]
fn collect_run(
    dst: &mut Vec<InternalValue>,
    src: &Vec<InternalValue>,
    limit: SeqNo,
    Ghost(base): Ghost<Seq<Entry>>,
    Ghost(prior): Ghost<Seq<Entry>>,
) -> (done: Ghost<Seq<Entry>>)
    requires
        entries_sorted(views_of(old(dst)@)),
        entries_sorted(views_of(src@)),
        forall|e: Entry| #[trigger]
            views_of(old(dst)@).contains(e) <==> (base.contains(e) || (prior.contains(e) && e.seqno
                <= limit)),
        forall|e1: Entry, e2: Entry|
            views_of(old(dst)@).contains(e1) && views_of(src@).contains(e2) && e1.key == e2.key
                && e1.seqno == e2.seqno ==> e1 == e2,
    ensures
        done@ == prior + views_of(src@),
        entries_sorted(views_of(final(dst)@)),
        forall|e: Entry| #[trigger]
            views_of(final(dst)@).contains(e) <==> (base.contains(e) || (done@.contains(e)
                && e.seqno <= limit)),
{
    collect_filtered(dst, src, limit);
    proof {
        assert forall|e: Entry| #[trigger]
            views_of(dst@).contains(e) <==> (base.contains(e) || ((prior + views_of(
                src@,
            )).contains(e) && e.seqno <= limit)) by {
            lemma_concat_parts(prior, views_of(src@), e);
        }
    }
    Ghost(prior + views_of(src@))
}

/// A run list of empty levels holds nothing.
proof fn lemma_levels_run_empty(lv: Seq<Seq<SegmentView>>)
    requires
        forall|l: int| 0 <= l < lv.len() ==> (#[trigger] lv[l]).len() == 0,
    ensures
        levels_run(lv) == Seq::<Entry>::empty(),
    decreases lv.len(),
{
    if lv.len() > 0 {
        lemma_levels_run_empty(lv.drop_last());
        assert(lv.last().len() == 0);
        assert(level_run(lv.last()) == Seq::<Entry>::empty());
        assert(levels_run(lv.drop_last()) + level_run(lv.last()) =~= Seq::<Entry>::empty());
    }
}


/// An entry of one run stands in the runs' concatenation.
proof fn lemma_concat_runs_contains(s: Seq<Seq<Entry>>, i: int, e: Entry)
    requires
        0 <= i < s.len(),
        s[i].contains(e),
    ensures
        concat_runs(s).contains(e),
    decreases s.len(),
{
    if i == s.len() - 1 {
        lemma_concat_parts(concat_runs(s.drop_last()), s.last(), e);
    } else {
        lemma_concat_runs_contains(s.drop_last(), i, e);
        lemma_concat_parts(concat_runs(s.drop_last()), s.last(), e);
    }
}

/// An entry of a prefix of the runs stands in all of them.
proof fn lemma_concat_runs_prefix(s: Seq<Seq<Entry>>, i: int, e: Entry)
    requires
        0 <= i <= s.len(),
        concat_runs(s.take(i)).contains(e),
    ensures
        concat_runs(s).contains(e),
    decreases s.len() - i,
{
    if i == s.len() {
        assert(s.take(i) =~= s);
    } else {
        assert(s.take(i + 1).drop_last() =~= s.take(i));
        assert(s.take(i + 1).last() == s[i]);
        lemma_concat_parts(concat_runs(s.take(i)), s[i], e);
        lemma_concat_runs_prefix(s, i + 1, e);
    }
}

/// An entry of a prefix of a level stands in the whole level.
proof fn lemma_level_run_prefix(l: Seq<SegmentView>, i: int, e: Entry)
    requires
        0 <= i <= l.len(),
        level_run(l.take(i)).contains(e),
    ensures
        level_run(l).contains(e),
    decreases l.len() - i,
{
    if i == l.len() {
        assert(l.take(i) =~= l);
    } else {
        assert(l.take(i + 1).drop_last() =~= l.take(i));
        assert(l.take(i + 1).last() == l[i]);
        lemma_concat_parts(level_run(l.take(i)), l[i].entries, e);
        lemma_level_run_prefix(l, i + 1, e);
    }
}

/// An entry of one segment stands in its level's run.
proof fn lemma_level_run_contains(l: Seq<SegmentView>, i: int, e: Entry)
    requires
        0 <= i < l.len(),
        l[i].entries.contains(e),
    ensures
        level_run(l).contains(e),
    decreases l.len(),
{
    if i == l.len() - 1 {
        lemma_concat_parts(level_run(l.drop_last()), l.last().entries, e);
    } else {
        lemma_level_run_contains(l.drop_last(), i, e);
        lemma_concat_parts(level_run(l.drop_last()), l.last().entries, e);
    }
}

/// An entry of one level stands in the run of all levels.
proof fn lemma_levels_run_contains(lv: Seq<Seq<SegmentView>>, l: int, e: Entry)
    requires
        0 <= l < lv.len(),
        level_run(lv[l]).contains(e),
    ensures
        levels_run(lv).contains(e),
    decreases lv.len(),
{
    if l == lv.len() - 1 {
        lemma_concat_parts(levels_run(lv.drop_last()), level_run(lv.last()), e);
    } else {
        lemma_levels_run_contains(lv.drop_last(), l, e);
        lemma_concat_parts(levels_run(lv.drop_last()), level_run(lv.last()), e);
    }
}

/// An entry of a prefix of the levels stands in all of them.
proof fn lemma_levels_run_prefix(lv: Seq<Seq<SegmentView>>, l: int, e: Entry)
    requires
        0 <= l <= lv.len(),
        levels_run(lv.take(l)).contains(e),
    ensures
        levels_run(lv).contains(e),
    decreases lv.len() - l,
{
    if l == lv.len() {
        assert(lv.take(l) =~= lv);
    } else {
        assert(lv.take(l + 1).drop_last() =~= lv.take(l));
        assert(lv.take(l + 1).last() == lv[l]);
        lemma_concat_parts(levels_run(lv.take(l)), level_run(lv[l]), e);
        lemma_levels_run_prefix(lv, l + 1, e);
    }
}

/// Membership in the whole tree splits over its three sources.
pub proof fn lemma_all_entries_parts(t: TreeInner, e: Entry)
    ensures
        t.all_entries().contains(e) <==> (t.active_memtable@.contains(e) || concat_runs(
            sealed_views(t.sealed_memtables@),
        ).contains(e) || levels_run(t.levels.lv()).contains(e)),
{
    lemma_concat_parts(
        t.active_memtable@ + concat_runs(sealed_views(t.sealed_memtables@)),
        levels_run(t.levels.lv()),
        e,
    );
    lemma_concat_parts(t.active_memtable@, concat_runs(sealed_views(t.sealed_memtables@)), e);
}

/// Membership in a concatenation splits over its parts.
pub proof fn lemma_concat_parts(a: Seq<Entry>, b: Seq<Entry>, e: Entry)
    ensures
        (a + b).contains(e) <==> (a.contains(e) || b.contains(e)),
{
    if a.contains(e) {
        let k = choose|k: int| 0 <= k < a.len() && a[k] == e;
        assert((a + b)[k] == e);
    }
    if b.contains(e) {
        let k = choose|k: int| 0 <= k < b.len() && b[k] == e;
        assert((a + b)[a.len() + k] == e);
    }
    if (a + b).contains(e) {
        let k = choose|k: int| 0 <= k < (a + b).len() && (a + b)[k] == e;
        if k < a.len() {
            assert(a[k] == e);
        } else {
            assert(b[k - a.len()] == e);
        }
    }
}

} // verus!
