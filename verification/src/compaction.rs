//! Compaction: the size-tiered strategy as a pure function of the
//! manifest, the merge that folds runs together, and the executor
//! step that commits one compaction.
use crate::error::Error;
use crate::keyorder::{key_eq, lemma_lex_irrefl};
use crate::levels::{id_in, level_views, visible_segs, Levels};
use crate::segment::Segment;
use crate::sorted_run::{insert_sorted, views_of};
use crate::value::{
    entries_sorted, entry_lt, entry_matches, is_newest_match, Entry, InternalValue, SeqNo,
    SEQNO_MAX,
};
use crate::segment::SegmentView;
use std::sync::Arc;
use vstd::prelude::*;

verus! {

/// What a chosen compaction will do: merge these segments into
/// `dest_level`, aiming at output segments of `target_size` bytes.
pub struct Options {
    pub segment_ids: Vec<u64>,
    pub dest_level: u8,
    pub target_size: u64,
}

/// A compaction strategy's verdict on the current manifest.
pub enum Choice {
    /// Nothing worth compacting.
    DoNothing,
    /// Merge the named segments into the destination level.
    DoCompact(Options),
}

/// The ids of a run of segments.
pub open spec fn ids_of(s: Seq<SegmentView>) -> Seq<u64> {
    s.map_values(|x: SegmentView| x.id)
}

pub open spec fn min_int(a: int, b: int) -> int {
    if a < b {
        a
    } else {
        b
    }
}

/// What size-tiered compaction picks, scanning levels from `i` on:
/// the first level before the last whose visible segments reach the
/// minimum threshold gives up to `max` of them, headed one level
/// deeper. The last level is never a source.
pub open spec fn stcs_from(
    lv: Seq<Seq<SegmentView>>,
    hidden: Seq<u64>,
    min: int,
    max: int,
    i: int,
) -> Option<(Seq<u64>, u8)>
    decreases lv.len() - i
        when 0 <= i <= lv.len()
{
    if i >= lv.len() - 1 {
        None
    } else {
        let vis = visible_segs(lv[i], hidden);
        if vis.len() >= min {
            Some((ids_of(vis).take(min_int(max, vis.len() as int)), (i + 1) as u8))
        } else {
            stcs_from(lv, hidden, min, max, i + 1)
        }
    }
}

/// Size-tiered compaction (STCS): when a level gathers at least
/// `min_threshold` visible segments, up to `max_threshold` of them
/// are merged into the next level.
pub struct Strategy {
    pub min_threshold: usize,
    pub max_threshold: usize,
}

impl Strategy {
    /// The configured lower threshold.
    pub open spec fn min_spec(self) -> int {
        self.min_threshold as int
    }

    /// The configured upper threshold.
    pub open spec fn max_spec(self) -> int {
        self.max_threshold as int
    }

    /// Configures a size-tiered strategy. The thresholds must be
    /// ordered and the lower one positive.
    pub fn new(min_threshold: usize, max_threshold: usize) -> (r: Arc<Strategy>)
        requires
            min_threshold > 0,
            min_threshold <= max_threshold,
        ensures
            r.min_spec() == min_threshold,
            r.max_spec() == max_threshold,
    {
        Arc::new(Strategy { min_threshold, max_threshold })
    }

    /// What this strategy does to the given manifest: exactly
    /// `stcs_from` applied at level zero.
    #[verifier::loop_isolation(false)]
    pub fn pick(&self, levels: &Levels) -> (r: Choice)
        requires
            levels.wf(),
        ensures
            ({
                let c = stcs_from(
                    levels.lv(),
                    levels.hidden@,
                    self.min_spec(),
                    self.max_spec(),
                    0,
                );
                match r {
                    Choice::DoNothing => c is None,
                    Choice::DoCompact(o) => c matches Some(pick) && o.segment_ids@ == pick.0
                        && o.dest_level == pick.1 && o.target_size == 0xFFFF_FFFF_FFFF_FFFF,
                }
            }),
    {
        let ghost lv = levels.lv();
        let ghost hid = levels.hidden@;
        let n = levels.level_count();
        let mut i: usize = 0;
        while i + 1 < n
            invariant
                i < n,
                stcs_from(lv, hid, self.min_spec(), self.max_spec(), 0) == stcs_from(
                    lv,
                    hid,
                    self.min_spec(),
                    self.max_spec(),
                    i as int,
                ),
            decreases n - i,
        {
            let vis = visible_ids(&self.level_ref(levels, i), &levels.hidden);
            let vn = vis.len();
            if vn >= self.min_threshold {
                let m = if self.max_threshold < vn {
                    self.max_threshold
                } else {
                    vn
                };
                let mut out: Vec<u64> = Vec::new();
                let mut k: usize = 0;
                while k < m
                    invariant
                        k <= m <= vn,
                        vn == vis@.len(),
                        out@ == vis@.take(k as int),
                    decreases m - k,
                {
                    out.push(vis[k]);
                    assert(out@ =~= vis@.take(k + 1));
                    k += 1;
                }
                proof {
                    assert(out@ =~= ids_of(visible_segs(lv[i as int], hid)).take(
                        min_int(self.max_spec(), visible_segs(lv[i as int], hid).len() as int),
                    ));
                }
                return Choice::DoCompact(
                    Options {
                        segment_ids: out,
                        dest_level: (i + 1) as u8,
                        target_size: 0xFFFF_FFFF_FFFF_FFFF,
                    },
                );
            }
            i += 1;
        }
        Choice::DoNothing
    }

    /// A borrow of one level.
    fn level_ref<'a>(&self, levels: &'a Levels, l: usize) -> (r: &'a Vec<Segment>)
        requires
            l < levels.lv().len(),
        ensures
            level_views(r@) == levels.lv()[l as int],
    {
        &levels.levels[l]
    }
}

impl Default for Strategy {
    /// The default thresholds: merge once four segments gather,
    /// taking at most eight.
    fn default() -> (r: Strategy)
        ensures
            r.min_spec() == 4,
            r.max_spec() == 8,
    {
        Strategy { min_threshold: 4, max_threshold: 8 }
    }
}

/// The ids of the visible segments of one level, in order.
#[verifier::loop_isolation(false)]
fn visible_ids(level: &Vec<Segment>, hidden: &Vec<u64>) -> (r: Vec<u64>)
    ensures
        r@ == ids_of(visible_segs(level_views(level@), hidden@)),
{
    let ghost ol = level_views(level@);
    let mut out: Vec<u64> = Vec::new();
    let mut j: usize = 0;
    while j < level.len()
        invariant
            j <= ol.len(),
            out@ == ids_of(visible_segs(ol.take(j as int), hidden@)),
        decreases ol.len() - j,
    {
        let ghost pre = out@;
        let hiddenp = id_in(hidden, level[j].id);
        proof {
            assert(ol.take(j + 1).drop_last() =~= ol.take(j as int));
            assert(ol.take(j + 1).last() == ol[j as int]);
        }
        if !hiddenp {
            out.push(level[j].id);
            proof {
                assert(out@ =~= ids_of(
                    visible_segs(ol.take(j as int), hidden@).push(ol[j as int]),
                ));
            }
        }
        j += 1;
    }
    proof {
        assert(ol.take(ol.len() as int) =~= ol);
    }
    out
}

/// Whether a tombstone must survive this merge: it may be dropped
/// only when the output lands in the deepest level and no live
/// snapshot could still observe it.
pub open spec fn keep_tombstone(e: Entry, is_deepest: bool, oldest_live: Option<SeqNo>) -> bool {
    !(is_deepest && (match oldest_live {
        Option::None => true,
        Option::Some(s) => e.seqno < s,
    }))
}

/// In a sorted run, the first entry of a key block is its newest
/// version.
proof fn lemma_first_occ_winner(s: Seq<Entry>, k: int)
    requires
        entries_sorted(s),
        0 <= k < s.len(),
        forall|q: int| 0 <= q < k ==> (#[trigger] s[q]).key != s[k].key,
    ensures
        is_newest_match(s, s[k], s[k].key, SEQNO_MAX),
{
    assert(s.contains(s[k]));
    assert forall|q: int|
        0 <= q < s.len() && entry_matches(#[trigger] s[q], s[k].key, SEQNO_MAX) implies s[q].seqno
        <= s[k].seqno by {
        if q > k {
            assert(entry_lt(s[k], s[q]));
            lemma_lex_irrefl(s[k].key);
        }
    }
}

/// In a sorted run, the newest version of a key stands first in its
/// key block.
proof fn lemma_winner_first_occ(s: Seq<Entry>, k: int)
    requires
        entries_sorted(s),
        0 <= k < s.len(),
        is_newest_match(s, s[k], s[k].key, SEQNO_MAX),
    ensures
        forall|q: int| 0 <= q < k ==> (#[trigger] s[q]).key != s[k].key,
{
    assert forall|q: int| 0 <= q < k implies (#[trigger] s[q]).key != s[k].key by {
        if s[q].key == s[k].key {
            assert(entry_lt(s[q], s[k]));
            lemma_lex_irrefl(s[q].key);
            assert(entry_matches(s[q], s[k].key, SEQNO_MAX));
        }
    }
}

/// In a sorted run, a key change marks the start of a key block:
/// no earlier entry carries the new key.
proof fn lemma_block_first(s: Seq<Entry>, i: int)
    requires
        entries_sorted(s),
        0 < i < s.len(),
        s[i - 1].key != s[i].key,
    ensures
        forall|q: int| 0 <= q < i ==> (#[trigger] s[q]).key != s[i].key,
{
    assert forall|q: int| 0 <= q < i implies (#[trigger] s[q]).key != s[i].key by {
        if s[q].key == s[i].key {
            assert(entry_lt(s[q], s[i]));
            lemma_lex_irrefl(s[q].key);
            if q < i - 1 {
                assert(entry_lt(s[q], s[i - 1]));
                assert(entry_lt(s[i - 1], s[i]));
                lemma_lex_irrefl(s[i - 1].key);
                if crate::keyorder::lex_lt(s[i - 1].key, s[i].key) {
                    crate::keyorder::lemma_lex_trans(s[q].key, s[i - 1].key, s[i].key);
                    crate::keyorder::lemma_lex_asym(s[q].key, s[i].key);
                }
            }
        }
    }
}

/// Merges a sorted run down to one version per key: for each key
/// only the newest version survives (older versions are shadowed),
/// and a tombstone survives exactly when `keep_tombstone` says it
/// must. This carries the tombstone-liveness law: no merge drops a
/// tombstone while a level below may hold older versions or a live
/// snapshot could read it.
#[verifier::loop_isolation(false)]
#[verifier::rlimit(100)]
#[verifier::spinoff_prover]
pub fn merge_compress(all: &Vec<InternalValue>, is_deepest: bool, oldest_live: Option<SeqNo>) -> (r:
    Vec<InternalValue>)
    requires
        entries_sorted(views_of(all@)),
    ensures
        entries_sorted(views_of(r@)),
        forall|e: Entry| #[trigger]
            views_of(r@).contains(e) <==> (views_of(all@).contains(e) && is_newest_match(
                views_of(all@),
                e,
                e.key,
                SEQNO_MAX,
            ) && (e.tombstone ==> keep_tombstone(e, is_deepest, oldest_live))),
{
    let av = Ghost(views_of(all@));
    let mut out: Vec<InternalValue> = Vec::new();
    let ghost mut idxs: Seq<int> = Seq::empty();
    let mut i: usize = 0;
    while i < all.len()
        invariant
            i <= av@.len(),
            av@ == views_of(all@),
            idxs.len() == views_of(out@).len(),
            forall|p: int, q: int| 0 <= p < q < idxs.len() ==> idxs[p] < idxs[q],
            forall|p: int|
                0 <= p < idxs.len() ==> 0 <= #[trigger] idxs[p] < i && views_of(out@)[p]
                    == av@[idxs[p]],
            forall|p: int, q: int|
                0 <= p < idxs.len() && 0 <= q < idxs[p] ==> (#[trigger] av@[q]).key != (av@[
                #[trigger] idxs[p]]).key,
            forall|p: int|
                0 <= p < idxs.len() && (av@[#[trigger] idxs[p]]).tombstone ==> keep_tombstone(
                    av@[idxs[p]],
                    is_deepest,
                    oldest_live,
                ),
            forall|k: int|
                0 <= k < i && (forall|q: int| 0 <= q < k ==> (#[trigger] av@[q]).key != av@[k].key)
                    && ((#[trigger] av@[k]).tombstone ==> keep_tombstone(
                    av@[k],
                    is_deepest,
                    oldest_live,
                )) ==> views_of(out@).contains(av@[k]),
        decreases av@.len() - i,
    {
        let ghost pre0 = views_of(out@);
        let first = if i == 0 {
            true
        } else {
            !key_eq(&all[i - 1].key, &all[i].key)
        };
        if first {
            let keep = if all[i].is_tombstone() {
                !(is_deepest && (match oldest_live {
                    Option::None => true,
                    Option::Some(s) => all[i].seqno < s,
                }))
            } else {
                true
            };
            proof {
                // a first occurrence: equal keys stand together in
                // a sorted run, so no earlier entry carries this key
                if i > 0 {
                    lemma_block_first(av@, i as int);
                }
            }
            if keep {
                let ghost pre = views_of(out@);
                out.push(all[i].duplicate());
                proof {
                    idxs = idxs.push(i as int);
                    assert(views_of(out@) =~= pre.push(av@[i as int]));
                }
            }
        }
        proof {
            assert forall|k: int|
                0 <= k < i + 1 && (forall|q: int|
                    0 <= q < k ==> (#[trigger] av@[q]).key != av@[k].key) && ((
                #[trigger] av@[k]).tombstone ==> keep_tombstone(
                    av@[k],
                    is_deepest,
                    oldest_live,
                )) implies views_of(out@).contains(av@[k]) by {
                if k < i {
                    assert(pre0.contains(av@[k]));
                    crate::levels::lemma_push_contains(pre0, av@[i as int], av@[k]);
                    if views_of(out@) != pre0 {
                        assert(views_of(out@) =~= pre0.push(av@[i as int]));
                    }
                } else {
                    // this very index: it was pushed unless an
                    // earlier entry shares its key or the antecedent
                    // already rules the entry out
                    assert(first) by {
                        if !first {
                            assert(av@[k - 1].key != av@[k].key);
                        }
                    }
                    assert(views_of(out@).last() == av@[i as int]);
                }
            }
        }
        i += 1;
    }
    proof {
        let ov = views_of(out@);
        assert forall|p: int, q: int| 0 <= p < q < ov.len() implies entry_lt(
            #[trigger] ov[p],
            #[trigger] ov[q],
        ) by {
            assert(entry_lt(av@[idxs[p]], av@[idxs[q]]));
        }
        assert forall|e: Entry| #[trigger]
            ov.contains(e) implies (av@.contains(e) && is_newest_match(av@, e, e.key, SEQNO_MAX)
            && (e.tombstone ==> keep_tombstone(e, is_deepest, oldest_live))) by {
            let p = choose|p: int| 0 <= p < ov.len() && ov[p] == e;
            let k = idxs[p];
            assert(av@[k] == e);
            assert(av@.contains(e));
            lemma_first_occ_winner(av@, k);
        }
        assert forall|e: Entry|
            (av@.contains(e) && is_newest_match(av@, e, e.key, SEQNO_MAX) && (e.tombstone
                ==> keep_tombstone(e, is_deepest, oldest_live))) implies #[trigger] ov.contains(
            e,
        ) by {
            let k = choose|k: int| 0 <= k < av@.len() && av@[k] == e;
            lemma_winner_first_occ(av@, k);
            assert(ov.contains(av@[k]));
        }
    }
    out
}


/// What compaction merges the chosen sources into: `srcs` is the
/// union of their entries, and the merged segment holds exactly the
/// newest versions among them, minus the tombstones the liveness
/// rule lets go.
pub open spec fn merged_from(
    oldlv: Levels,
    ids: Seq<u64>,
    dest: u8,
    msv: SegmentView,
    srcs: Seq<Entry>,
    oldest_live: Option<SeqNo>,
) -> bool {
    let deepest = dest as int == oldlv.lv().len() - 1;
    &&& crate::segment::seg_wf(msv)
    &&& entries_sorted(msv.entries)
    &&& forall|e: Entry| #[trigger]
        srcs.contains(e) <==> exists|l: int, sv: SegmentView|
            #[trigger] oldlv.in_level(l, sv) && ids.contains(sv.id) && sv.entries.contains(e)
    &&& forall|e: Entry| #[trigger]
        msv.entries.contains(e) <==> (srcs.contains(e) && is_newest_match(
            srcs,
            e,
            e.key,
            SEQNO_MAX,
        ) && (e.tombstone ==> keep_tombstone(e, deepest, oldest_live)))
}

/// One compaction, fully applied: the merged segment carries the
/// sources' surviving content, the sources are gone from every
/// level, and the merged segment stands at the destination.
pub open spec fn compacted_to(
    oldlv: Levels,
    newlv: Levels,
    ids: Seq<u64>,
    dest: u8,
    msv: SegmentView,
    srcs: Seq<Entry>,
    oldest_live: Option<SeqNo>,
) -> bool {
    &&& merged_from(oldlv, ids, dest, msv, srcs, oldest_live)
    &&& newlv.lv().len() == oldlv.lv().len()
    &&& forall|l: int, s: SegmentView|
        0 <= l < oldlv.lv().len() ==> (#[trigger] newlv.lv()[l].contains(s) <==> ((
        oldlv.lv()[l].contains(s) && !ids.contains(s.id)) || (l == dest as int && s == msv)))
}

/// Every visible segment of a level stands in it and is unhidden.
proof fn lemma_visible_elems(l: Seq<SegmentView>, hidden: Seq<u64>)
    ensures
        forall|p: int|
            0 <= p < visible_segs(l, hidden).len() ==> l.contains(
                #[trigger] visible_segs(l, hidden)[p],
            ) && !hidden.contains(visible_segs(l, hidden)[p].id),
    decreases l.len(),
{
    if l.len() > 0 {
        lemma_visible_elems(l.drop_last(), hidden);
        let vis = visible_segs(l, hidden);
        let prev = visible_segs(l.drop_last(), hidden);
        assert forall|p: int| 0 <= p < vis.len() implies l.contains(#[trigger] vis[p])
            && !hidden.contains(vis[p].id) by {
            if p < prev.len() {
                assert(vis[p] == prev[p]);
                let k = choose|k: int| 0 <= k < l.drop_last().len() && l.drop_last()[k] == prev[p];
                assert(l[k] == prev[p]);
            } else {
                assert(vis[p] == l.last());
                assert(l[l.len() - 1] == l.last());
            }
        }
    }
}

/// What a successful size-tiered choice is made of: the ids of a
/// prefix of the visible segments of the chosen source level, which
/// reaches the minimum threshold; the destination is the next level.
proof fn lemma_stcs_inversion(
    lv: Seq<Seq<SegmentView>>,
    hidden: Seq<u64>,
    min: int,
    max: int,
    i0: int,
)
    requires
        0 <= i0 <= lv.len(),
        lv.len() <= 255,
        stcs_from(lv, hidden, min, max, i0) is Some,
    ensures
        ({
            let pick = stcs_from(lv, hidden, min, max, i0)->Some_0;
            let vis = visible_segs(lv[pick.1 - 1], hidden);
            &&& 1 <= pick.1 as int <= lv.len() - 1
            &&& vis.len() >= min
            &&& pick.0 == ids_of(vis).take(min_int(max, vis.len() as int))
        }),
    decreases lv.len() - i0,
{
    let vis0 = visible_segs(lv[i0], hidden);
    if vis0.len() >= min {
    } else {
        lemma_stcs_inversion(lv, hidden, min, max, i0 + 1);
    }
}

/// Collects every entry of the segments named by `ids` into one
/// sorted run: exactly the union, nothing lost, nothing invented.
#[verifier::loop_isolation(false)]
#[verifier::rlimit(100)]
#[verifier::spinoff_prover]
fn gather_runs(levels: &Levels, ids: &Vec<u64>) -> (r: Vec<InternalValue>)
    requires
        levels.wf(),
        levels.coherent(),
        forall|k: int| 0 <= k < ids@.len() ==> levels.id_present(#[trigger] ids@[k]),
    ensures
        entries_sorted(views_of(r@)),
        forall|e: Entry| #[trigger]
            views_of(r@).contains(e) <==> exists|l: int, sv: SegmentView|
                #[trigger] levels.in_level(l, sv) && ids@.contains(sv.id) && sv.entries.contains(
                    e,
                ),
{
    let mut all: Vec<InternalValue> = Vec::new();
    let mut c: usize = 0;
    while c < ids.len()
        invariant
            c <= ids@.len(),
            entries_sorted(views_of(all@)),
            forall|e: Entry| #[trigger]
                views_of(all@).contains(e) ==> exists|l: int, sv: SegmentView|
                    #[trigger] levels.in_level(l, sv) && ids@.contains(sv.id)
                        && sv.entries.contains(e),
            forall|l: int, sv: SegmentView, e: Entry|
                #![trigger levels.in_level(l, sv), sv.entries.contains(e)]
                levels.in_level(l, sv) && ids@.take(c as int).contains(sv.id)
                    && sv.entries.contains(e) ==> views_of(all@).contains(e),
        decreases ids@.len() - c,
    {
        let located = match levels.locate_id(ids[c]) {
            Option::Some(pos) => pos,
            Option::None => {
                // every chosen id is present
                proof {
                    assert(levels.id_present(ids@[c as int]));
                    assert(false);
                }
                (0, 0)
            },
        };
        let (l, i) = located;
        let ghost sv0 = levels.lv()[l as int][i as int];
        let n = levels.segment_at(l, i).entries.len();
        let mut k: usize = 0;
        while k < n
            invariant
                c < ids@.len(),
                l < levels.lv().len(),
                i < levels.lv()[l as int].len(),
                sv0 == levels.lv()[l as int][i as int],
                sv0.id == ids@[c as int],
                n == sv0.entries.len(),
                k <= n,
                entries_sorted(views_of(all@)),
                forall|e: Entry| #[trigger]
                    views_of(all@).contains(e) ==> exists|l2: int, sv: SegmentView|
                        #[trigger] levels.in_level(l2, sv) && ids@.contains(sv.id)
                            && sv.entries.contains(e),
                forall|l2: int, sv: SegmentView, e: Entry|
                    #![trigger levels.in_level(l2, sv), sv.entries.contains(e)]
                    levels.in_level(l2, sv) && ids@.take(c as int).contains(sv.id)
                        && sv.entries.contains(e) ==> views_of(all@).contains(e),
                forall|k2: int| 0 <= k2 < k ==> views_of(all@).contains(#[trigger] sv0.entries[k2]),
            decreases n - k,
        {
            let item = levels.segment_at(l, i).entries[k].duplicate();
            let ghost pre = views_of(all@);
            proof {
                assert(item@ == sv0.entries[k as int]);
                assert(sv0.entries.contains(item@));
                assert(levels.in_level(l as int, sv0)) by {
                    assert(levels.lv()[l as int][i as int] == sv0);
                }
                assert(ids@.contains(sv0.id)) by {
                    assert(ids@[c as int] == sv0.id);
                }
            }
            insert_sorted(&mut all, item);
            proof {
                // the manifest is coherent, so an equal-stamp entry
                // the insert displaced was this very entry
                assert forall|e: Entry| pre.contains(e) implies #[trigger] views_of(all@).contains(
                    e,
                ) by {
                    if e.key == item@.key && e.seqno == item@.seqno {
                        let (l2, sv) = choose|l2: int, sv: SegmentView|
                            #[trigger] levels.in_level(l2, sv) && ids@.contains(sv.id)
                                && sv.entries.contains(e);
                        let i2 = choose|i2: int|
                            0 <= i2 < levels.lv()[l2].len() && levels.lv()[l2][i2] == sv;
                        assert(levels.lv()[l2][i2].entries.contains(e));
                        assert(levels.lv()[l as int][i as int].entries.contains(item@));
                        assert(e == item@);
                    }
                }
                assert(views_of(all@).contains(item@));
            }
            k += 1;
        }
        proof {
            // the whole segment is collected, and earlier segments
            // survived every insert; segment ids name one segment
            assert(ids@.take(c + 1) =~= ids@.take(c as int).push(ids@[c as int]));
            assert forall|l2: int, sv: SegmentView, e: Entry|
                #![trigger levels.in_level(l2, sv), sv.entries.contains(e)]
                levels.in_level(l2, sv) && ids@.take(c + 1).contains(sv.id) && sv.entries.contains(
                    e,
                ) implies views_of(all@).contains(e) by {
                crate::levels::lemma_push_contains(ids@.take(c as int), ids@[c as int], sv.id);
                if !ids@.take(c as int).contains(sv.id) {
                    assert(sv.id == ids@[c as int]);
                    let i2 = choose|i2: int|
                        0 <= i2 < levels.lv()[l2].len() && levels.lv()[l2][i2] == sv;
                    assert((levels.lv()[l2][i2]).id == (levels.lv()[l as int][i as int]).id);
                    assert(l2 == l as int && i2 == i as int);
                    assert(sv == sv0);
                    let k2 = choose|k2: int| 0 <= k2 < sv0.entries.len() && sv0.entries[k2] == e;
                    assert(views_of(all@).contains(sv0.entries[k2]));
                }
            }
        }
        c += 1;
    }
    proof {
        assert(ids@.take(ids@.len() as int) =~= ids@);
    }
    all
}

/// Runs one executor step: asks the strategy, and if it chose a
/// compaction, merges the chosen segments and swaps the result in.
/// `Ok(false)` reports, exactly, that nothing was worth doing. The
/// step is refused only when the id counter is exhausted or a
/// surviving destination segment is in the way; in particular, when
/// every destination segment is among the chosen sources (an empty
/// destination included), the compaction must go through. On a
/// refusal the manifest is left as it was, the sources unhidden.
#[verifier::loop_isolation(false)]
#[verifier::rlimit(100)]
#[verifier::spinoff_prover]
pub fn compact_once(levels: &mut Levels, strategy: &Strategy, oldest_live: Option<SeqNo>) -> (r:
    Result<bool, Error>)
    requires
        old(levels).wf(),
        old(levels).coherent(),
    ensures
        final(levels).wf(),
        ({
            let c = stcs_from(
                old(levels).lv(),
                old(levels).hidden@,
                strategy.min_spec(),
                strategy.max_spec(),
                0,
            );
            &&& (c is None ==> r == Ok::<bool, Error>(false) && *final(levels) == *old(levels))
            &&& (r == Ok::<bool, Error>(false) ==> c is None)
            &&& (r matches Ok(b) && b ==> (c matches Some(pick) && exists|
                msv: SegmentView,
                srcs: Seq<Entry>,
            |
                #[trigger] compacted_to(
                    *old(levels),
                    *final(levels),
                    pick.0,
                    pick.1,
                    msv,
                    srcs,
                    oldest_live,
                ) && (forall|h: u64| #[trigger] final(levels).hidden@.contains(h)
                    == old(levels).hidden@.contains(h))))
            &&& ((c matches Some(pick) && old(levels).next_segment_id < 0xFFFF_FFFF_FFFF_FFFF && (
            forall|s: SegmentView|
                old(levels).in_level(pick.1 as int, s) ==> pick.0.contains(s.id))) ==> (r
                matches Ok(b) && b))
            &&& (r is Err ==> (c matches Some(pick) && (old(levels).next_segment_id
                == 0xFFFF_FFFF_FFFF_FFFF || exists|s: SegmentView, msv: SegmentView, srcs: Seq<
                    Entry,
                >|
                #[trigger] old(levels).in_level(pick.1 as int, s) && !pick.0.contains(s.id)
                    && #[trigger] merged_from(
                    *old(levels),
                    pick.0,
                    pick.1,
                    msv,
                    srcs,
                    oldest_live,
                ) && !crate::segment::ranges_disjoint(s, msv))))
            &&& (r is Err ==> final(levels).levels@ == old(levels).levels@
                && final(levels).next_segment_id == old(levels).next_segment_id && (forall|h: u64|
                #[trigger] final(levels).hidden@.contains(h) == old(levels).hidden@.contains(h)))
        }),
{
    let choice = strategy.pick(levels);
    let opts = match choice {
        Choice::DoNothing => {
            return Ok(false);
        },
        Choice::DoCompact(opts) => opts,
    };
    let ghost hidden0 = old(levels).hidden@;
    let ghost lv0 = old(levels).lv();
    let ghost pick = stcs_from(
        lv0,
        hidden0,
        strategy.min_spec(),
        strategy.max_spec(),
        0,
    )->Some_0;
    proof {
        lemma_stcs_inversion(lv0, hidden0, strategy.min_spec(), strategy.max_spec(), 0);
        let vis = visible_segs(lv0[pick.1 - 1], hidden0);
        lemma_visible_elems(lv0[pick.1 - 1], hidden0);
        // every chosen id names a present, unhidden segment
        assert forall|k: int|
            0 <= k < opts.segment_ids@.len() implies levels.id_present(
            #[trigger] opts.segment_ids@[k],
        ) && !hidden0.contains(opts.segment_ids@[k]) by {
            assert(opts.segment_ids@[k] == ids_of(vis)[k]);
            assert(ids_of(vis)[k] == vis[k].id);
            assert(lv0[pick.1 - 1].contains(vis[k]) && !hidden0.contains(vis[k].id));
            let i2 = choose|i2: int|
                0 <= i2 < lv0[pick.1 - 1].len() && #[trigger] lv0[pick.1 - 1][i2] == vis[k];
            assert((levels.lv()[pick.1 - 1][i2]).id == opts.segment_ids@[k]);
        }
    }
    if let Err(e) = levels.hide_segments(&opts.segment_ids) {
        // unreachable: the chosen ids are present and unhidden
        proof {
            assert(false);
        }
        return Err(e);
    }
    proof {
        // hiding touches only the hidden set, so presence and
        // coherence carry over
        assert(levels.lv() == lv0);
        assert forall|k: int| 0 <= k < opts.segment_ids@.len() implies levels.id_present(
            #[trigger] opts.segment_ids@[k],
        ) by {
            assert(old(levels).id_present(opts.segment_ids@[k]));
        }
        assert(levels.coherent());
    }
    let ghost mid = *levels;
    let all = gather_runs(levels, &opts.segment_ids);
    let ghost srcs = views_of(all@);
    let dl = opts.dest_level as usize;
    let is_deepest = dl + 1 == levels.level_count();
    let merged = merge_compress(&all, is_deepest, oldest_live);
    let seg = Segment::from_entries(levels.next_segment_id, merged);
    let ghost msv = seg@;
    proof {
        assert(mid.lv() == old(levels).lv());
        assert forall|e: Entry| #[trigger]
            srcs.contains(e) <==> exists|l: int, sv: SegmentView|
                #[trigger] old(levels).in_level(l, sv) && opts.segment_ids@.contains(sv.id)
                    && sv.entries.contains(e) by {
            if srcs.contains(e) {
                let (l, sv) = choose|l: int, sv: SegmentView|
                    #[trigger] mid.in_level(l, sv) && opts.segment_ids@.contains(sv.id)
                        && sv.entries.contains(e);
                assert(old(levels).in_level(l, sv));
            }
            if exists|l: int, sv: SegmentView|
                #[trigger] old(levels).in_level(l, sv) && opts.segment_ids@.contains(sv.id)
                    && sv.entries.contains(e) {
                let (l, sv) = choose|l: int, sv: SegmentView|
                    #[trigger] old(levels).in_level(l, sv) && opts.segment_ids@.contains(
                        sv.id,
                    ) && sv.entries.contains(e);
                assert(mid.in_level(l, sv));
            }
        }
        assert(merged_from(
            *old(levels),
            opts.segment_ids@,
            opts.dest_level,
            msv,
            srcs,
            oldest_live,
        ));
    }
    match levels.atomic_swap(&opts.segment_ids, seg, opts.dest_level) {
        Ok(()) => {
            proof {
                lemma_unhide_restores(hidden0, opts.segment_ids@, levels.hidden@);
                assert(compacted_to(
                    *old(levels),
                    *levels,
                    opts.segment_ids@,
                    opts.dest_level,
                    msv,
                    srcs,
                    oldest_live,
                ));
            }
            Ok(true)
        },
        Err(e) => {
            proof {
                // the swap is refused only for the stated causes;
                // project the overlap witness to a surviving segment
                if old(levels).next_segment_id < 0xFFFF_FFFF_FFFF_FFFF {
                    let i2 = choose|i2: int|
                        0 <= i2 < lv0[opts.dest_level as int].len() && !opts.segment_ids@.contains(
                            (#[trigger] lv0[opts.dest_level as int][i2]).id,
                        ) && !crate::segment::ranges_disjoint(
                            lv0[opts.dest_level as int][i2],
                            msv,
                        );
                    assert(old(levels).in_level(
                        opts.dest_level as int,
                        lv0[opts.dest_level as int][i2],
                    )) by {
                        assert(lv0[opts.dest_level as int].contains(
                            lv0[opts.dest_level as int][i2],
                        ));
                    }
                }
            }
            levels.unhide_segments(&opts.segment_ids);
            proof {
                lemma_unhide_restores(hidden0, opts.segment_ids@, levels.hidden@);
            }
            Err(e)
        },
    }
}

/// Unhiding exactly the ids a successful hide added restores the
/// hidden set's membership.
proof fn lemma_unhide_restores(hidden0: Seq<u64>, ids: Seq<u64>, now: Seq<u64>)
    requires
        forall|h: u64| #[trigger]
            now.contains(h) <==> ((hidden0 + ids).contains(h) && !ids.contains(h)),
        forall|h: u64| #[trigger] hidden0.contains(h) ==> !ids.contains(h),
    ensures
        forall|h: u64| #[trigger] now.contains(h) == hidden0.contains(h),
{
    assert forall|h: u64| #[trigger] now.contains(h) == hidden0.contains(h) by {
        if hidden0.contains(h) {
            let w = choose|w: int| 0 <= w < hidden0.len() && hidden0[w] == h;
            assert((hidden0 + ids)[w] == h);
        }
        if (hidden0 + ids).contains(h) && !ids.contains(h) {
            let w = choose|w: int| 0 <= w < (hidden0 + ids).len() && (hidden0 + ids)[w] == h;
            if w < hidden0.len() {
                assert(hidden0[w] == h);
            } else {
                assert(ids[w - hidden0.len()] == h);
            }
        }
    }
}

} // verus!
