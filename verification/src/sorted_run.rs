//! Operations on runs: vectors of entries kept strictly sorted in
//! the internal order (key ascending, stamp descending). Memtables,
//! segments and merge outputs are all runs.
use crate::keyorder::{key_cmp, key_eq, lemma_lex_irrefl, KeyOrd};
use crate::value::{
    best_for, entries_sorted, entry_lt, entry_matches, is_newest_match, lemma_entry_asym,
    lemma_entry_total, lemma_entry_trans, no_match, Entry, InternalValue, SeqNo,
};
use vstd::prelude::*;

verus! {

/// The entries a vector of internal values stands for.
pub open spec fn views_of(s: Seq<InternalValue>) -> Seq<Entry> {
    s.map_values(|iv: InternalValue| iv@)
}

/// Some entry of `s` already carries this (key, stamp) pair.
pub open spec fn has_key_seqno(s: Seq<Entry>, key: Seq<u8>, seqno: SeqNo) -> bool {
    exists|i: int| 0 <= i < s.len() && (#[trigger] s[i]).key == key && s[i].seqno == seqno
}

/// Ordered entries never share (key, stamp).
pub proof fn lemma_entry_lt_ne(a: Entry, b: Entry)
    requires
        entry_lt(a, b),
    ensures
        !(a.key == b.key && a.seqno == b.seqno),
{
    if a.key == b.key && a.seqno == b.seqno {
        lemma_lex_irrefl(a.key);
    }
}

/// Whether the run's entry at `i` sorts before `b`.
fn entry_before_at(entries: &Vec<InternalValue>, i: usize, b: &InternalValue) -> (r: bool)
    requires
        i < entries@.len(),
    ensures
        r == entry_lt(entries@[i as int]@, b@),
{
    match key_cmp(&entries[i].key, &b.key) {
        KeyOrd::Less => true,
        KeyOrd::Equal => entries[i].seqno > b.seqno,
        KeyOrd::Greater => false,
    }
}

/// Whether the run's entry at `i` shares key and stamp with `b`.
fn key_seqno_eq_at(entries: &Vec<InternalValue>, i: usize, b: &InternalValue) -> (r: bool)
    requires
        i < entries@.len(),
    ensures
        r == (entries@[i as int]@.key == b@.key && entries@[i as int]@.seqno == b@.seqno),
{
    key_eq(&entries[i].key, &b.key) && entries[i].seqno == b.seqno
}

/// Inserts `item` into the run, keeping it sorted. An entry that
/// already carries the same (key, stamp) pair is replaced, so a
/// later write under one stamp wins.
pub fn insert_sorted(entries: &mut Vec<InternalValue>, item: InternalValue)
    requires
        entries_sorted(views_of(old(entries)@)),
    ensures
        entries_sorted(views_of(final(entries)@)),
        forall|e: Entry| #[trigger]
            views_of(final(entries)@).contains(e) <==> ((views_of(old(entries)@).contains(e) && !(
            e.key == item@.key && e.seqno == item@.seqno)) || e == item@),
        final(entries)@.len() == old(entries)@.len() + (if has_key_seqno(
            views_of(old(entries)@),
            item@.key,
            item@.seqno,
        ) {
            0int
        } else {
            1int
        }),
{
    let ghost ov = views_of(entries@);
    let n = entries.len();
    let mut i: usize = 0;
    while i < n && entry_before_at(entries, i, &item)
        invariant
            i <= n,
            n == entries@.len(),
            entries@ == old(entries)@,
            ov == views_of(entries@),
            forall|j: int| 0 <= j < i ==> entry_lt(#[trigger] ov[j], item@),
        decreases n - i,
    {
        i += 1;
    }
    assert(i == n || !entry_lt(ov[i as int], item@));
    if i < n && key_seqno_eq_at(entries, i, &item) {
        // replace the version written under the same stamp
        entries.set(i, item);
        proof {
            let nv = views_of(entries@);
            assert(nv =~= ov.update(i as int, item@));
            assert forall|p: int, q: int| 0 <= p < q < nv.len() implies entry_lt(
                #[trigger] nv[p],
                #[trigger] nv[q],
            ) by {
                assert(entry_lt(ov[p], ov[q]));
            }
            assert forall|e: Entry| #[trigger]
                nv.contains(e) implies ((ov.contains(e) && !(e.key == item@.key && e.seqno
                == item@.seqno)) || e == item@) by {
                let k = choose|k: int| 0 <= k < nv.len() && nv[k] == e;
                if k != i {
                    assert(ov[k] == e);
                    assert(ov.contains(e));
                    if k < i {
                        lemma_entry_lt_ne(ov[k], ov[i as int]);
                    } else {
                        lemma_entry_lt_ne(ov[i as int], ov[k]);
                    }
                }
            }
            assert forall|e: Entry|
                ((ov.contains(e) && !(e.key == item@.key && e.seqno == item@.seqno)) || e
                    == item@) implies #[trigger] nv.contains(e) by {
                if e == item@ {
                    assert(nv[i as int] == e);
                } else {
                    let k = choose|k: int| 0 <= k < ov.len() && ov[k] == e;
                    assert(k != i);
                    assert(nv[k] == e);
                }
            }
            assert(has_key_seqno(ov, item@.key, item@.seqno)) by {
                assert(ov[i as int].key == item@.key && ov[i as int].seqno == item@.seqno);
            }
        }
    } else {
        proof {
            // item's (key, stamp) pair is fresh, and item sorts
            // after everything before the insertion point and
            // before everything after it
            assert forall|j: int| i <= j < n implies entry_lt(item@, #[trigger] ov[j]) by {
                lemma_entry_total(item@, ov[i as int]);
                if j > i {
                    lemma_entry_trans(item@, ov[i as int], ov[j]);
                }
            }
            assert forall|j: int| 0 <= j < n implies !((#[trigger] ov[j]).key == item@.key && ov[j].seqno
                == item@.seqno) by {
                if j < i {
                    lemma_entry_lt_ne(ov[j], item@);
                } else {
                    lemma_entry_lt_ne(item@, ov[j]);
                }
            }
            assert(!has_key_seqno(ov, item@.key, item@.seqno));
        }
        entries.insert(i, item);
        proof {
            let nv = views_of(entries@);
            old(entries)@.insert_ensures(i as int, item);
            assert(nv =~= ov.insert(i as int, item@)) by {
                ov.insert_ensures(i as int, item@);
                assert forall|k: int| 0 <= k < nv.len() implies nv[k] == ov.insert(
                    i as int,
                    item@,
                )[k] by {
                    if k < i {
                    } else if k == i {
                    } else {
                        assert(entries@[k] == old(entries)@[k - 1]);
                        assert(ov.insert(i as int, item@)[k] == ov[k - 1]);
                    }
                }
            }
            ov.insert_ensures(i as int, item@);
            assert forall|p: int, q: int| 0 <= p < q < nv.len() implies entry_lt(
                #[trigger] nv[p],
                #[trigger] nv[q],
            ) by {
                if q < i {
                    assert(entry_lt(ov[p], ov[q]));
                } else if p > i {
                    assert(entry_lt(ov[p - 1], ov[q - 1]));
                } else if p == i {
                    assert(nv[p] == item@ && nv[q] == ov[q - 1]);
                } else if q == i {
                    assert(nv[q] == item@ && nv[p] == ov[p]);
                } else {
                    // p < i < q
                    assert(nv[p] == ov[p] && nv[q] == ov[q - 1]);
                    if q - 1 == i {
                        assert(entry_lt(ov[p], item@) && entry_lt(item@, ov[i as int]));
                    } else {
                        assert(entry_lt(ov[p], ov[q - 1]));
                    }
                }
            }
            assert forall|e: Entry| #[trigger]
                nv.contains(e) implies ((ov.contains(e) && !(e.key == item@.key && e.seqno
                == item@.seqno)) || e == item@) by {
                let k = choose|k: int| 0 <= k < nv.len() && nv[k] == e;
                if k < i {
                    assert(ov[k] == e);
                    assert(ov.contains(e));
                } else if k > i {
                    assert(ov[k - 1] == e);
                    assert(ov.contains(e));
                }
            }
            assert forall|e: Entry|
                ((ov.contains(e) && !(e.key == item@.key && e.seqno == item@.seqno)) || e
                    == item@) implies #[trigger] nv.contains(e) by {
                if e == item@ {
                    assert(nv[i as int] == e);
                } else {
                    let k = choose|k: int| 0 <= k < ov.len() && ov[k] == e;
                    if k < i {
                        assert(nv[k] == e);
                    } else {
                        assert(nv[k + 1] == e);
                    }
                }
            }
        }
    }
}

/// The entry of an optional internal value.
pub open spec fn opt_view(o: Option<InternalValue>) -> Option<Entry> {
    match o {
        Option::None => Option::None,
        Option::Some(v) => Option::Some(v@),
    }
}

/// Scans a run and folds it into a running point-read answer: given
/// any collection `prior` that `acc` already answers for, the result
/// answers for `prior` extended by this run.
pub fn scan_best(
    entries: &Vec<InternalValue>,
    key: &Vec<u8>,
    snapshot: SeqNo,
    acc: Option<InternalValue>,
) -> (r: Option<InternalValue>)
    ensures
        forall|prior: Seq<Entry>|
            #[trigger] best_for(prior, key@, snapshot, opt_view(acc)) ==> best_for(
                prior + views_of(entries@),
                key@,
                snapshot,
                opt_view(r),
            ),
{
    let ghost acc0 = acc;
    let mut best = acc;
    let n = entries.len();
    let mut j: usize = 0;
    while j < n
        invariant
            j <= n,
            n == entries@.len(),
            forall|prior: Seq<Entry>|
                #[trigger] best_for(prior, key@, snapshot, opt_view(acc0)) ==> best_for(
                    prior + views_of(entries@.take(j as int)),
                    key@,
                    snapshot,
                    opt_view(best),
                ),
        decreases n - j,
    {
        let ghost prev = best;
        let is_cand = key_eq(&entries[j].key, key) && entries[j].seqno <= snapshot;
        let replace = is_cand && (match &best {
            Option::None => true,
            Option::Some(b) => entries[j].seqno > b.seqno,
        });
        if replace {
            best = Some(entries[j].duplicate());
        }
        proof {
            let ej = entries@[j as int]@;
            assert forall|prior: Seq<Entry>|
                #[trigger] best_for(prior, key@, snapshot, opt_view(acc0)) implies best_for(
                prior + views_of(entries@.take(j + 1)),
                key@,
                snapshot,
                opt_view(best),
            ) by {
                let pj = prior + views_of(entries@.take(j as int));
                let pj1 = prior + views_of(entries@.take(j + 1));
                assert(best_for(pj, key@, snapshot, opt_view(prev)));
                assert(pj1 =~= pj.push(ej));
                if replace {
                    assert(pj1[pj1.len() - 1] == ej);
                    assert(pj1.contains(ej));
                    assert forall|i: int|
                        0 <= i < pj1.len() && entry_matches(
                            #[trigger] pj1[i],
                            key@,
                            snapshot,
                        ) implies pj1[i].seqno <= ej.seqno by {
                        if i < pj.len() {
                            assert(pj[i] == pj1[i]);
                        }
                    }
                    assert(is_newest_match(pj1, ej, key@, snapshot));
                } else {
                    match prev {
                        Option::None => {
                            assert(!entry_matches(ej, key@, snapshot));
                            assert forall|i: int| 0 <= i < pj1.len() implies !entry_matches(
                                #[trigger] pj1[i],
                                key@,
                                snapshot,
                            ) by {
                                if i < pj.len() {
                                    assert(pj[i] == pj1[i]);
                                }
                            }
                        },
                        Option::Some(b) => {
                            let k = choose|k: int| 0 <= k < pj.len() && pj[k] == b@;
                            assert(pj1[k] == b@);
                            assert(pj1.contains(b@));
                            assert forall|i: int|
                                0 <= i < pj1.len() && entry_matches(
                                    #[trigger] pj1[i],
                                    key@,
                                    snapshot,
                                ) implies pj1[i].seqno <= b@.seqno by {
                                if i < pj.len() {
                                    assert(pj[i] == pj1[i]);
                                }
                            }
                        },
                    }
                }
            }
        }
        j += 1;
    }
    proof {
        assert(entries@.take(n as int) =~= entries@);
    }
    best
}

/// Two entries of one sorted run that share (key, stamp) are the
/// same entry.
pub proof fn lemma_sorted_unique(s: Seq<Entry>, e1: Entry, e2: Entry)
    requires
        entries_sorted(s),
        s.contains(e1),
        s.contains(e2),
        e1.key == e2.key,
        e1.seqno == e2.seqno,
    ensures
        e1 == e2,
{
    let i = choose|i: int| 0 <= i < s.len() && s[i] == e1;
    let j = choose|j: int| 0 <= j < s.len() && s[j] == e2;
    if i < j {
        lemma_entry_lt_ne(s[i], s[j]);
    } else if j < i {
        lemma_entry_lt_ne(s[j], s[i]);
    }
}

/// Folds the entries of `src` with stamp at or below `limit` into
/// the sorted run `dst`. The two runs may not disagree on any
/// (key, stamp) pair, so nothing is lost: afterwards `dst` holds
/// exactly its old entries and the ones the filter let in.
#[verifier::loop_isolation(false)]
#[verifier::rlimit(60)]
pub fn collect_filtered(dst: &mut Vec<InternalValue>, src: &Vec<InternalValue>, limit: SeqNo)
    requires
        entries_sorted(views_of(old(dst)@)),
        entries_sorted(views_of(src@)),
        forall|e1: Entry, e2: Entry|
            views_of(old(dst)@).contains(e1) && views_of(src@).contains(e2) && e1.key == e2.key
                && e1.seqno == e2.seqno ==> e1 == e2,
    ensures
        entries_sorted(views_of(final(dst)@)),
        forall|e: Entry| #[trigger]
            views_of(final(dst)@).contains(e) <==> (views_of(old(dst)@).contains(e) || (views_of(
                src@,
            ).contains(e) && e.seqno <= limit)),
{
    let ghost sv = views_of(src@);
    let ghost d0 = views_of(dst@);
    let mut k: usize = 0;
    while k < src.len()
        invariant
            k <= sv.len(),
            sv == views_of(src@),
            d0 == views_of(old(dst)@),
            entries_sorted(views_of(dst@)),
            forall|e: Entry| #[trigger]
                views_of(dst@).contains(e) <==> (d0.contains(e) || (sv.take(k as int).contains(e)
                    && e.seqno <= limit)),
        decreases sv.len() - k,
    {
        let ghost pre = views_of(dst@);
        let ghost ek = sv[k as int];
        if src[k].seqno <= limit {
            let item = src[k].duplicate();
            insert_sorted(dst, item);
        }
        proof {
            assert(sv.take(k + 1) =~= sv.take(k as int).push(ek));
            assert forall|e: Entry| #[trigger]
                views_of(dst@).contains(e) <==> (d0.contains(e) || (sv.take(k + 1).contains(e)
                    && e.seqno <= limit)) by {
                crate::levels::lemma_push_contains(sv.take(k as int), ek, e);
                if ek.seqno <= limit {
                    // the entry was inserted; anything it displaced
                    // shared its (key, stamp) and so was the entry
                    // itself
                    if pre.contains(e) && e.key == ek.key && e.seqno == ek.seqno {
                        assert(sv.contains(ek)) by {
                            assert(sv[k as int] == ek);
                        }
                        if d0.contains(e) {
                            assert(e == ek);
                        } else {
                            assert(sv.take(k as int).contains(e));
                            let w = choose|w: int|
                                0 <= w < sv.take(k as int).len() && sv.take(k as int)[w] == e;
                            assert(sv[w] == e);
                            assert(sv.contains(e));
                            lemma_sorted_unique(sv, e, ek);
                        }
                    }
                }
            }
        }
        k += 1;
    }
    proof {
        assert(sv.take(sv.len() as int) =~= sv);
    }
}

/// A point read over one run alone.
pub fn run_get(entries: &Vec<InternalValue>, key: &Vec<u8>, snapshot: SeqNo) -> (r: Option<
    InternalValue,
>)
    ensures
        best_for(views_of(entries@), key@, snapshot, opt_view(r)),
{
    let r = scan_best(entries, key, snapshot, None);
    proof {
        let empty = Seq::<Entry>::empty();
        assert(best_for(empty, key@, snapshot, opt_view(None::<InternalValue>)));
        assert(empty + views_of(entries@) =~= views_of(entries@));
    }
    r
}

} // verus!
