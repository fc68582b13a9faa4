//! Keys, values, sequence numbers and the internal entry quadruple.
use crate::keyorder::{lemma_lex_asym, lemma_lex_irrefl, lemma_lex_total, lemma_lex_trans, lex_lt};
use vstd::prelude::*;

verus! {

/// Monotonically increasing write stamp issued by the keyspace.
pub type SeqNo = u64;

/// The sentinel stamp used by transaction-private entries so they
/// shadow every committed entry; the keyspace never issues it.
pub const SEQNO_MAX: u64 = 0xFFFF_FFFF_FFFF_FFFF;

/// Whether an entry carries data or marks a deletion.
#[derive(Clone, Copy, Debug, PartialEq, Eq)]
pub enum ValueType {
    /// The entry holds user data.
    Value,
    /// The entry is a tombstone: it shadows older versions.
    Tombstone,
}

/// One version of one key: (key, value, stamp, kind).
#[derive(Debug, PartialEq, Eq)]
pub struct InternalValue {
    pub key: Vec<u8>,
    pub value: Vec<u8>,
    pub seqno: SeqNo,
    pub value_type: ValueType,
}

/// The mathematical shadow of an `InternalValue`.
pub struct Entry {
    pub key: Seq<u8>,
    pub value: Seq<u8>,
    pub seqno: SeqNo,
    pub tombstone: bool,
}

impl View for InternalValue {
    type V = Entry;

    open spec fn view(&self) -> Entry {
        Entry {
            key: self.key@,
            value: self.value@,
            seqno: self.seqno,
            tombstone: self.value_type is Tombstone,
        }
    }
}

impl InternalValue {
    /// Builds an entry from its four parts.
    pub fn from_components(key: Vec<u8>, value: Vec<u8>, seqno: SeqNo, value_type: ValueType) -> (r:
        InternalValue)
        ensures
            r@.key == key@,
            r@.value == value@,
            r@.seqno == seqno,
            r@.tombstone == (value_type is Tombstone),
    {
        InternalValue { key, value, seqno, value_type }
    }

    /// Builds a tombstone for `key`.
    pub fn new_tombstone(key: Vec<u8>, seqno: SeqNo) -> (r: InternalValue)
        ensures
            r@.key == key@,
            r@.value == Seq::<u8>::empty(),
            r@.seqno == seqno,
            r@.tombstone,
    {
        let r = InternalValue { key, value: Vec::new(), seqno, value_type: ValueType::Tombstone };
        assert(r.value@ =~= Seq::<u8>::empty());
        r
    }

    /// Whether this entry marks a deletion.
    pub fn is_tombstone(&self) -> (r: bool)
        ensures
            r == self@.tombstone,
    {
        match self.value_type {
            ValueType::Tombstone => true,
            ValueType::Value => false,
        }
    }

    /// An explicit copy of the entry.
    pub fn duplicate(&self) -> (r: InternalValue)
        ensures
            r@ == self@,
    {
        let k: Vec<u8> = copy_bytes(&self.key);
        let v: Vec<u8> = copy_bytes(&self.value);
        InternalValue { key: k, value: v, seqno: self.seqno, value_type: self.value_type }
    }
}

/// A fresh vector holding the same bytes.
pub fn copy_bytes(v: &Vec<u8>) -> (r: Vec<u8>)
    ensures
        r@ == v@,
{
    let mut out: Vec<u8> = Vec::new();
    let mut i: usize = 0;
    while i < v.len()
        invariant
            i <= v@.len(),
            out@ == v@.subrange(0, i as int),
        decreases v@.len() - i,
    {
        out.push(v[i]);
        assert(out@ =~= v@.subrange(0, i + 1));
        i += 1;
    }
    assert(out@ =~= v@);
    out
}

/// Drops delete markers: `Some` only for data entries, as a reader
/// of a merged view wants.
pub fn ignore_tombstone_value(item: InternalValue) -> (r: Option<InternalValue>)
    ensures
        item@.tombstone ==> r is None,
        !item@.tombstone ==> r == Some(item),
{
    if item.is_tombstone() {
        None
    } else {
        Some(item)
    }
}

/// Internal order: ascending by key, then descending by stamp, so
/// that within one key the newest version comes first.
pub open spec fn entry_lt(a: Entry, b: Entry) -> bool {
    lex_lt(a.key, b.key) || (a.key == b.key && a.seqno > b.seqno)
}

/// Strictly sorted under the internal order; this also forbids two
/// entries sharing (key, stamp).
pub open spec fn entries_sorted(s: Seq<Entry>) -> bool {
    forall|i: int, j: int| 0 <= i < j < s.len() ==> entry_lt(#[trigger] s[i], #[trigger] s[j])
}

/// Two entries are ordered one way, the other way, or share key and
/// stamp.
pub proof fn lemma_entry_total(a: Entry, b: Entry)
    ensures
        entry_lt(a, b) || entry_lt(b, a) || (a.key == b.key && a.seqno == b.seqno),
{
    lemma_lex_total(a.key, b.key);
}

/// The internal order is asymmetric.
pub proof fn lemma_entry_asym(a: Entry, b: Entry)
    requires
        entry_lt(a, b),
    ensures
        !entry_lt(b, a),
{
    if lex_lt(a.key, b.key) {
        lemma_lex_asym(a.key, b.key);
    } else {
        lemma_lex_irrefl(a.key);
    }
}

/// The internal order is transitive.
pub proof fn lemma_entry_trans(a: Entry, b: Entry, c: Entry)
    requires
        entry_lt(a, b),
        entry_lt(b, c),
    ensures
        entry_lt(a, c),
{
    if lex_lt(a.key, b.key) && lex_lt(b.key, c.key) {
        lemma_lex_trans(a.key, b.key, c.key);
    }
}

/// The entry speaks of `key` and is old enough to be seen at
/// snapshot `snapshot`.
pub open spec fn entry_matches(e: Entry, key: Seq<u8>, snapshot: SeqNo) -> bool {
    e.key == key && e.seqno <= snapshot
}

/// No entry of `s` is a visible version of `key` at `snapshot`.
pub open spec fn no_match(s: Seq<Entry>, key: Seq<u8>, snapshot: SeqNo) -> bool {
    forall|i: int| 0 <= i < s.len() ==> !entry_matches(#[trigger] s[i], key, snapshot)
}

/// `e` is a visible version of `key` at `snapshot` in `s`, and no
/// visible version there is newer.
pub open spec fn is_newest_match(s: Seq<Entry>, e: Entry, key: Seq<u8>, snapshot: SeqNo) -> bool {
    &&& s.contains(e)
    &&& entry_matches(e, key, snapshot)
    &&& forall|i: int|
        0 <= i < s.len() && entry_matches(#[trigger] s[i], key, snapshot) ==> s[i].seqno <= e.seqno
}

/// What a point read of `key` at `snapshot` over the entry
/// collection `s` may return: either a newest visible version, or
/// nothing when no version is visible.
pub open spec fn best_for(s: Seq<Entry>, key: Seq<u8>, snapshot: SeqNo, r: Option<Entry>) -> bool {
    match r {
        None => no_match(s, key, snapshot),
        Some(e) => is_newest_match(s, e, key, snapshot),
    }
}

/// Sum of key and value lengths over the entries: the size estimate
/// a memtable maintains.
pub open spec fn entries_size(s: Seq<Entry>) -> nat
    decreases s.len(),
{
    if s.len() == 0 {
        0
    } else {
        entries_size(s.drop_last()) + s.last().key.len() + s.last().value.len()
    }
}

} // verus!
