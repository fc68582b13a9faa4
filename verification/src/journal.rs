//! The write-ahead journal: batch framing over markers, and
//! recovery that reads every well-formed batch back and truncates
//! the tail at the first broken frame.
use crate::crc::{crc32_of, crc32_range};
use crate::endian::{append_bytes, be_u64, be_u64_val, copy_range, get_u64_be, put_u64_be};
use crate::error::DeserializeError;
use crate::marker::{marker_bytes, marker_view_wf, parse_marker, Marker, MarkerView};
use crate::value::{copy_bytes, SeqNo};
use vstd::prelude::*;

verus! {

/// One write inside a batch: which partition it belongs to, the
/// user key and value, and whether it is a deletion.
pub struct BatchItem {
    pub partition: u64,
    pub key: Vec<u8>,
    pub value: Vec<u8>,
    pub is_tombstone: bool,
}

/// The mathematical shadow of a `BatchItem`.
pub struct ItemView {
    pub partition: u64,
    pub key: Seq<u8>,
    pub value: Seq<u8>,
    pub is_tombstone: bool,
}

impl View for BatchItem {
    type V = ItemView;

    open spec fn view(&self) -> ItemView {
        ItemView {
            partition: self.partition,
            key: self.key@,
            value: self.value@,
            is_tombstone: self.is_tombstone,
        }
    }
}

/// The item views of a vector of batch items.
pub open spec fn views_of_items(s: Seq<BatchItem>) -> Seq<ItemView> {
    s.map_values(|b: BatchItem| b@)
}

/// The item frame stores the partition as an eight-byte prefix of
/// the key field, so the composite must fit the 16-bit length.
pub open spec fn item_wf(it: ItemView) -> bool {
    &&& it.key.len() + 8 <= 0xFFFF
    &&& it.value.len() <= 0xFFFF
}

/// The marker an item is framed as: partition prefixed to the key.
pub open spec fn item_marker(it: ItemView) -> MarkerView {
    MarkerView::Item {
        key: be_u64(it.partition) + it.key,
        value: it.value,
        is_tombstone: it.is_tombstone,
    }
}

/// The item a well-formed item marker stands for.
pub open spec fn item_of_marker(key: Seq<u8>, value: Seq<u8>, is_tombstone: bool) -> ItemView
    recommends
        key.len() >= 8,
{
    ItemView {
        partition: be_u64_val(key.subrange(0, 8)),
        key: key.subrange(8, key.len() as int),
        value,
        is_tombstone,
    }
}

proof fn lemma_item_marker_roundtrip(it: ItemView)
    requires
        item_wf(it),
    ensures
        item_marker(it) matches MarkerView::Item { key, value, is_tombstone } && key.len() >= 8
            && item_of_marker(key, value, is_tombstone) == it,
{
    let ck = be_u64(it.partition) + it.key;
    assert(ck.subrange(0, 8) =~= be_u64(it.partition));
    crate::endian::lemma_be_u64_roundtrip(it.partition);
    assert(ck.subrange(8, ck.len() as int) =~= it.key);
}

/// The encoding of a run of items, one item marker each.
pub open spec fn items_bytes(items: Seq<ItemView>) -> Seq<u8>
    decreases items.len(),
{
    if items.len() == 0 {
        Seq::empty()
    } else {
        marker_bytes(item_marker(items[0])) + items_bytes(items.subrange(1, items.len() as int))
    }
}

proof fn lemma_items_bytes_push(items: Seq<ItemView>, x: ItemView)
    ensures
        items_bytes(items.push(x)) == items_bytes(items) + marker_bytes(item_marker(x)),
    decreases items.len(),
{
    let p = items.push(x);
    let ptail = p.subrange(1, p.len() as int);
    assert(items_bytes(p) == marker_bytes(item_marker(p[0])) + items_bytes(ptail));
    if items.len() == 0 {
        assert(ptail =~= Seq::<ItemView>::empty());
        assert(items_bytes(ptail) == Seq::<u8>::empty());
        assert(items_bytes(items) == Seq::<u8>::empty());
        assert(p[0] == x);
        assert(marker_bytes(item_marker(x)) + Seq::<u8>::empty() =~= marker_bytes(item_marker(x)));
        assert(Seq::<u8>::empty() + marker_bytes(item_marker(x)) =~= marker_bytes(item_marker(x)));
    } else {
        let itail = items.subrange(1, items.len() as int);
        assert(p[0] == items[0]);
        assert(ptail =~= itail.push(x));
        lemma_items_bytes_push(itail, x);
        assert(items_bytes(items) == marker_bytes(item_marker(items[0])) + items_bytes(itail));
        assert(marker_bytes(item_marker(items[0])) + (items_bytes(itail) + marker_bytes(
            item_marker(x),
        )) =~= (marker_bytes(item_marker(items[0])) + items_bytes(itail)) + marker_bytes(
            item_marker(x),
        ));
    }
}

/// One committed batch as recovery reads it back.
pub struct RecoveredBatch {
    pub seqno: SeqNo,
    pub items: Vec<BatchItem>,
}

/// The mathematical shadow of a batch.
pub struct BatchView {
    pub seqno: SeqNo,
    pub items: Seq<ItemView>,
}

impl View for RecoveredBatch {
    type V = BatchView;

    open spec fn view(&self) -> BatchView {
        BatchView { seqno: self.seqno, items: views_of_items(self.items@) }
    }
}

/// The batch views of a vector of recovered batches.
pub open spec fn views_of_batches(s: Seq<RecoveredBatch>) -> Seq<BatchView> {
    s.map_values(|b: RecoveredBatch| b@)
}

/// A batch the journal can frame: item count fits the 32-bit field
/// and every item fits its frame.
pub open spec fn batch_view_wf(b: BatchView) -> bool {
    &&& b.items.len() <= 0xFFFF_FFFF
    &&& forall|i: int| 0 <= i < b.items.len() ==> item_wf(#[trigger] b.items[i])
}

/// The full frame of one batch: start, items, end with checksum
/// over the item encodings.
pub open spec fn batch_bytes(b: BatchView) -> Seq<u8> {
    marker_bytes(MarkerView::Start { item_count: b.items.len() as u32, seqno: b.seqno })
        + items_bytes(b.items) + marker_bytes(MarkerView::End(crc32_of(items_bytes(b.items))))
}

/// The journal bytes after committing these batches in order onto
/// an empty journal.
pub open spec fn journal_bytes(bs: Seq<BatchView>) -> Seq<u8>
    decreases bs.len(),
{
    if bs.len() == 0 {
        Seq::empty()
    } else {
        batch_bytes(bs[0]) + journal_bytes(bs.subrange(1, bs.len() as int))
    }
}

/// Reading `n` item frames off the front of `bytes`: the items and
/// bytes consumed, or nothing when a frame is broken (wrong marker
/// kind, a short key, or the input ends).
pub open spec fn parse_items(bytes: Seq<u8>, n: nat) -> Option<(Seq<ItemView>, int)>
    decreases n,
{
    if n == 0 {
        Some((Seq::empty(), 0))
    } else {
        match parse_marker(bytes) {
            Ok((MarkerView::Item { key, value, is_tombstone }, used)) => {
                if key.len() < 8 {
                    None
                } else {
                    match parse_items(bytes.subrange(used, bytes.len() as int), (n - 1) as nat) {
                        Some((rest, used2)) => Some(
                            (seq![item_of_marker(key, value, is_tombstone)] + rest, used + used2),
                        ),
                        None => None,
                    }
                }
            },
            _ => None,
        }
    }
}

/// Reading one whole batch frame off the front of `bytes`. `None`
/// means the frame is broken: no start marker, a wrong item count,
/// a start marker before the end, a checksum mismatch, or a
/// truncated frame.
pub open spec fn parse_batch(bytes: Seq<u8>) -> Option<(BatchView, int)> {
    match parse_marker(bytes) {
        Ok((MarkerView::Start { item_count, seqno }, used)) => {
            match parse_items(bytes.subrange(used, bytes.len() as int), item_count as nat) {
                Some((items, used2)) => {
                    match parse_marker(bytes.subrange(used + used2, bytes.len() as int)) {
                        Ok((MarkerView::End(crc), used3)) => {
                            if crc == crc32_of(bytes.subrange(used, used + used2)) {
                                Some((BatchView { seqno, items }, used + used2 + used3))
                            } else {
                                None
                            }
                        },
                        _ => None,
                    }
                },
                None => None,
            }
        },
        _ => None,
    }
}

/// What recovery yields from a journal: every leading well-formed
/// batch, in file order; the first broken frame and everything
/// after it is discarded.
pub open spec fn spec_recover(bytes: Seq<u8>) -> Seq<BatchView>
    decreases bytes.len(),
{
    if bytes.len() == 0 {
        Seq::empty()
    } else {
        match parse_batch(bytes) {
            Some((b, used)) => {
                if 0 < used <= bytes.len() {
                    seq![b] + spec_recover(bytes.subrange(used, bytes.len() as int))
                } else {
                    Seq::empty()
                }
            },
            None => Seq::empty(),
        }
    }
}

#[verifier::rlimit(100)]
#[verifier::spinoff_prover]
proof fn lemma_parse_items_of_encoding(items: Seq<ItemView>, rest: Seq<u8>)
    requires
        forall|i: int| 0 <= i < items.len() ==> item_wf(#[trigger] items[i]),
    ensures
        parse_items(items_bytes(items) + rest, items.len() as nat) == Some(
            (items, items_bytes(items).len() as int),
        ),
    decreases items.len(),
{
    if items.len() == 0 {
        assert(items_bytes(items) =~= Seq::<u8>::empty());
        assert(parse_items(items_bytes(items) + rest, 0) == Some(
            (Seq::<ItemView>::empty(), 0int),
        ));
        assert(items =~= Seq::<ItemView>::empty());
    } else {
        let it = items[0];
        let tail = items.subrange(1, items.len() as int);
        let m0 = marker_bytes(item_marker(it));
        let b = items_bytes(items) + rest;
        assert(items_bytes(items) == m0 + items_bytes(tail));
        assert(b =~= m0 + (items_bytes(tail) + rest));
        crate::marker::lemma_parse_of_encoding(item_marker(it), items_bytes(tail) + rest);
        lemma_item_marker_roundtrip(it);
        assert(item_wf(it));
        let used = m0.len() as int;
        assert(b.subrange(used, b.len() as int) =~= items_bytes(tail) + rest);
        assert forall|i: int| 0 <= i < tail.len() implies item_wf(#[trigger] tail[i]) by {
            assert(tail[i] == items[i + 1]);
        }
        lemma_parse_items_of_encoding(tail, rest);
        assert(seq![it] + tail =~= items);
    }
}

#[verifier::rlimit(100)]
#[verifier::spinoff_prover]
proof fn lemma_parse_batch_of_encoding(b: BatchView, rest: Seq<u8>)
    requires
        batch_view_wf(b),
    ensures
        parse_batch(batch_bytes(b) + rest) == Some((b, batch_bytes(b).len() as int)),
        batch_bytes(b).len() > 0,
{
    let sm = marker_bytes(
        MarkerView::Start { item_count: b.items.len() as u32, seqno: b.seqno },
    );
    let ib = items_bytes(b.items);
    let em = marker_bytes(MarkerView::End(crc32_of(ib)));
    let w = batch_bytes(b) + rest;
    assert(w =~= sm + (ib + (em + rest)));
    crate::marker::lemma_parse_of_encoding(
        MarkerView::Start { item_count: b.items.len() as u32, seqno: b.seqno },
        ib + (em + rest),
    );
    let used = sm.len() as int;
    assert(w.subrange(used, w.len() as int) =~= ib + (em + rest));
    lemma_parse_items_of_encoding(b.items, em + rest);
    assert(b.items.len() as u32 as nat == b.items.len());
    let used2 = ib.len() as int;
    assert(w.subrange(used + used2, w.len() as int) =~= em + rest);
    crate::marker::lemma_parse_of_encoding(MarkerView::End(crc32_of(ib)), rest);
    assert(w.subrange(used, used + used2) =~= ib);
}

/// Journal recoverability: recovering the bytes of a committed
/// batch sequence yields exactly those batches, in order.
pub proof fn lemma_recover_of_journal(bs: Seq<BatchView>)
    requires
        forall|i: int| 0 <= i < bs.len() ==> batch_view_wf(#[trigger] bs[i]),
    ensures
        spec_recover(journal_bytes(bs)) == bs,
    decreases bs.len(),
{
    if bs.len() == 0 {
        assert(spec_recover(journal_bytes(bs)) =~= bs);
    } else {
        let b0 = bs[0];
        let tail = bs.subrange(1, bs.len() as int);
        let w = journal_bytes(bs);
        assert(w == batch_bytes(b0) + journal_bytes(tail));
        lemma_parse_batch_of_encoding(b0, journal_bytes(tail));
        let used = batch_bytes(b0).len() as int;
        assert(w.len() >= used);
        assert(w.subrange(used, w.len() as int) =~= journal_bytes(tail));
        lemma_recover_of_journal(tail);
        assert(spec_recover(w) == seq![b0] + tail);
        assert(seq![b0] + tail =~= bs);
    }
}

/// Appends one batch frame to the journal. This is the only way
/// bytes enter the journal, so a journal is always a batch sequence
/// followed by at most one torn tail.
pub fn append_batch(journal: &mut Vec<u8>, seqno: SeqNo, items: &Vec<BatchItem>)
    requires
        items@.len() <= 0xFFFF_FFFF,
        forall|i: int| 0 <= i < items@.len() ==> item_wf(#[trigger] views_of_items(items@)[i]),
    ensures
        final(journal)@ == old(journal)@ + batch_bytes(
            BatchView { seqno, items: views_of_items(items@) },
        ),
{
    let ghost iv = views_of_items(items@);
    let count = items.len() as u32;
    let start = Marker::Start { item_count: count, seqno };
    let _ = start.serialize(journal);
    let istart = journal.len();
    let ghost base = journal@;
    let mut i: usize = 0;
    while i < items.len()
        invariant
            i <= items@.len(),
            iv == views_of_items(items@),
            forall|k: int| 0 <= k < items@.len() ==> item_wf(#[trigger] iv[k]),
            journal@ == base + items_bytes(iv.take(i as int)),
            istart as int == base.len(),
        decreases items@.len() - i,
    {
        let mut ck: Vec<u8> = Vec::new();
        put_u64_be(&mut ck, items[i].partition);
        append_bytes(&mut ck, &items[i].key);
        let val = copy_bytes(&items[i].value);
        let m = Marker::Item { key: ck, value: val, is_tombstone: items[i].is_tombstone };
        proof {
            assert(iv[i as int] == items@[i as int]@);
            assert(item_wf(iv[i as int]));
            assert(m@ == item_marker(iv[i as int]));
        }
        let _ = m.serialize(journal);
        proof {
            assert(iv.take(i + 1) =~= iv.take(i as int).push(iv[i as int]));
            lemma_items_bytes_push(iv.take(i as int), iv[i as int]);
            assert(journal@ =~= base + items_bytes(iv.take(i + 1)));
        }
        i += 1;
    }
    proof {
        assert(iv.take(items@.len() as int) =~= iv);
    }
    let iend = journal.len();
    let crc = crc32_range(journal, istart, iend);
    proof {
        assert(journal@.subrange(istart as int, iend as int) =~= items_bytes(iv));
    }
    let end = Marker::End(crc);
    let _ = end.serialize(journal);
    proof {
        assert(journal@ =~= old(journal)@ + batch_bytes(BatchView { seqno, items: iv }));
    }
}

fn parse_items_exec(bytes: &Vec<u8>, pos: usize, n: u32) -> (r: Option<(Vec<BatchItem>, usize)>)
    requires
        pos <= bytes@.len(),
    ensures
        ({
            let p = parse_items(bytes@.subrange(pos as int, bytes@.len() as int), n as nat);
            match r {
                Some((items, newpos)) => p matches Some(pi) && views_of_items(items@) == pi.0
                    && newpos == pos + pi.1 && pos <= newpos <= bytes@.len(),
                None => p is None,
            }
        }),
    decreases n,
{
    let ghost sk = bytes@.subrange(pos as int, bytes@.len() as int);
    if n == 0 {
        let out: Vec<BatchItem> = Vec::new();
        assert(views_of_items(out@) =~= Seq::<ItemView>::empty());
        return Some((out, pos));
    }
    match Marker::deserialize(bytes, pos) {
        Ok((Marker::Item { key, value, is_tombstone }, p1)) => {
            if key.len() < 8 {
                return None;
            }
            let partition = get_u64_be(&key, 0);
            proof {
                assert(key@.subrange(0, 8) =~= key@.subrange(0int, 0int + 8));
            }
            let ukey = copy_range(&key, 8, key.len());
            let item = BatchItem { partition, key: ukey, value, is_tombstone };
            proof {
                assert(item@ == item_of_marker(key@, value@, is_tombstone));
            }
            let ghost used = p1 - pos;
            proof {
                assert(bytes@.subrange(p1 as int, bytes@.len() as int) =~= sk.subrange(
                    used as int,
                    sk.len() as int,
                ));
            }
            match parse_items_exec(bytes, p1, n - 1) {
                Some((rest, p2)) => {
                    let mut out: Vec<BatchItem> = Vec::new();
                    out.push(item);
                    let mut rest = rest;
                    out.append(&mut rest);
                    proof {
                        let p = parse_items(sk, n as nat);
                        assert(p matches Some(pi) && views_of_items(out@) =~= pi.0 && p2 == pos
                            + pi.1);
                    }
                    Some((out, p2))
                },
                None => None,
            }
        },
        Ok((_, _)) => None,
        Err(_) => None,
    }
}

fn parse_batch_exec(bytes: &Vec<u8>, pos: usize) -> (r: Option<(RecoveredBatch, usize)>)
    requires
        pos <= bytes@.len(),
    ensures
        ({
            let p = parse_batch(bytes@.subrange(pos as int, bytes@.len() as int));
            match r {
                Some((b, newpos)) => p matches Some(pb) && b@ == pb.0 && newpos == pos + pb.1 && pos
                    < newpos <= bytes@.len(),
                None => p is None,
            }
        }),
{
    let ghost sk = bytes@.subrange(pos as int, bytes@.len() as int);
    match Marker::deserialize(bytes, pos) {
        Ok((Marker::Start { item_count, seqno }, p1)) => {
            let ghost used = p1 - pos;
            proof {
                assert(bytes@.subrange(p1 as int, bytes@.len() as int) =~= sk.subrange(
                    used as int,
                    sk.len() as int,
                ));
            }
            match parse_items_exec(bytes, p1, item_count) {
                Some((items, p2)) => {
                    let ghost used2 = p2 - p1;
                    proof {
                        assert(bytes@.subrange(p2 as int, bytes@.len() as int) =~= sk.subrange(
                            used + used2,
                            sk.len() as int,
                        ));
                    }
                    match Marker::deserialize(bytes, p2) {
                        Ok((Marker::End(crc), p3)) => {
                            let computed = crc32_range(bytes, p1, p2);
                            proof {
                                assert(bytes@.subrange(p1 as int, p2 as int) =~= sk.subrange(
                                    used,
                                    used + used2,
                                ));
                            }
                            if crc == computed {
                                Some((RecoveredBatch { seqno, items }, p3))
                            } else {
                                None
                            }
                        },
                        Ok((_, _)) => None,
                        Err(_) => None,
                    }
                },
                None => None,
            }
        },
        Ok((_, _)) => None,
        Err(_) => None,
    }
}

fn recover_from(bytes: &Vec<u8>, pos: usize) -> (r: Vec<RecoveredBatch>)
    requires
        pos <= bytes@.len(),
    ensures
        views_of_batches(r@) == spec_recover(bytes@.subrange(pos as int, bytes@.len() as int)),
    decreases bytes@.len() - pos,
{
    let ghost sk = bytes@.subrange(pos as int, bytes@.len() as int);
    if pos == bytes.len() {
        let out: Vec<RecoveredBatch> = Vec::new();
        assert(views_of_batches(out@) =~= spec_recover(sk));
        return out;
    }
    match parse_batch_exec(bytes, pos) {
        Some((b, newpos)) => {
            let ghost used = newpos - pos;
            proof {
                assert(bytes@.subrange(newpos as int, bytes@.len() as int) =~= sk.subrange(
                    used as int,
                    sk.len() as int,
                ));
            }
            let mut rest = recover_from(bytes, newpos);
            let mut out: Vec<RecoveredBatch> = Vec::new();
            out.push(b);
            out.append(&mut rest);
            proof {
                assert(views_of_batches(out@) =~= spec_recover(sk));
            }
            out
        },
        None => {
            let out: Vec<RecoveredBatch> = Vec::new();
            assert(views_of_batches(out@) =~= spec_recover(sk));
            out
        },
    }
}

/// Reads every leading well-formed batch back from a journal, in
/// file order, discarding the first broken frame and all that
/// follows it.
pub fn recover(bytes: &Vec<u8>) -> (r: Vec<RecoveredBatch>)
    ensures
        views_of_batches(r@) == spec_recover(bytes@),
{
    let r = recover_from(bytes, 0);
    proof {
        assert(bytes@.subrange(0, bytes@.len() as int) =~= bytes@);
    }
    r
}

} // verus!
