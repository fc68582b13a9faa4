//! Journal markers. Every committed batch is framed as one `Start`
//! marker, then one `Item` marker per write, then one `End` marker
//! carrying a checksum over the item encodings.
//!
//! Disk shape, all integers big-endian:
//!
//! start: [tag 0x00; 1 byte] [item count; 4 bytes] [seqno; 8 bytes]
//!
//! item: [tag 0x01; 1 byte] [tombstone; 1 byte] [key length; 2 bytes]
//! [key] [value length; 2 bytes] [value]
//!
//! end: [tag 0x02; 1 byte] [crc; 4 bytes]
use crate::endian::{
    append_bytes, be_u16, be_u16_val, be_u32, be_u32_val, be_u64, be_u64_val, copy_range,
    get_u16_be, get_u32_be, get_u64_be, lemma_be_u16_roundtrip, lemma_be_u32_roundtrip,
    lemma_be_u64_roundtrip, put_u16_be, put_u32_be, put_u64_be,
};
use crate::error::{DeserializeError, ReadFailure, SerializeError};
use crate::value::SeqNo;
use vstd::prelude::*;

verus! {

/// The three frame marker kinds.
pub enum Tag {
    Start,
    Item,
    End,
}

impl Tag {
    /// The tag byte written for this marker kind.
    pub fn to_u8(self) -> (r: u8)
        ensures
            self is Start ==> r == 0,
            self is Item ==> r == 1,
            self is End ==> r == 2,
    {
        match self {
            Tag::Start => 0,
            Tag::Item => 1,
            Tag::End => 2,
        }
    }

    /// The marker kind a tag byte names; any other byte is an
    /// invalid tag.
    pub fn try_from_u8(value: u8) -> (r: Result<Tag, DeserializeError>)
        ensures
            value == 0 ==> (r matches Ok(t) && t is Start),
            value == 1 ==> (r matches Ok(t) && t is Item),
            value == 2 ==> (r matches Ok(t) && t is End),
            value > 2 ==> r == Err::<Tag, DeserializeError>(DeserializeError::InvalidTag(value)),
    {
        match value {
            0 => Ok(Tag::Start),
            1 => Ok(Tag::Item),
            2 => Ok(Tag::End),
            _ => Err(DeserializeError::InvalidTag(value)),
        }
    }
}

/// One journal marker.
#[derive(Debug, PartialEq, Eq)]
pub enum Marker {
    /// Opens a batch: how many items follow and the batch's base
    /// stamp.
    Start { item_count: u32, seqno: SeqNo },
    /// One write of the batch.
    Item { key: Vec<u8>, value: Vec<u8>, is_tombstone: bool },
    /// Closes a batch with a checksum over the item encodings.
    End(u32),
}

/// The mathematical shadow of a `Marker`.
pub enum MarkerView {
    Start { item_count: u32, seqno: SeqNo },
    Item { key: Seq<u8>, value: Seq<u8>, is_tombstone: bool },
    End(u32),
}

impl View for Marker {
    type V = MarkerView;

    open spec fn view(&self) -> MarkerView {
        match self {
            Marker::Start { item_count, seqno } => MarkerView::Start {
                item_count: *item_count,
                seqno: *seqno,
            },
            Marker::Item { key, value, is_tombstone } => MarkerView::Item {
                key: key@,
                value: value@,
                is_tombstone: *is_tombstone,
            },
            Marker::End(crc) => MarkerView::End(*crc),
        }
    }
}

/// The length fields of an item marker are 16-bit, so only keys and
/// values up to 65535 bytes can be framed.
pub open spec fn marker_view_wf(m: MarkerView) -> bool {
    match m {
        MarkerView::Item { key, value, .. } => key.len() <= 0xFFFF && value.len() <= 0xFFFF,
        _ => true,
    }
}

/// The byte encoding of a marker.
pub open spec fn marker_bytes(m: MarkerView) -> Seq<u8> {
    match m {
        MarkerView::Start { item_count, seqno } => seq![0u8] + be_u32(item_count) + be_u64(seqno),
        MarkerView::Item { key, value, is_tombstone } => seq![1u8] + seq![
            if is_tombstone {
                1u8
            } else {
                0u8
            },
        ] + be_u16(key.len() as u16) + key + be_u16(value.len() as u16) + value,
        MarkerView::End(crc) => seq![2u8] + be_u32(crc),
    }
}

/// Reading one marker off the front of `bytes`: the marker and how
/// many bytes it took, or why none can be read. This is the exact
/// meaning of `Marker::deserialize`.
pub open spec fn parse_marker(bytes: Seq<u8>) -> Result<(MarkerView, int), DeserializeError> {
    if bytes.len() < 1 {
        Err(DeserializeError::Io(ReadFailure::UnexpectedEof))
    } else {
        let tag = bytes[0];
        if tag == 0 {
            if bytes.len() < 13 {
                Err(DeserializeError::Io(ReadFailure::UnexpectedEof))
            } else {
                Ok(
                    (
                        MarkerView::Start {
                            item_count: be_u32_val(bytes.subrange(1, 5)),
                            seqno: be_u64_val(bytes.subrange(5, 13)),
                        },
                        13,
                    ),
                )
            }
        } else if tag == 1 {
            if bytes.len() < 4 {
                Err(DeserializeError::Io(ReadFailure::UnexpectedEof))
            } else {
                let klen = be_u16_val(bytes.subrange(2, 4)) as int;
                if bytes.len() < 6 + klen {
                    Err(DeserializeError::Io(ReadFailure::UnexpectedEof))
                } else {
                    let vlen = be_u16_val(bytes.subrange(4 + klen, 6 + klen)) as int;
                    if bytes.len() < 6 + klen + vlen {
                        Err(DeserializeError::Io(ReadFailure::UnexpectedEof))
                    } else {
                        Ok(
                            (
                                MarkerView::Item {
                                    key: bytes.subrange(4, 4 + klen),
                                    value: bytes.subrange(6 + klen, 6 + klen + vlen),
                                    is_tombstone: bytes[1] > 0,
                                },
                                6 + klen + vlen,
                            ),
                        )
                    }
                }
            }
        } else if tag == 2 {
            if bytes.len() < 5 {
                Err(DeserializeError::Io(ReadFailure::UnexpectedEof))
            } else {
                Ok((MarkerView::End(be_u32_val(bytes.subrange(1, 5))), 5))
            }
        } else {
            Err(DeserializeError::InvalidTag(tag))
        }
    }
}

/// Decoding reads back exactly what encoding wrote, whatever
/// follows it in the stream.
pub proof fn lemma_parse_of_encoding(m: MarkerView, rest: Seq<u8>)
    requires
        marker_view_wf(m),
    ensures
        parse_marker(marker_bytes(m) + rest) == Ok::<(MarkerView, int), DeserializeError>(
            (m, marker_bytes(m).len() as int),
        ),
{
    let b = marker_bytes(m) + rest;
    match m {
        MarkerView::Start { item_count, seqno } => {
            assert(b[0] == 0);
            assert(b.len() >= 13);
            assert(b.subrange(1, 5) =~= be_u32(item_count));
            assert(b.subrange(5, 13) =~= be_u64(seqno));
            lemma_be_u32_roundtrip(item_count);
            lemma_be_u64_roundtrip(seqno);
        },
        MarkerView::Item { key, value, is_tombstone } => {
            let klen = key.len() as int;
            let vlen = value.len() as int;
            assert(b[0] == 1);
            assert(b.len() == 6 + klen + vlen + rest.len());
            assert(b.subrange(2, 4) =~= be_u16(key.len() as u16));
            lemma_be_u16_roundtrip(key.len() as u16);
            assert(be_u16_val(b.subrange(2, 4)) as int == klen);
            assert(b.subrange(4, 4 + klen) =~= key);
            assert(b.subrange(4 + klen, 6 + klen) =~= be_u16(value.len() as u16));
            lemma_be_u16_roundtrip(value.len() as u16);
            assert(be_u16_val(b.subrange(4 + klen, 6 + klen)) as int == vlen);
            assert(b.subrange(6 + klen, 6 + klen + vlen) =~= value);
            assert(b[1] == if is_tombstone {
                1u8
            } else {
                0u8
            });
        },
        MarkerView::End(crc) => {
            assert(b[0] == 2);
            assert(b.len() >= 5);
            assert(b.subrange(1, 5) =~= be_u32(crc));
            lemma_be_u32_roundtrip(crc);
        },
    }
}

/// Decoding an encoded marker yields the marker back: the codec
/// round-trip, for every marker kind the frame can carry.
pub proof fn lemma_marker_roundtrip(m: MarkerView)
    requires
        marker_view_wf(m),
    ensures
        parse_marker(marker_bytes(m)) == Ok::<(MarkerView, int), DeserializeError>(
            (m, marker_bytes(m).len() as int),
        ),
{
    lemma_parse_of_encoding(m, Seq::<u8>::empty());
    assert(marker_bytes(m) + Seq::<u8>::empty() =~= marker_bytes(m));
}

impl Marker {
    /// Appends this marker's encoding to `out`. Never fails on an
    /// in-memory sink; the `Result` mirrors sinks that can.
    pub fn serialize(&self, out: &mut Vec<u8>) -> (r: Result<(), SerializeError>)
        requires
            marker_view_wf(self@),
        ensures
            r is Ok,
            final(out)@ == old(out)@ + marker_bytes(self@),
    {
        match self {
            Marker::Start { item_count, seqno } => {
                out.push(Tag::Start.to_u8());
                put_u32_be(out, *item_count);
                put_u64_be(out, *seqno);
                assert(out@ =~= old(out)@ + marker_bytes(self@));
            },
            Marker::Item { key, value, is_tombstone } => {
                out.push(Tag::Item.to_u8());
                out.push(if *is_tombstone {
                    1
                } else {
                    0
                });
                put_u16_be(out, key.len() as u16);
                append_bytes(out, key);
                put_u16_be(out, value.len() as u16);
                append_bytes(out, value);
                assert(out@ =~= old(out)@ + marker_bytes(self@));
            },
            Marker::End(crc) => {
                out.push(Tag::End.to_u8());
                put_u32_be(out, *crc);
                assert(out@ =~= old(out)@ + marker_bytes(self@));
            },
        }
        Ok(())
    }

    /// Reads one marker from `bytes` at `pos`; on success also the
    /// position just past it. Returns `InvalidTag` on an unknown tag
    /// byte and `Io(UnexpectedEof)` when the input ends inside the
    /// marker, exactly as the spec-level parse says.
    pub fn deserialize(bytes: &Vec<u8>, pos: usize) -> (r: Result<(Marker, usize), DeserializeError>)
        requires
            pos <= bytes@.len(),
        ensures
            ({
                let p = parse_marker(bytes@.subrange(pos as int, bytes@.len() as int));
                match r {
                    Ok((m, newpos)) => p matches Ok(pm) && pm.0 == m@ && newpos == pos + pm.1
                        && newpos <= bytes@.len() && marker_view_wf(m@),
                    Err(e) => p == Err::<(MarkerView, int), DeserializeError>(e),
                }
            }),
    {
        let ghost sk = bytes@.subrange(pos as int, bytes@.len() as int);
        let n = bytes.len();
        if n - pos < 1 {
            return Err(DeserializeError::Io(ReadFailure::UnexpectedEof));
        }
        assert(sk[0] == bytes@[pos as int]);
        let tag = Tag::try_from_u8(bytes[pos]);
        match tag {
            Err(e) => Err(e),
            Ok(Tag::Start) => {
                if n - pos < 13 {
                    return Err(DeserializeError::Io(ReadFailure::UnexpectedEof));
                }
                let item_count = get_u32_be(bytes, pos + 1);
                let seqno = get_u64_be(bytes, pos + 5);
                proof {
                    assert(bytes@.subrange(pos + 1, pos + 5) =~= sk.subrange(1, 5));
                    assert(bytes@.subrange(pos + 5, pos + 13) =~= sk.subrange(5, 13));
                }
                Ok((Marker::Start { item_count, seqno }, pos + 13))
            },
            Ok(Tag::Item) => {
                if n - pos < 4 {
                    return Err(DeserializeError::Io(ReadFailure::UnexpectedEof));
                }
                let is_tombstone = bytes[pos + 1] > 0;
                assert(sk[1] == bytes@[pos + 1]);
                let klen = get_u16_be(bytes, pos + 2) as usize;
                proof {
                    assert(bytes@.subrange(pos + 2, pos + 4) =~= sk.subrange(2, 4));
                }
                if n - (pos + 4) < klen {
                    return Err(DeserializeError::Io(ReadFailure::UnexpectedEof));
                }
                let key = copy_range(bytes, pos + 4, pos + 4 + klen);
                proof {
                    assert(bytes@.subrange(pos + 4, pos + 4 + klen) =~= sk.subrange(
                        4,
                        4 + klen as int,
                    ));
                }
                if n - (pos + 4 + klen) < 2 {
                    return Err(DeserializeError::Io(ReadFailure::UnexpectedEof));
                }
                let vlen = get_u16_be(bytes, pos + 4 + klen) as usize;
                proof {
                    assert(bytes@.subrange(pos + 4 + klen, pos + 6 + klen) =~= sk.subrange(
                        4 + klen as int,
                        6 + klen as int,
                    ));
                }
                if n - (pos + 6 + klen) < vlen {
                    return Err(DeserializeError::Io(ReadFailure::UnexpectedEof));
                }
                let value = copy_range(bytes, pos + 6 + klen, pos + 6 + klen + vlen);
                proof {
                    assert(bytes@.subrange(pos + 6 + klen, pos + 6 + klen + vlen) =~= sk.subrange(
                        6 + klen as int,
                        6 + klen as int + vlen as int,
                    ));
                }
                Ok((Marker::Item { key, value, is_tombstone }, pos + 6 + klen + vlen))
            },
            Ok(Tag::End) => {
                if n - pos < 5 {
                    return Err(DeserializeError::Io(ReadFailure::UnexpectedEof));
                }
                let crc = get_u32_be(bytes, pos + 1);
                proof {
                    assert(bytes@.subrange(pos + 1, pos + 5) =~= sk.subrange(1, 5));
                }
                Ok((Marker::End(crc), pos + 5))
            },
        }
    }
}

} // verus!
