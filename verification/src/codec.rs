//! The binary persistence format of the history store, little-endian:
//! a five-byte header (magic `CHST`, version 1), then one fixed-layout
//! record per entry (timestamp, flag byte, content length, content bytes).
//! A malformed header loads as an empty history; a record cut short is an
//! error, since it marks corruption distinct from absence.

use vstd::prelude::*;
use vstd::bytes::{
    lemma_auto_spec_u32_to_from_le_bytes,
    lemma_auto_spec_u64_to_from_le_bytes,
    spec_u32_from_le_bytes,
    spec_u32_to_le_bytes,
    spec_u64_from_le_bytes,
    spec_u64_to_le_bytes,
    u32_from_le_bytes,
    u32_to_le_bytes,
    u64_from_le_bytes,
    u64_to_le_bytes,
};
use vstd::slice::{slice_index_get, slice_subrange};
use vstd::string::{StrSliceExecFns, StringExecFns};
use vstd::utf8::{
    decode_utf8,
    encode_utf8,
    encode_utf8_decode_utf8,
    encode_utf8_valid_utf8,
    valid_utf8,
};
use crate::history::{clip, reveal_history_model, Entry, EntrySnap, History};

verus! {

/// Magic bytes `CHST` followed by the version byte.
pub open spec fn spec_header() -> Seq<u8> {
    seq![0x43u8, 0x48u8, 0x53u8, 0x54u8, 0x01u8]
}

/// The entry's content fits the record's 32-bit length field.
pub open spec fn encodable(e: EntrySnap) -> bool {
    encode_utf8(e.content).len() <= u32::MAX
}

/// One fixed-layout record.
pub open spec fn spec_encode_record(e: EntrySnap) -> Seq<u8> {
    spec_u64_to_le_bytes(e.timestamp as u64) + seq![
        if e.is_password {
            1u8
        } else {
            0u8
        },
    ] + spec_u32_to_le_bytes(encode_utf8(e.content).len() as u32) + encode_utf8(e.content)
}

/// The records of all entries, in order.
pub open spec fn spec_encode_records(entries: Seq<EntrySnap>) -> Seq<u8>
    decreases entries.len(),
{
    if entries.len() == 0 {
        Seq::<u8>::empty()
    } else {
        spec_encode_record(entries[0]) + spec_encode_records(entries.drop_first())
    }
}

/// The whole on-disk image: header, then records.
pub open spec fn spec_encode(entries: Seq<EntrySnap>) -> Seq<u8> {
    spec_header() + spec_encode_records(entries)
}

/// What content bytes read back as. Invalid byte sequences are repaired,
/// never rejected.
pub uninterp spec fn lossy_decode_of(bytes: Seq<u8>) -> Seq<char>;

/// Valid UTF-8 decodes exactly; anything else is the repaired text.
pub open spec fn decoded_content(bytes: Seq<u8>) -> Seq<char> {
    if valid_utf8(bytes) {
        decode_utf8(bytes)
    } else {
        lossy_decode_of(bytes)
    }
}

/// Relies on String::from_utf8_lossy: on valid UTF-8 it returns exactly the
/// decoded string, and otherwise a repaired string that depends on the
/// bytes alone.
#[verifier::external_body]
fn lossy_string(bytes: &[u8]) -> (r: String)
    ensures
        r@ == decoded_content(bytes@),
        !valid_utf8(bytes@) ==> r@ == lossy_decode_of(bytes@),
{
    String::from_utf8_lossy(bytes).into_owned()
}

/// Parses the byte stream after the header: `None` means a record was cut
/// short by the end of the stream.
pub open spec fn parse_records(bytes: Seq<u8>) -> Option<Seq<EntrySnap>>
    decreases bytes.len(),
{
    if bytes.len() == 0 {
        Some(Seq::<EntrySnap>::empty())
    } else if bytes.len() < 13 {
        None
    } else {
        let timestamp = spec_u64_from_le_bytes(bytes.subrange(0, 8)) as i64;
        let is_password = bytes[8] != 0;
        let len = spec_u32_from_le_bytes(bytes.subrange(9, 13)) as int;
        if bytes.len() < 13 + len {
            None
        } else {
            let content = decoded_content(bytes.subrange(13, 13 + len));
            match parse_records(bytes.skip(13 + len)) {
                Some(rest) => Some(seq![EntrySnap { timestamp, content, is_password }] + rest),
                None => None,
            }
        }
    }
}

/// What a whole file loads as: absent or malformed headers give the empty
/// history, a truncated record gives `None`.
pub open spec fn spec_load(bytes: Seq<u8>) -> Option<Seq<EntrySnap>> {
    if bytes.len() < 5 {
        Some(Seq::<EntrySnap>::empty())
    } else if bytes.take(5) != spec_header() {
        Some(Seq::<EntrySnap>::empty())
    } else {
        parse_records(bytes.skip(5))
    }
}

/// Failure of loading a persisted history image.
#[derive(Debug, Clone, Copy, PartialEq, Eq)]
pub enum StoreError {
    /// The stream ends in the middle of a record.
    TruncatedRecord,
}

impl StoreError {
    /// A human-readable description of the failure.
    pub fn describe(&self) -> (r: String)
        ensures
            r@ == "history file ends in the middle of a record"@,
    {
        String::from_str("history file ends in the middle of a record")
    }
}

pub proof fn lemma_encode_records_snoc(entries: Seq<EntrySnap>, e: EntrySnap)
    ensures
        spec_encode_records(entries.push(e)) == spec_encode_records(entries)
            + spec_encode_record(e),
    decreases entries.len(),
{
    if entries.len() == 0 {
        assert(entries.push(e)[0] == e);
        assert(entries.push(e).drop_first() =~= Seq::<EntrySnap>::empty());
        assert(spec_encode_records(Seq::<EntrySnap>::empty()) == Seq::<u8>::empty());
        assert(spec_encode_records(entries.push(e)) =~= spec_encode_records(entries)
            + spec_encode_record(e));
    } else {
        assert(entries.push(e)[0] == entries[0]);
        assert(entries.push(e).drop_first() =~= entries.drop_first().push(e));
        lemma_encode_records_snoc(entries.drop_first(), e);
        assert(spec_encode_record(entries[0]) + (spec_encode_records(entries.drop_first())
            + spec_encode_record(e)) =~= (spec_encode_record(entries[0]) + spec_encode_records(
            entries.drop_first(),
        )) + spec_encode_record(e));
    }
}

impl History {
    /// The on-disk image of the current log, or `None` when some entry's
    /// content is too large for the record's length field.
    pub fn save_bytes(&self) -> (r: Option<Vec<u8>>)
        ensures
            (r is Some) <==> (forall|i: int| 0 <= i < self@.len() ==> encodable(#[trigger] self@[i])),
            r matches Some(b) ==> b@ == spec_encode(self@),
    {
        proof {
            reveal_history_model(self);
        }
        let mut out: Vec<u8> = Vec::new();
        out.push(0x43u8);
        out.push(0x48u8);
        out.push(0x53u8);
        out.push(0x54u8);
        out.push(0x01u8);
        proof {
            assert(out@ =~= spec_header());
        }
        let mut idx: usize = 0;
        while idx < self.items.len()
            invariant
                0 <= idx <= self.items.len(),
                self@ == self.items@.map_values(|e: Entry| e@),
                self@.len() == self.items.len(),
                out@ == spec_header() + spec_encode_records(self@.take(idx as int)),
                forall|i: int| 0 <= i < idx ==> encodable(#[trigger] self@[i]),
            decreases self.items.len() - idx,
        {
            let e = &self.items[idx];
            proof {
                assert(self@[idx as int] == self.items@[idx as int]@);
            }
            let mut ts_bytes = u64_to_le_bytes(e.timestamp as u64);
            let mut content_bytes = e.content.as_str().as_bytes_vec();
            if content_bytes.len() > u32::MAX as usize {
                proof {
                    assert(!encodable(self@[idx as int]));
                }
                return None;
            }
            let mut len_bytes = u32_to_le_bytes(content_bytes.len() as u32);
            out.append(&mut ts_bytes);
            out.push(
                if e.is_password {
                    1u8
                } else {
                    0u8
                },
            );
            out.append(&mut len_bytes);
            out.append(&mut content_bytes);
            proof {
                lemma_encode_records_snoc(self@.take(idx as int), self@[idx as int]);
                assert(self@.take(idx + 1) =~= self@.take(idx as int).push(self@[idx as int]));
                assert(out@ =~= spec_header() + spec_encode_records(self@.take(idx + 1)));
            }
            idx = idx + 1;
        }
        proof {
            assert(self@.take(self@.len() as int) =~= self@);
        }
        Some(out)
    }

    /// Builds the store from the bytes of the persisted file, `None` for a
    /// missing file. Malformed headers load as empty; a record cut short is
    /// an error. The result is cut to `max_items`.
    pub fn load(max_items: usize, data: Option<&[u8]>) -> (r: Result<History, StoreError>)
        ensures
            match r {
                Ok(h) => h.max_spec() == max_items && (match data {
                    Some(bytes) => spec_load(bytes@) matches Some(full) && h@ == clip(
                        full,
                        max_items as int,
                    ),
                    None => h@ == Seq::<EntrySnap>::empty(),
                }),
                Err(e) => e == StoreError::TruncatedRecord && (data matches Some(bytes)
                    && spec_load(bytes@) is None),
            },
    {
        let bytes: &[u8] = match data {
            None => {
                let h = History { items: Vec::new(), max_items };
                proof {
                    reveal_history_model(&h);
                    assert(h@ =~= Seq::<EntrySnap>::empty());
                }
                return Ok(h);
            },
            Some(b) => b,
        };
        let blen: usize = bytes.len();
        if blen < 5 {
            let h = History { items: Vec::new(), max_items };
            proof {
                reveal_history_model(&h);
                assert(h@ =~= Seq::<EntrySnap>::empty());
                assert(clip(Seq::<EntrySnap>::empty(), max_items as int) =~= Seq::<
                    EntrySnap,
                >::empty());
            }
            return Ok(h);
        }
        let ok_header: bool = *slice_index_get(bytes, 0) == 0x43u8 && *slice_index_get(bytes, 1)
            == 0x48u8 && *slice_index_get(bytes, 2) == 0x53u8 && *slice_index_get(bytes, 3)
            == 0x54u8 && *slice_index_get(bytes, 4) == 0x01u8;
        if !ok_header {
            proof {
                assert(bytes@.take(5) != spec_header());
            }
            let h = History { items: Vec::new(), max_items };
            proof {
                reveal_history_model(&h);
                assert(h@ =~= Seq::<EntrySnap>::empty());
                assert(clip(Seq::<EntrySnap>::empty(), max_items as int) =~= Seq::<
                    EntrySnap,
                >::empty());
            }
            return Ok(h);
        }
        proof {
            assert(bytes@.take(5) =~= spec_header());
        }
        let mut items: Vec<Entry> = Vec::new();
        let mut pos: usize = 5;
        proof {
            assert(items@.map_values(|e: Entry| e@) =~= Seq::<EntrySnap>::empty());
            match parse_records(bytes@.skip(5)) {
                Some(rest) => {
                    assert(Seq::<EntrySnap>::empty() + rest =~= rest);
                },
                None => {},
            }
        }
        while pos < blen
            invariant
                data == Some(bytes),
                5 <= pos <= blen,
                blen == bytes@.len(),
                blen >= 5,
                bytes@.take(5) == spec_header(),
                match parse_records(bytes@.skip(pos as int)) {
                    Some(rest) => parse_records(bytes@.skip(5)) == Some(
                        items@.map_values(|e: Entry| e@) + rest,
                    ),
                    None => parse_records(bytes@.skip(5)) is None,
                },
            decreases blen - pos,
        {
            let ghost tail = bytes@.skip(pos as int);
            if blen - pos < 13 {
                proof {
                    assert(tail.len() == blen - pos);
                    assert(parse_records(tail) is None);
                    assert(spec_load(bytes@) is None);
                }
                return Err(StoreError::TruncatedRecord);
            }
            let ts_u: u64 = u64_from_le_bytes(slice_subrange(bytes, pos, pos + 8));
            let flag: u8 = *slice_index_get(bytes, pos + 8);
            let len_u: u32 = u32_from_le_bytes(slice_subrange(bytes, pos + 9, pos + 13));
            let len: usize = len_u as usize;
            proof {
                assert(tail.subrange(0, 8) =~= bytes@.subrange(pos as int, pos + 8));
                assert(tail[8] == bytes@[pos + 8]);
                assert(tail.subrange(9, 13) =~= bytes@.subrange(pos + 9, pos + 13));
            }
            if blen - pos - 13 < len {
                proof {
                    assert(tail.len() < 13 + len);
                    assert(parse_records(tail) is None);
                    assert(spec_load(bytes@) is None);
                }
                return Err(StoreError::TruncatedRecord);
            }
            let content_slice = slice_subrange(bytes, pos + 13, pos + 13 + len);
            let content = lossy_string(content_slice);
            let entry = Entry {
                timestamp: #[verifier::truncate] (ts_u as i64),
                content,
                is_password: flag != 0,
            };
            proof {
                let ghost m = items@.map_values(|e: Entry| e@);
                assert(tail.subrange(13, 13 + len as int) =~= bytes@.subrange(
                    pos + 13,
                    pos + 13 + len,
                ));
                assert(tail.skip(13 + len as int) =~= bytes@.skip(pos + 13 + len));
                assert(items@.push(entry).map_values(|e: Entry| e@) =~= m.push(entry@));
                match parse_records(bytes@.skip(pos + 13 + len)) {
                    Some(rest) => {
                        assert(parse_records(tail) == Some(seq![entry@] + rest));
                        assert(m.push(entry@) + rest =~= m + (seq![entry@] + rest));
                    },
                    None => {
                        assert(parse_records(tail) is None);
                    },
                }
            }
            items.push(entry);
            pos = pos + 13 + len;
        }
        proof {
            assert(bytes@.skip(blen as int) =~= Seq::<u8>::empty());
            assert(items@.map_values(|e: Entry| e@) + Seq::<EntrySnap>::empty() =~= items@
                .map_values(|e: Entry| e@));
        }
        let mut h = History { items, max_items };
        proof {
            reveal_history_model(&h);
        }
        h.truncate_if_needed();
        Ok(h)
    }
}

/// Saving and loading round-trip: the records parse back to exactly the
/// entries they were written from.
pub proof fn lemma_records_round_trip(entries: Seq<EntrySnap>)
    requires
        forall|i: int| 0 <= i < entries.len() ==> encodable(#[trigger] entries[i]),
    ensures
        parse_records(spec_encode_records(entries)) == Some(entries),
    decreases entries.len(),
{
    lemma_auto_spec_u64_to_from_le_bytes();
    lemma_auto_spec_u32_to_from_le_bytes();
    if entries.len() == 0 {
        assert(entries =~= Seq::<EntrySnap>::empty());
    } else {
        let e = entries[0];
        let cb = encode_utf8(e.content);
        let clen = cb.len() as int;
        assert(encodable(e));
        let rec = spec_encode_record(e);
        let rest = spec_encode_records(entries.drop_first());
        let all = spec_encode_records(entries);
        assert(all == rec + rest);
        assert(rec.len() == 13 + clen);
        assert(all.subrange(0, 8) =~= spec_u64_to_le_bytes(e.timestamp as u64));
        assert(all[8] == (if e.is_password {
            1u8
        } else {
            0u8
        }));
        assert(all.subrange(9, 13) =~= spec_u32_to_le_bytes(cb.len() as u32));
        assert(all.subrange(13, 13 + clen) =~= cb);
        assert(all.skip(13 + clen) =~= rest);
        let ts = e.timestamp;
        assert((ts as u64) as i64 == ts) by (bit_vector);
        assert(spec_u32_from_le_bytes(all.subrange(9, 13)) == cb.len() as u32);
        assert((cb.len() as u32) as int == clen);
        encode_utf8_valid_utf8(e.content);
        encode_utf8_decode_utf8(e.content);
        assert(decoded_content(cb) == e.content);
        assert forall|i: int| 0 <= i < entries.drop_first().len() implies encodable(
            #[trigger] entries.drop_first()[i],
        ) by {
            assert(entries.drop_first()[i] == entries[i + 1]);
        }
        lemma_records_round_trip(entries.drop_first());
        assert(parse_records(all) == Some(
            seq![
                EntrySnap {
                    timestamp: spec_u64_from_le_bytes(all.subrange(0, 8)) as i64,
                    content: decoded_content(all.subrange(13, 13 + clen)),
                    is_password: all[8] != 0,
                },
            ] + entries.drop_first(),
        ));
        assert(seq![e] + entries.drop_first() =~= entries);
    }
}

/// A saved image always loads back, and loads back to exactly the sequence
/// of entries it was saved from.
pub proof fn lemma_save_load_round_trip(entries: Seq<EntrySnap>)
    requires
        forall|i: int| 0 <= i < entries.len() ==> encodable(#[trigger] entries[i]),
    ensures
        spec_load(spec_encode(entries)) == Some(entries),
{
    let img = spec_encode(entries);
    assert(img.take(5) =~= spec_header());
    assert(img.skip(5) =~= spec_encode_records(entries));
    lemma_records_round_trip(entries);
}

/// A cleared store saves to an image that loads back empty.
pub proof fn lemma_clear_then_load_is_empty()
    ensures
        spec_load(spec_encode(Seq::<EntrySnap>::empty())) == Some(Seq::<EntrySnap>::empty()),
{
    lemma_save_load_round_trip(Seq::<EntrySnap>::empty());
}

/// Wrong magic bytes or version load as an empty history, never as an
/// error.
pub proof fn lemma_wrong_header_loads_empty(bytes: Seq<u8>)
    requires
        bytes.len() < 5 || bytes.take(5) != spec_header(),
    ensures
        spec_load(bytes) == Some(Seq::<EntrySnap>::empty()),
{
}

} // verus!
