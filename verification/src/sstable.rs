//! The decoded table and the decoder itself.
//!
//! The model below reads every field of the page straight out of the byte
//! buffer with the spec functions of [`crate::buf`]: entry `i`'s key sits
//! at byte `12 + 8*i`, its value starts at the offset stored at
//! `16 + 8*i`, and ends where entry `i + 1`'s value starts — or at the
//! header's `file_size` for the last entry.  [`SSTable::new`] returns a
//! table matching that model, or the error named by [`decode_rel`].

use vstd::prelude::*;

verus! {

use vstd::slice::slice_subrange;
use vstd::slice::slice_to_vec;
use vstd::utf8::decode_utf8;
use vstd::utf8::valid_utf8;
use crate::buf::le_i32_at;
use crate::buf::le_u32_at;
use crate::buf::read_i32_at;
use crate::buf::read_u32_at;

/// One key-value entry of a table.
#[derive(PartialEq, Debug)]
pub struct KVPair {
    pub key: i32,
    pub value: String,
}

/// A decoded table: a creation timestamp and the entries in the order
/// they were laid out on disk (ascending by key, when the encoder kept
/// its word).
#[derive(Debug)]
pub struct SSTable {
    pub c_time: u32,
    pub pairs: Vec<KVPair>,
}

/// Why a buffer failed to decode.
#[derive(PartialEq, Eq, Structural, Debug, Clone, Copy)]
pub enum DecodeError {
    /// The buffer is shorter than the 12-byte header.
    TruncatedHeader,
    /// The buffer ends before the `nkeys` declared index entries do.
    TruncatedIndex,
    /// Some entry's value range starts after it ends, or runs past the
    /// end of the buffer.
    InvalidRange,
    /// Some entry's value bytes are not valid UTF-8.
    InvalidUtf8,
}

/// The header's declared total file length.
pub open spec fn file_size_of(b: Seq<u8>) -> u32 {
    le_u32_at(b, 0)
}

/// The header's creation timestamp.
pub open spec fn c_time_of(b: Seq<u8>) -> u32 {
    le_u32_at(b, 4)
}

/// The header's declared number of entries.
pub open spec fn nkeys_of(b: Seq<u8>) -> u32 {
    le_u32_at(b, 8)
}

/// The buffer holds the whole 12-byte header.
pub open spec fn header_ok(b: Seq<u8>) -> bool {
    b.len() >= 12
}

/// The buffer holds all `nkeys` 8-byte index entries.
pub open spec fn index_ok(b: Seq<u8>) -> bool {
    b.len() >= 12 + 8 * (nkeys_of(b) as int)
}

/// Entry `i`'s key, read from its index entry.
pub open spec fn key_at(b: Seq<u8>, i: int) -> int {
    le_i32_at(b, 12 + 8 * i)
}

/// The offset where entry `i`'s value begins, read from its index entry.
pub open spec fn value_start_at(b: Seq<u8>, i: int) -> u32 {
    le_u32_at(b, 16 + 8 * i)
}

/// The offset one past entry `i`'s value: the next entry's start, or the
/// declared file size for the last entry.
pub open spec fn value_end_at(b: Seq<u8>, i: int) -> u32 {
    if i + 1 < nkeys_of(b) as int {
        value_start_at(b, i + 1)
    } else {
        file_size_of(b)
    }
}

/// Entry `i`'s value range lies inside the buffer and is not negative.
pub open spec fn range_ok_at(b: Seq<u8>, i: int) -> bool {
    value_start_at(b, i) <= value_end_at(b, i) && value_end_at(b, i) <= b.len()
}

/// Every entry's value range is in bounds.
pub open spec fn ranges_ok(b: Seq<u8>) -> bool {
    forall|i: int| 0 <= i < nkeys_of(b) as int ==> #[trigger] range_ok_at(b, i)
}

/// The bytes of entry `i`'s value.
pub open spec fn value_bytes_at(b: Seq<u8>, i: int) -> Seq<u8> {
    b.subrange(value_start_at(b, i) as int, value_end_at(b, i) as int)
}

/// Every entry's value bytes are valid UTF-8.
pub open spec fn values_utf8_ok(b: Seq<u8>) -> bool {
    forall|i: int| 0 <= i < nkeys_of(b) as int ==> valid_utf8(#[trigger] value_bytes_at(b, i))
}

/// The buffer decodes without error.
pub open spec fn well_formed(b: Seq<u8>) -> bool {
    header_ok(b) && index_ok(b) && ranges_ok(b) && values_utf8_ok(b)
}

/// The table `t` is exactly what the buffer `b` describes: the header's
/// timestamp, one pair per declared entry, each key and each decoded
/// value read from `b` at the modeled positions.
pub open spec fn table_matches(b: Seq<u8>, t: SSTable) -> bool {
    &&& t.c_time == c_time_of(b)
    &&& t.pairs@.len() == nkeys_of(b) as int
    &&& forall|i: int|
        0 <= i < nkeys_of(b) as int ==> (#[trigger] t.pairs@[i]).key as int == key_at(b, i)
            && t.pairs@[i].value@ == decode_utf8(value_bytes_at(b, i))
}

/// The full contract of decoding: which result comes back from which
/// buffer.  The error conditions partition the ill-formed buffers, so a
/// buffer determines its outcome completely.
pub open spec fn decode_rel(b: Seq<u8>, r: Result<SSTable, DecodeError>) -> bool {
    match r {
        Ok(t) => well_formed(b) && table_matches(b, t),
        Err(e) => match e {
            DecodeError::TruncatedHeader => !header_ok(b),
            DecodeError::TruncatedIndex => header_ok(b) && !index_ok(b),
            DecodeError::InvalidRange => header_ok(b) && index_ok(b) && !ranges_ok(b),
            DecodeError::InvalidUtf8 => header_ok(b) && index_ok(b) && ranges_ok(b)
                && !values_utf8_ok(b),
        },
    }
}

/// The keys of `pairs` are strictly ascending, as the encoder guarantees
/// of every table it writes.
pub open spec fn keys_strictly_ascending(pairs: Seq<KVPair>) -> bool {
    forall|i: int, j: int|
        0 <= i < j < pairs.len() ==> (#[trigger] pairs[i]).key < (#[trigger] pairs[j]).key
}

/// Two tables agree in everything the model speaks of: timestamp, entry
/// count, and every key and value.
pub open spec fn tables_equivalent(t1: SSTable, t2: SSTable) -> bool {
    &&& t1.c_time == t2.c_time
    &&& t1.pairs@.len() == t2.pairs@.len()
    &&& forall|i: int|
        0 <= i < t1.pairs@.len() ==> (#[trigger] t1.pairs@[i]).key == (#[trigger] t2.pairs@[i]).key
            && t1.pairs@[i].value@ == t2.pairs@[i].value@
}

/// Law: in a non-empty table whose keys ascend strictly, the first entry
/// carries the minimum key and the last entry the maximum.
pub proof fn lemma_order_preservation(t: SSTable)
    requires
        t.pairs@.len() > 0,
        keys_strictly_ascending(t.pairs@),
    ensures
        forall|i: int| 0 <= i < t.pairs@.len() ==> t.pairs@[0].key <= (#[trigger] t.pairs@[i]).key,
        forall|i: int|
            0 <= i < t.pairs@.len() ==> (#[trigger] t.pairs@[i]).key <= t.pairs@[t.pairs@.len()
                - 1].key,
{
}

/// Law: decoding is deterministic.  Any two results that the decoding
/// contract admits for the same bytes are the same: equal errors, or
/// tables with the same timestamp, keys and values.
pub proof fn lemma_decode_deterministic(
    b: Seq<u8>,
    r1: Result<SSTable, DecodeError>,
    r2: Result<SSTable, DecodeError>,
)
    requires
        decode_rel(b, r1),
        decode_rel(b, r2),
    ensures
        r1 is Ok <==> r2 is Ok,
        r1 is Err ==> r1 == r2,
        r1 matches Ok(t1) ==> r2 matches Ok(t2) ==> tables_equivalent(t1, t2),
{
    match (r1, r2) {
        (Ok(t1), Ok(t2)) => {
            assert forall|i: int| 0 <= i < t1.pairs@.len() implies (#[trigger] t1.pairs@[i]).key
                == (#[trigger] t2.pairs@[i]).key && t1.pairs@[i].value@
                == t2.pairs@[i].value@ by {
                assert(t1.pairs@[i].key as int == key_at(b, i));
                assert(t2.pairs@[i].key as int == key_at(b, i));
            }
            assert(tables_equivalent(t1, t2));
        },
        _ => {},
    }
}

/// Relies on `String::from_utf8`: it returns `Ok` exactly when the bytes
/// are a valid UTF-8 encoding, and then the string's characters are the
/// decoding of those bytes (vstd states the same of
/// `str::from_utf8_unchecked`, through `encode_utf8`).
#[verifier::external_body]
fn string_from_utf8(bytes: Vec<u8>) -> (r: Option<String>)
    ensures
        match r {
            Some(s) => valid_utf8(bytes@) && s@ == decode_utf8(bytes@),
            None => !valid_utf8(bytes@),
        },
{
    String::from_utf8(bytes).ok()
}

impl SSTable {
    /// Decodes a table from the raw bytes of one on-disk page.
    ///
    /// A table with `nkeys = 0` is a valid empty table, not an error:
    /// the header alone describes it and no arithmetic depends on a
    /// first entry existing.
    pub fn new(buffer: &Vec<u8>) -> (r: Result<SSTable, DecodeError>)
        ensures
            decode_rel(buffer@, r),
    {
        if buffer.len() < 12 {
            return Err(DecodeError::TruncatedHeader);
        }
        let file_size = read_u32_at(buffer, 0);
        let c_time = read_u32_at(buffer, 4);
        let nkeys = read_u32_at(buffer, 8);

        let buffer_len: usize = buffer.len();
        if (buffer_len as u64) < 12u64 + 8u64 * (nkeys as u64) {
            return Err(DecodeError::TruncatedIndex);
        }
        assert(index_ok(buffer@));

        // First pass: every entry's value range must lie inside the buffer.
        let mut i: u32 = 0;
        while i < nkeys
            invariant
                buffer_len == buffer@.len(),
                buffer@.len() >= 12,
                12 + 8 * (nkeys as int) <= buffer@.len(),
                nkeys == nkeys_of(buffer@),
                file_size == file_size_of(buffer@),
                i <= nkeys,
                forall|j: int| 0 <= j < i as int ==> #[trigger] range_ok_at(buffer@, j),
            decreases nkeys - i,
        {
            proof {
                assert(buffer_len <= usize::MAX);
                assert(16 + 8 * (i as int) + 4 <= buffer@.len());
            }
            let start_pos: usize = (16u64 + 8u64 * (i as u64)) as usize;
            assert(start_pos as int == 16 + 8 * (i as int));
            let start = read_u32_at(buffer, start_pos);
            let end: u32 = if i + 1 < nkeys {
                let next_pos: usize = (16u64 + 8u64 * ((i + 1) as u64)) as usize;
                assert(next_pos as int == 16 + 8 * (i as int + 1));
                read_u32_at(buffer, next_pos)
            } else {
                file_size
            };
            assert(start == value_start_at(buffer@, i as int));
            assert(end == value_end_at(buffer@, i as int));
            if !(start <= end && (end as u64) <= (buffer_len as u64)) {
                assert(!range_ok_at(buffer@, i as int));
                return Err(DecodeError::InvalidRange);
            }
            i = i + 1;
        }
        assert(ranges_ok(buffer@));

        // Second pass: read each key and slice out each value.
        let mut pairs: Vec<KVPair> = Vec::new();
        let mut i: u32 = 0;
        while i < nkeys
            invariant
                buffer_len == buffer@.len(),
                buffer@.len() >= 12,
                12 + 8 * (nkeys as int) <= buffer@.len(),
                nkeys == nkeys_of(buffer@),
                file_size == file_size_of(buffer@),
                ranges_ok(buffer@),
                i <= nkeys,
                pairs@.len() == i as int,
                forall|j: int|
                    0 <= j < i as int ==> (#[trigger] pairs@[j]).key as int == key_at(buffer@, j)
                        && pairs@[j].value@ == decode_utf8(value_bytes_at(buffer@, j)),
                forall|j: int| 0 <= j < i as int ==> valid_utf8(#[trigger] value_bytes_at(buffer@, j)),
            decreases nkeys - i,
        {
            proof {
                assert(buffer_len <= usize::MAX);
                assert(12 + 8 * (i as int) + 8 <= buffer@.len());
            }
            let key_pos: usize = (12u64 + 8u64 * (i as u64)) as usize;
            assert(key_pos as int == 12 + 8 * (i as int));
            let key = read_i32_at(buffer, key_pos);
            let start_pos: usize = (16u64 + 8u64 * (i as u64)) as usize;
            assert(start_pos as int == 16 + 8 * (i as int));
            let start = read_u32_at(buffer, start_pos);
            let end: u32 = if i + 1 < nkeys {
                let next_pos: usize = (16u64 + 8u64 * ((i + 1) as u64)) as usize;
                assert(next_pos as int == 16 + 8 * (i as int + 1));
                read_u32_at(buffer, next_pos)
            } else {
                file_size
            };
            assert(key as int == key_at(buffer@, i as int));
            assert(start == value_start_at(buffer@, i as int));
            assert(end == value_end_at(buffer@, i as int));
            assert(range_ok_at(buffer@, i as int));
            let value_slice = slice_subrange(buffer.as_slice(), start as usize, end as usize);
            let bytes = slice_to_vec(value_slice);
            assert(bytes@ == value_bytes_at(buffer@, i as int));
            match string_from_utf8(bytes) {
                Some(value) => {
                    pairs.push(KVPair { key, value });
                },
                None => {
                    assert(!values_utf8_ok(buffer@));
                    return Err(DecodeError::InvalidUtf8);
                },
            }
            i = i + 1;
        }

        assert(values_utf8_ok(buffer@));
        let table = SSTable { c_time, pairs };
        assert(table_matches(buffer@, table));
        assert(well_formed(buffer@));
        Ok(table)
    }
}

} // verus!
