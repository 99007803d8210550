//! What a conforming encoder writes, and the proof that decoding reads
//! it back.
//!
//! [`encode_table`] lays out a page exactly as the format prescribes:
//! header, fixed-width index whose offsets point at the concatenated
//! encoded values, values region.  [`lemma_round_trip`] proves that the
//! decode model of [`crate::sstable`] recovers every key, every value and
//! the timestamp from such a page, and [`lemma_round_trip_decode`] that
//! any result the decoding contract admits for it is a table equal to
//! the entries that were written.

use vstd::prelude::*;

verus! {

use vstd::bytes::lemma_auto_spec_u32_to_from_le_bytes;
use vstd::bytes::spec_u32_to_le_bytes;
use vstd::utf8::decode_utf8;
use vstd::utf8::encode_utf8;
use vstd::utf8::encode_utf8_decode_utf8;
use vstd::utf8::encode_utf8_valid_utf8;
use vstd::utf8::valid_utf8;
use crate::buf::as_signed32;
use crate::buf::le_u32_at;
use crate::sstable::c_time_of;
use crate::sstable::decode_rel;
use crate::sstable::file_size_of;
use crate::sstable::key_at;
use crate::sstable::keys_strictly_ascending;
use crate::sstable::lemma_order_preservation;
use crate::sstable::nkeys_of;
use crate::sstable::range_ok_at;
use crate::sstable::value_bytes_at;
use crate::sstable::value_end_at;
use crate::sstable::value_start_at;
use crate::sstable::well_formed;
use crate::sstable::DecodeError;
use crate::sstable::SSTable;

/// One entry as an encoder sees it: a key and the characters of its value.
pub type Entry = (i32, Seq<char>);

/// The 32 bits a signed key is stored as (two's complement).
pub open spec fn key_bits(k: i32) -> u32 {
    if k >= 0 {
        k as u32
    } else {
        (k as int + 0x1_0000_0000) as u32
    }
}

/// Total byte length of the first `n` encoded values.
pub open spec fn values_len(entries: Seq<Entry>, n: int) -> int
    decreases n,
{
    if n <= 0 {
        0
    } else {
        values_len(entries, n - 1) + encode_utf8(entries[n - 1].1).len()
    }
}

/// The byte offset, from the start of the page, at which entry `i`'s
/// value is laid down.
pub open spec fn value_offset(entries: Seq<Entry>, i: int) -> int {
    12 + 8 * entries.len() + values_len(entries, i)
}

/// The total length of the page written for `entries`.
pub open spec fn page_size(entries: Seq<Entry>) -> int {
    value_offset(entries, entries.len() as int)
}

/// The first `n` index entries, concatenated: each one the key's four
/// little-endian bytes followed by the value offset's four.
pub open spec fn index_section(entries: Seq<Entry>, n: int) -> Seq<u8>
    decreases n,
{
    if n <= 0 {
        Seq::empty()
    } else {
        index_section(entries, n - 1) + spec_u32_to_le_bytes(key_bits(entries[n - 1].0))
            + spec_u32_to_le_bytes(value_offset(entries, n - 1) as u32)
    }
}

/// The first `n` encoded values, concatenated with no delimiters.
pub open spec fn values_section(entries: Seq<Entry>, n: int) -> Seq<u8>
    decreases n,
{
    if n <= 0 {
        Seq::empty()
    } else {
        values_section(entries, n - 1) + encode_utf8(entries[n - 1].1)
    }
}

/// The whole page a conforming encoder writes for `entries` at `c_time`.
pub open spec fn encode_table(c_time: u32, entries: Seq<Entry>) -> Seq<u8> {
    let n = entries.len() as int;
    spec_u32_to_le_bytes(page_size(entries) as u32) + spec_u32_to_le_bytes(c_time)
        + spec_u32_to_le_bytes(entries.len() as u32) + index_section(entries, n) + values_section(
        entries,
        n,
    )
}

/// The encoded-values lengths never shrink as entries are added.
proof fn lemma_values_len_mono(entries: Seq<Entry>, i: int, j: int)
    requires
        0 <= i <= j,
    ensures
        0 <= values_len(entries, i) <= values_len(entries, j),
    decreases j,
{
    if j > 0 {
        if i <= j - 1 {
            lemma_values_len_mono(entries, i, j - 1);
        } else {
            lemma_values_len_mono(entries, i - 1, j - 1);
        }
    }
}

proof fn lemma_index_section_len(entries: Seq<Entry>, n: int)
    requires
        0 <= n,
    ensures
        index_section(entries, n).len() == 8 * n,
    decreases n,
{
    lemma_auto_spec_u32_to_from_le_bytes();
    if n > 0 {
        lemma_index_section_len(entries, n - 1);
    }
}

proof fn lemma_values_section_len(entries: Seq<Entry>, n: int)
    requires
        0 <= n,
    ensures
        values_section(entries, n).len() == values_len(entries, n),
    decreases n,
{
    if n > 0 {
        lemma_values_section_len(entries, n - 1);
    }
}

/// Entry `i`'s eight index bytes sit at bytes `8*i .. 8*i + 8` of the
/// index section.
proof fn lemma_index_section_extract(entries: Seq<Entry>, n: int, i: int)
    requires
        0 <= i < n,
    ensures
        index_section(entries, n).subrange(8 * i, 8 * i + 4) == spec_u32_to_le_bytes(
            key_bits(entries[i].0),
        ),
        index_section(entries, n).subrange(8 * i + 4, 8 * i + 8) == spec_u32_to_le_bytes(
            value_offset(entries, i) as u32,
        ),
    decreases n,
{
    lemma_auto_spec_u32_to_from_le_bytes();
    lemma_index_section_len(entries, n - 1);
    let prev = index_section(entries, n - 1);
    let kb = spec_u32_to_le_bytes(key_bits(entries[n - 1].0));
    let ob = spec_u32_to_le_bytes(value_offset(entries, n - 1) as u32);
    if i < n - 1 {
        lemma_index_section_extract(entries, n - 1, i);
        assert(index_section(entries, n).subrange(8 * i, 8 * i + 4) =~= prev.subrange(
            8 * i,
            8 * i + 4,
        ));
        assert(index_section(entries, n).subrange(8 * i + 4, 8 * i + 8) =~= prev.subrange(
            8 * i + 4,
            8 * i + 8,
        ));
    } else {
        assert(index_section(entries, n).subrange(8 * i, 8 * i + 4) =~= kb);
        assert(index_section(entries, n).subrange(8 * i + 4, 8 * i + 8) =~= ob);
    }
}

/// Entry `i`'s encoded value sits at bytes
/// `values_len(entries, i) .. values_len(entries, i + 1)` of the values
/// section.
proof fn lemma_values_section_extract(entries: Seq<Entry>, n: int, i: int)
    requires
        0 <= i < n,
    ensures
        values_section(entries, n).subrange(
            values_len(entries, i),
            values_len(entries, i + 1),
        ) == encode_utf8(entries[i].1),
    decreases n,
{
    lemma_values_section_len(entries, n - 1);
    lemma_values_len_mono(entries, 0, i);
    if i < n - 1 {
        lemma_values_section_extract(entries, n - 1, i);
        lemma_values_len_mono(entries, i + 1, n - 1);
        assert(values_section(entries, n).subrange(values_len(entries, i), values_len(entries, i + 1))
            =~= values_section(entries, n - 1).subrange(
            values_len(entries, i),
            values_len(entries, i + 1),
        ));
    } else {
        assert(values_section(entries, n).subrange(values_len(entries, i), values_len(entries, i + 1))
            =~= encode_utf8(entries[i].1));
    }
}

/// Storing a key as its 32 bits and rereading those bits signed gives the
/// key back.
proof fn lemma_key_bits_roundtrip(k: i32)
    ensures
        as_signed32(key_bits(k)) == k as int,
{
}

/// Law: round trip.  For any entries and timestamp, the page written by
/// a conforming encoder decodes without error, and the decode model reads
/// back the timestamp, the entry count, every key and every value exactly
/// as they were written.
pub proof fn lemma_round_trip(c_time: u32, entries: Seq<Entry>)
    requires
        page_size(entries) <= u32::MAX,
    ensures
        ({
            let b = encode_table(c_time, entries);
            &&& b.len() == page_size(entries)
            &&& well_formed(b)
            &&& nkeys_of(b) as int == entries.len()
            &&& c_time_of(b) == c_time
            &&& file_size_of(b) as int == page_size(entries)
            &&& forall|i: int|
                0 <= i < entries.len() ==> key_at(b, i) == (#[trigger] entries[i]).0 as int
                    && value_bytes_at(b, i) == encode_utf8(entries[i].1) && decode_utf8(
                    value_bytes_at(b, i),
                ) == entries[i].1
        }),
{
    lemma_auto_spec_u32_to_from_le_bytes();
    let n = entries.len() as int;
    let b = encode_table(c_time, entries);
    let idx = index_section(entries, n);
    let vals = values_section(entries, n);
    lemma_index_section_len(entries, n);
    lemma_values_section_len(entries, n);
    lemma_values_len_mono(entries, 0, n);
    assert(b.len() == page_size(entries));

    assert(b.subrange(0, 4) =~= spec_u32_to_le_bytes(page_size(entries) as u32));
    assert(file_size_of(b) as int == page_size(entries));
    assert(b.subrange(4, 8) =~= spec_u32_to_le_bytes(c_time));
    assert(c_time_of(b) == c_time);
    assert(b.subrange(8, 12) =~= spec_u32_to_le_bytes(entries.len() as u32));
    assert(nkeys_of(b) as int == n);

    assert forall|i: int| 0 <= i < n implies value_start_at(b, i) as int == value_offset(
        entries,
        i,
    ) by {
        lemma_index_section_extract(entries, n, i);
        assert(b.subrange(16 + 8 * i, 20 + 8 * i) =~= idx.subrange(8 * i + 4, 8 * i + 8));
        lemma_values_len_mono(entries, 0, i);
        lemma_values_len_mono(entries, i, n);
    }
    assert forall|i: int| 0 <= i < n implies value_end_at(b, i) as int == value_offset(
        entries,
        i + 1,
    ) by {
        if i + 1 < n {
            assert(value_start_at(b, i + 1) as int == value_offset(entries, i + 1));
        } else {
            assert(value_end_at(b, i) == file_size_of(b));
        }
    }
    assert forall|i: int| 0 <= i < n implies #[trigger] range_ok_at(b, i) by {
        lemma_values_len_mono(entries, i, i + 1);
        lemma_values_len_mono(entries, i + 1, n);
        lemma_values_len_mono(entries, 0, i);
    }
    assert forall|i: int| 0 <= i < n implies #[trigger] value_bytes_at(b, i) == encode_utf8(
        entries[i].1,
    ) by {
        lemma_values_len_mono(entries, 0, i);
        lemma_values_len_mono(entries, i, i + 1);
        lemma_values_len_mono(entries, i + 1, n);
        lemma_values_section_extract(entries, n, i);
        assert(value_bytes_at(b, i) =~= vals.subrange(
            values_len(entries, i),
            values_len(entries, i + 1),
        ));
    }
    assert forall|i: int| 0 <= i < n implies valid_utf8(#[trigger] value_bytes_at(b, i))
        && decode_utf8(value_bytes_at(b, i)) == entries[i].1 by {
        encode_utf8_valid_utf8(entries[i].1);
        encode_utf8_decode_utf8(entries[i].1);
    }
    assert forall|i: int| 0 <= i < n implies key_at(b, i) == (#[trigger] entries[i]).0 as int by {
        lemma_index_section_extract(entries, n, i);
        assert(b.subrange(12 + 8 * i, 16 + 8 * i) =~= idx.subrange(8 * i, 8 * i + 4));
        assert(le_u32_at(b, 12 + 8 * i) == key_bits(entries[i].0));
        lemma_key_bits_roundtrip(entries[i].0);
    }
    assert(well_formed(b));
}

/// Law: round trip, stated against the decoding contract.  Whatever
/// result [`decode_rel`] admits for an encoded page is `Ok`, and the
/// table carries the written timestamp and, entry for entry, the written
/// keys and values.
pub proof fn lemma_round_trip_decode(
    c_time: u32,
    entries: Seq<Entry>,
    r: Result<SSTable, DecodeError>,
)
    requires
        page_size(entries) <= u32::MAX,
        decode_rel(encode_table(c_time, entries), r),
    ensures
        r matches Ok(t) ==> {
            &&& t.c_time == c_time
            &&& t.pairs@.len() == entries.len()
            &&& forall|i: int|
                0 <= i < entries.len() ==> (#[trigger] t.pairs@[i]).key as int == (
                #[trigger] entries[i]).0 as int && t.pairs@[i].value@ == entries[i].1
        },
        r is Ok,
{
    lemma_round_trip(c_time, entries);
    let b = encode_table(c_time, entries);
    match r {
        Ok(t) => {
            assert forall|i: int| 0 <= i < entries.len() implies (#[trigger] t.pairs@[i]).key as int
                == (#[trigger] entries[i]).0 as int && t.pairs@[i].value@ == entries[i].1 by {
                assert(t.pairs@[i].key as int == key_at(b, i));
                assert(t.pairs@[i].value@ == decode_utf8(value_bytes_at(b, i)));
            }
        },
        Err(e) => {
            assert(well_formed(b));
        },
    }
}

/// Law: order preservation through decoding.  A non-empty page written
/// with strictly ascending keys decodes to a table whose first entry
/// carries the minimum key and whose last entry the maximum.
pub proof fn lemma_decoded_order_preservation(
    c_time: u32,
    entries: Seq<Entry>,
    r: Result<SSTable, DecodeError>,
)
    requires
        page_size(entries) <= u32::MAX,
        entries.len() > 0,
        forall|i: int, j: int|
            0 <= i < j < entries.len() ==> (#[trigger] entries[i]).0 < (#[trigger] entries[j]).0,
        decode_rel(encode_table(c_time, entries), r),
    ensures
        r matches Ok(t) ==> {
            &&& keys_strictly_ascending(t.pairs@)
            &&& forall|i: int|
                0 <= i < t.pairs@.len() ==> t.pairs@[0].key <= (#[trigger] t.pairs@[i]).key
            &&& forall|i: int|
                0 <= i < t.pairs@.len() ==> (#[trigger] t.pairs@[i]).key <= t.pairs@[t.pairs@.len()
                    - 1].key
        },
{
    lemma_round_trip_decode(c_time, entries, r);
    match r {
        Ok(t) => {
            assert forall|i: int, j: int| 0 <= i < j < t.pairs@.len() implies (
            #[trigger] t.pairs@[i]).key < (#[trigger] t.pairs@[j]).key by {
                assert(t.pairs@[i].key as int == entries[i].0 as int);
                assert(t.pairs@[j].key as int == entries[j].0 as int);
                assert(entries[i].0 < entries[j].0);
            }
            lemma_order_preservation(t);
        },
        Err(_) => {},
    }
}

} // verus!
