//! Decoder for an immutable, sorted, on-disk key-value page ("SSTable").
//!
//! A page is a byte buffer with a 12-byte little-endian header
//! (`file_size`, `c_time`, `nkeys`), a fixed-width index of `nkeys`
//! entries (4-byte signed key, 4-byte offset of the value's first byte),
//! and a region of concatenated UTF-8 value bytes.  Each value ends where
//! the next entry's value begins; the last value ends at `file_size`.
//!
//! [`sstable::SSTable::new`] decodes such a buffer into a key-ordered
//! sequence of entries, or reports exactly which validation failed.
//! [`encode::lemma_round_trip`] proves that decoding recovers whatever a
//! conforming encoder laid out.

pub mod buf;
pub mod encode;
pub mod sstable;

pub use crate::sstable::DecodeError;
pub use crate::sstable::KVPair;
pub use crate::sstable::SSTable;
