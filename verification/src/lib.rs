//! A minimal persistent key-value store: an append-only write-ahead log of
//! checksummed frames, replayed at open time to rebuild an in-memory map,
//! with compaction to reclaim space taken by superseded records.
//!
//! The library holds the verified core: the record codec, the replay scan
//! over log bytes, and the map maintained by the store. File handling (open,
//! append, sync, rename) is left to the caller, who feeds log bytes in and
//! writes frame bytes out.

pub mod wal;
pub mod kv;
