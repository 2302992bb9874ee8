//! Versioned, encrypted unit storage: version vectors, unit records, the
//! content store engine and its synchronisation rules.
pub mod block;
pub mod blocks;
pub mod bytes;
pub mod cache;
pub mod catalog;
pub mod commit;
pub mod commit_record;
pub mod compact;
pub mod conflict;
pub mod convergence;
pub mod content;
pub mod crypto;
pub mod engine;
pub mod error;
pub mod evicted;
pub mod formats;
pub mod header;
pub mod heap;
pub mod history;
pub mod import;
pub mod laws;
pub mod marks;
pub mod members;
pub mod membership;
pub mod merge;
pub mod meta;
pub mod names;
pub mod outcomes;
pub mod outside;
pub mod overlay;
pub mod paths;
pub mod peers;
pub mod projection;
pub mod promises;
pub mod raw;
pub mod readback;
pub mod recipher;
pub mod record_block;
pub mod recovery;
pub mod rekey;
pub mod reseal;
pub mod resize;
pub mod retention;
pub mod runs;
pub mod seams;
pub mod setup;
pub mod snapshots;
pub mod stage;
pub mod storage;
pub mod supersede;
pub mod sync;
pub mod tags;
pub mod text;
pub mod timemachine;
pub mod transport;
pub mod unit;
pub mod units;
pub mod upkeep;
pub mod vector;
pub mod verify_trailer;
pub mod wal;
pub mod write;
pub mod writerset;
