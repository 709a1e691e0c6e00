//! The trigram index: its file format and its construction.

pub mod builder;
pub mod candidates;
pub mod compaction;
pub mod exact;
pub mod extract;
pub mod finish;
pub mod format;
pub mod image;
pub mod known;
pub mod merge;
pub mod noop;
pub mod pairs;
pub mod planned;
pub mod postings;
pub mod readback;
pub mod refresh;
pub mod reuse;
pub mod stamps;
pub mod truth;
pub mod writer;
