//! Indexed code search: trigram planning, the on-disk index and the
//! confirming scan.

pub mod bytes;
pub mod cli;
pub mod ids;
pub mod index;
pub mod mcp;
pub mod numbers;
pub mod order;
pub mod plan;
pub mod search;
pub mod store;
pub mod syntax;
pub mod text;
pub mod trigram;
pub mod triset;
pub mod varint;
pub mod watch;
