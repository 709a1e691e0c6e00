//! Query evaluation + confirming scan.
//!
//! The index narrows the search to candidate files; the scan then runs the
//! real regex over the *current* content of those files. Results therefore
//! never contain stale lines: an out-of-date index can only miss files
//! whose content changed after indexing.

pub mod agreement;
pub mod choosing;
pub mod compiling;
pub mod eval;
pub mod filter;
pub mod freshness;
pub mod lines;
pub mod marking;
pub mod matcher;
pub mod numbering;
pub mod options;
pub mod own_lines;
pub mod renewal;
pub mod reporting;
pub mod run;
pub mod select;
pub mod spans;
pub mod success;
pub mod unwritten;
pub mod view;

pub use crate::ids::{intersect, union};
pub use filter::{in_scope, FileFilter};
pub use lines::MatchLine;
pub use matcher::{compile, scan_buffer, scan_buffer_ctx, Matcher};
pub use options::{SearchError, SearchOptions, SearchStats};
pub use select::FileResult;
pub use view::View;
