//! The command line: arguments, routes and output.

pub mod args;
pub mod options;
pub mod output;
pub mod printing;
pub mod report;
pub mod route;
