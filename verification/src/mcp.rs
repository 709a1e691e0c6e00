//! A Model Context Protocol server: what is asked for, and what is answered.

pub mod answer;
pub mod json;
pub mod request;
pub mod telling;
