//! Collects the pull requests that a group of people worked on and writes them
//! up as a Markdown digest, one section per label.
//!
//! The crate holds the decisions: which searches to send, what to keep of the
//! answers, how the result is arranged and how it reads. Sending requests and
//! writing files is left to the program around it.

pub mod collect;
pub mod labels;
pub mod model;
pub mod order;
pub mod report;
pub mod search;
pub mod select;
pub mod text;
