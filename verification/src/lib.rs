//! A fuzzy-search content pipeline: a text classifier, a line extractor, a
//! crawling text channel with an on-air lifecycle, and a composer that pipes
//! one channel's live results into another.
//!
//! The library owns the decisions of the pipeline: which files count as text,
//! which lines are kept, how the ingestion budget bounds the crawl, and how a
//! channel's ranked results are snapshotted for piping.  Directory walking,
//! file reading and the async runtime live outside the library and hand it
//! plain values.

pub mod channel;
pub mod cli;
pub mod classify;
pub mod compose;
pub mod config;
pub mod entry;
pub mod lines;
pub mod matcher;
