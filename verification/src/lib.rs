//! A parallel regular-expression search engine for Wikimedia XML dump files.
//!
//! A dump is a long stream of `<page>` elements, each holding metadata and one
//! or more `<revision>` elements whose `<text>` child carries the article
//! wikitext.  This crate holds the verified core of the engine: the page
//! extractor state machine, the match formatter with its colored line-oriented
//! output, the work partitioner that splits plain files into byte ranges, the
//! dump-file resolver with its compression-variant de-duplication, and the
//! option and error types.  File and process I/O, thread scheduling and the
//! XML tokenizer live outside the library and feed it plain values.

pub mod bytescan;
pub mod dumptool;
pub mod errors;
pub mod extract;
pub mod format;
pub mod options;
pub mod output;
pub mod partition;
pub mod pipeline;
pub mod resolve;
pub mod rx;
