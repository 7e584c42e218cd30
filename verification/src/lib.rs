//! A small in-process text search engine: records are tokenized into
//! normalized terms, inverted into term-to-record postings, and free-text
//! queries are answered by ranking records on accumulated term frequency.
//!
//! - [`model`]: the indexed record.
//! - [`tokenizer`]: text to terms.
//! - [`frequency`]: term frequencies of a token stream.
//! - [`postings`], [`table`]: posting lists and the table from terms to them.
//! - [`index`]: the inverted index, with what holds of adding and removing.
//! - [`ranking`]: what the ranking of a query is, and what holds of it.
//! - [`scoring`], [`sorting`], [`search`]: how a query is answered.
//!
//! The index is a plain value: adding and removing take `&mut self`, so a
//! reader never sees a change half applied. To share one index between
//! threads, put it behind a lock.

pub mod frequency;
pub mod index;
pub mod model;
pub mod postings;
pub mod ranking;
pub mod scoring;
pub mod search;
pub mod sorting;
pub mod table;
pub mod tokenizer;
