//! Bloom-filter deduplication of text documents.
//!
//! Documents come as text; an engine decides, by the shingles of tokens
//! that a shared Bloom filter has seen before, which paragraphs, substrings
//! or whole documents are duplicates, and says how to edit the document.
//!
//! - `bloom`, `codec`, `sizing`: the filter, its file, and the search for
//!   its size.
//! - `text`, `tokenize`, `units`, `shingle`, `intervals`, `ratio`: what the
//!   engines are built from.
//! - `paragraph`, `both`, `substring`, `exact`, `document`, `processor`:
//!   the engines and their choice.
//! - `task_queue`, `task_file`, `worker`, `lock`, `retry`, `paths`: what a
//!   worker decides around its tasks.
//! - `quality`, `filter`: measures of repetition for the quality filters.

pub mod bloom;
pub mod both;
pub mod codec;
pub mod document;
pub mod exact;
pub mod filter;
pub mod intervals;
pub mod lock;
pub mod paragraph;
pub mod paths;
pub mod processor;
pub mod quality;
pub mod ratio;
pub mod retry;
pub mod shingle;
pub mod sizing;
pub mod substring;
pub mod task_file;
pub mod task_queue;
pub mod text;
pub mod tokenize;
pub mod units;
pub mod worker;
