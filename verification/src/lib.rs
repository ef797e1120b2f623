//! Full-text inverted index for payload filtering.
//!
//! Text is tokenized into normalized tokens; for every token the index keeps a
//! posting list: the ids of the points whose text contains the token, strictly
//! ascending with no duplicates.  A mutable index supports incremental insert
//! and delete; a builder compacts it into an immutable index with compressed
//! posting lists, which can in turn be persisted as a versioned byte image and
//! reloaded.  A query executor answers conjunctive (AND) and phrase queries
//! over any of the backends, and a cardinality estimator returns cheap
//! (min, max) bounds on the match count without running the full query.

pub mod postings;
pub mod tokenizer;
pub mod mutable_index;
pub mod immutable_index;
pub mod query;
pub mod storage;
pub mod payload_index;
