//! A content-addressed storage engine in two layers: a content-defined
//! chunker and Merkle-DAG builder that turn a byte stream into
//! hash-addressed immutable blocks under a single root descriptor, and a
//! page-oriented key-value store that persists those blocks on top of a
//! pluggable append-only object heap.

use vstd::prelude::*;

pub mod bytes;
pub mod chunk;
pub mod codec;
pub mod content_id;
pub mod dag;
pub mod heap;
pub mod kvlist;
pub mod quarry;
pub mod store;

verus! {

} // verus!
