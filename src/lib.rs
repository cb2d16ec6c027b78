//! A content-addressed store: values become blobs keyed by the digest of
//! their bytes, so equal content is kept once, and a tree of values becomes a
//! Merkle DAG whose root digest can later be turned back into the value.
use vstd::prelude::*;

pub mod backend;
pub mod cache;
pub mod digest;
pub mod node;
pub mod protocol;
pub mod store;

verus! {

} // verus!
