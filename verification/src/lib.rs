//! A tiny, verified search engine for static sites.
//!
//! The library turns a set of documents into one approximate membership
//! filter per document, packs the filters into an index with a stable
//! binary encoding, and answers ranked keyword queries against it.

use vstd::prelude::*;

pub mod tokenize;
pub mod filter;
pub mod index;
pub mod search;
pub mod storage;
pub mod api;
pub mod schema;
pub mod cuckoo;

pub use api::{BasicPost, BuildError, Post, TinySearch};
pub use cuckoo::{get_alt_index, get_fai, FaI, Fingerprint};
pub use filter::{valid, Score, XorFilter};
pub use index::{PostFilter, PostId, SearchIndex};
pub use schema::{SearchSchema, SearchSchemaConfig};
pub use search::search;
pub use storage::{DecodeError, Storage};

verus! {

/// The character sequences of a sequence of strings.
pub open spec fn views_of(v: Seq<String>) -> Seq<Seq<char>> {
    v.map_values(|s: String| s@)
}

/// The set of character sequences of a sequence of strings.
pub open spec fn view_set_of(v: Seq<String>) -> Set<Seq<char>> {
    views_of(v).to_set()
}

} // verus!
