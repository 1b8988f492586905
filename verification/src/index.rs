//! The index's data model: document identities paired with their filters.

use vstd::prelude::*;
use crate::filter::XorFilter;

verus! {

/// Uniquely identifies one indexed document.
#[derive(Clone, Debug, Eq, Hash)]
pub struct PostId {
    /// Display title; also indexed with higher weight.
    pub title: String,
    /// Opaque locator; not tokenized for search.
    pub url: String,
    /// Pre-serialized auxiliary text, tokenized like body text.  Empty when
    /// the document carries no metadata.
    pub meta: String,
}

impl PartialEq for PostId {
    fn eq(&self, other: &PostId) -> bool {
        self.title == other.title && self.url == other.url && self.meta == other.meta
    }
}

impl vstd::std_specs::cmp::PartialEqSpecImpl for PostId {
    open spec fn obeys_eq_spec() -> bool {
        true
    }

    open spec fn eq_spec(&self, other: &PostId) -> bool {
        self.title@ == other.title@ && self.url@ == other.url@ && self.meta@ == other.meta@
    }
}

/// One document's identity together with its membership filter.
pub type PostFilter = (PostId, XorFilter);

/// The searchable artifact: an ordered sequence of document filters.
pub type SearchIndex = Vec<PostFilter>;

/// Every filter of the index is structurally sound.
pub open spec fn index_wf(index: Seq<PostFilter>) -> bool {
    forall|i: int| 0 <= i < index.len() ==> (#[trigger] index[i]).1.wf()
}

} // verus!
