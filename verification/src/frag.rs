//! The frag delta language: the closed set of mutations applied to pages.
//!
//! A page is materialized by starting from its oldest frag (`Base` for a
//! tree node, `Versions` for a version chain) and folding every newer frag
//! into it in order. The position of each variant is stable and load-bearing
//! for the persistence layer: new variants may only be appended.

use vstd::prelude::*;

use crate::node::{Node, PageId};
use crate::versions::Versions;

verus! {

/// Database-level metadata: collection name to root page bindings.
#[derive(Clone, Debug)]
pub struct Meta {
    /// Collection name bytes paired with the collection's root page.
    pub collections: Vec<(Vec<u8>, PageId)>,
}

/// Payload of [`Frag::ParentSplit`]: a new child page `to` covers keys from
/// the separator `at` upward.
#[derive(Clone, Debug)]
pub struct ParentSplit {
    /// Raw separator key.
    pub at: Vec<u8>,
    /// Page that the new right child lives on.
    pub to: PageId,
}

/// Payload of [`Frag::ChildSplit`]: keys at or above `at` moved to the new
/// right-sibling page `to`.
#[derive(Clone, Debug)]
pub struct ChildSplit {
    /// Raw separator key.
    pub at: Vec<u8>,
    /// Page that the new right sibling lives on.
    pub to: PageId,
}

/// Payload of [`Frag::LeftNodeMerge`]: the left survivor absorbs its right
/// sibling's items, high bound and forward link.
#[derive(Clone, Debug)]
pub struct LeftMerge {
    /// High bound adopted from the absorbed right sibling.
    pub new_hi: Vec<u8>,
    /// Forward link adopted from the absorbed right sibling.
    pub new_next: Option<PageId>,
    /// The absorbed records.
    pub merged_items: Vec<(Vec<u8>, Vec<u8>)>,
}

/// An immutable delta applied to a page.
///
/// Never reorder variants or insert new ones in the middle: the ordinal
/// identity of each variant is part of the persistence contract, and
/// renumbering any existing variant invalidates stored data.
#[derive(Clone, Debug)]
pub enum Frag {
    /// Database-level metadata.
    Meta(Meta),
    /// A monotonic identifier generator snapshot.
    Counter(usize),
    /// A complete materialized tree node; always the oldest frag of a node
    /// chain.
    Base(Node),
    /// The left half of a split records that its upper keys moved right.
    ChildSplit(ChildSplit),
    /// An index parent learns that a new child covers a separator.
    ParentSplit(ParentSplit),
    /// A parent marks that a merge of the named child is in progress.
    InitialParentNodeMerge(PageId),
    /// A small node is frozen, ready to be absorbed by its left sibling.
    RightNodeMerge,
    /// The left sibling absorbs the frozen node's contents.
    LeftNodeMerge(LeftMerge),
    /// The parent clears the merge marker and drops the absorbed child.
    FinalParentNodeMerge(PageId),
    /// Bind a leaf key to the page of its version chain.
    InsertVersion(Vec<u8>, PageId),
    /// Unbind a leaf key from its version chain.
    RemoveVersion(Vec<u8>),
    /// A complete version chain; always the oldest frag of a chain page.
    Versions(Versions),
    /// Promote the pending version staged at this timestamp to committed.
    VersionCommit(u64),
    /// Stage a pending write of a value at a timestamp.
    VersionPendingSet(u64, Vec<u8>),
    /// Stage a pending merge of a value at a timestamp.
    VersionPendingMerge(u64, Vec<u8>),
    /// Stage a pending deletion at a timestamp.
    VersionPendingDel(u64),
}

impl Frag {
    /// The node image a `Base` frag carries.
    pub open spec fn spec_base(self) -> Node {
        match self {
            Frag::Base(n) => n,
            _ => arbitrary(),
        }
    }

    /// The version chain a `Versions` frag carries.
    pub open spec fn spec_versions(self) -> Versions {
        match self {
            Frag::Versions(v) => v,
            _ => arbitrary(),
        }
    }

    /// The metadata a `Meta` frag carries.
    pub open spec fn spec_meta(self) -> Meta {
        match self {
            Frag::Meta(m) => m,
            _ => arbitrary(),
        }
    }

    /// Borrows the node image of a `Base` frag.
    pub fn unwrap_base(&self) -> (r: &Node)
        requires
            self is Base,
        ensures
            *r == self.spec_base(),
    {
        match self {
            Frag::Base(base) => base,
            _ => unreached(),
        }
    }

    /// Borrows the version chain of a `Versions` frag.
    pub fn unwrap_versions(&self) -> (r: &Versions)
        requires
            self is Versions,
        ensures
            *r == self.spec_versions(),
    {
        match self {
            Frag::Versions(versions) => versions,
            _ => unreached(),
        }
    }

    /// Borrows the metadata of a `Meta` frag.
    pub fn unwrap_meta(&self) -> (r: &Meta)
        requires
            self is Meta,
        ensures
            *r == self.spec_meta(),
    {
        match self {
            Frag::Meta(meta) => meta,
            _ => unreached(),
        }
    }
}

} // verus!
