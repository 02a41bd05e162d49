//! In-memory page-state core of an ordered key-value store.
//!
//! Pages are represented as chains of immutable deltas ("frags") that are
//! folded into a materialized image: either a tree [`node::Node`] (a leaf or
//! an index page of a B-link tree) or a per-key multi-version chain
//! [`versions::Versions`] with pending/committed two-phase writes and
//! snapshot reads at a timestamp.

pub mod frag;
pub mod keys;
pub mod node;
pub mod versions;
