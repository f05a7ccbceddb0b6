//! Scaffold planner: turns a flat sequence of path tokens into a
//! deduplicated, ordered, ancestor-closed set of relative paths.
//!
//! Tokens are grouped by a separator token; each group is walked with a
//! directory cursor, emitting the resolved path of every non-control token
//! together with all of its ancestors.  Classification of a path as
//! directory-like or file-like is a pure function of its final segment.

use vstd::prelude::*;

pub mod classify;
pub mod collect;
pub mod defaults;
pub mod grouping;
pub mod materialize;
pub mod paths;
pub mod sources;
pub mod text;

verus! {

/// The reserved group-separator token.
pub open spec fn sep_token() -> Seq<char> {
    seq![':']
}

} // verus!
