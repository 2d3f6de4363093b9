//! A PDF merge engine, verified end to end: documents are modelled
//! as object graphs of plain values, one merge step relabels an
//! incoming graph past the accumulating document's highest
//! identifier, splices its pages into the unified page tree behind
//! fresh proxy references, and rebuilds the tree's `Kids` and
//! `Count`.  The step's whole effect is pinned down by `spec_merge`,
//! and the laws module proves identifier uniqueness, page count and
//! order preservation, reference integrity, and the documented
//! degradation on a malformed root.

use vstd::prelude::*;

pub mod document;
pub mod laws;
pub mod merge;
pub mod object;
pub mod pages;

verus! {

} // verus!
