//! An incremental scan-and-reconcile engine for extracting a structured
//! document from a flat, churning collection of identified content nodes.
//!
//! The scanner ([`scan`]) decides, step by step, which node to process
//! next, deduplicates re-surfaced nodes by id, filters grandchildren out
//! of direct-child lists, and applies the exhaustion heuristic; polling
//! and classifying the nodes is the caller's business. Its product is a
//! raw index ([`raw`]): a well-formed map from node id to classified
//! payload and direct-child ids. The reconciler ([`reconcile`]) turns
//! that flat map into an ordered, nested document tree, folding list
//! items into lists and merging adjacent same-kind lists at the top
//! level. The tree can then be rendered to Markdown ([`render`]), with
//! captured images named by content ([`image`]).

use vstd::prelude::*;

pub mod block;
pub mod image;
pub mod raw;
pub mod reconcile;
pub mod render;
pub mod scan;

verus! {

/// Stable integer identifier of a content node; ids ascend in document order.
pub type BlockId = i32;

} // verus!
