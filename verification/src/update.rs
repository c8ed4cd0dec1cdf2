//! Proposals to grow a tree.
use crate::response::LeafProposal;
use vstd::prelude::*;

verus! {

/// What becomes of a node that could be split.
#[derive(Clone, Debug)]
pub enum MutationDecision {
    Accept(TreeProposal),
    Reject,
}

/// All that is needed to split a node. Which samples are affected the particle knows.
#[derive(Clone, Debug)]
pub struct TreeProposal {
    pub leaf_proposal: LeafProposal,
}

} // verus!
