use vstd::prelude::*;

verus! {

/// Identifier of a node in the runtime's arena.
#[derive(Clone, Copy, Debug, PartialEq, Eq, Hash, Structural)]
pub struct NodeId(pub usize);

/// Identifier of a scope in the runtime's scope tree.
#[derive(Clone, Copy, Debug, PartialEq, Eq, Hash, Structural)]
pub struct ScopeId(pub usize);

/// The three kinds of reactive nodes.
#[derive(Clone, Copy, Debug, PartialEq, Eq, Structural)]
pub enum NodeKind {
    Signal,
    Memo,
    Effect,
}

/// Where a node stands in a propagation pass.
///
/// `Check`: an upstream node may change, so this node waits until it is known.
/// `Dirty`: a direct source changed, so this node must be evaluated again.
/// `Running`: the host is evaluating this node right now.
#[derive(Clone, Copy, Debug, PartialEq, Eq, Structural)]
pub enum NodeState {
    Clean,
    Check,
    Dirty,
    Running,
}

/// What the scheduler asks of the host next.
#[derive(Clone, Copy, Debug, PartialEq, Eq, Structural)]
pub enum Step {
    /// Evaluate this memo or effect, then report with `finish_memo` or `finish_effect`.
    Run(NodeId),
    /// Nothing is left to do in this pass.
    Idle,
    /// Work is pending but no node may run: a dependency cycle, or a node that
    /// already ran in this pass and was marked again.
    Stalled,
}

impl NodeKind {
    /// Whether a node of this kind runs a computation.
    pub fn is_computation(&self) -> (r: bool)
        ensures
            r <==> *self != NodeKind::Signal,
    {
        match self {
            NodeKind::Signal => false,
            _ => true,
        }
    }
}

/// A state waiting for propagation to reach it.
pub open spec fn pending(s: NodeState) -> bool {
    s == NodeState::Check || s == NodeState::Dirty
}

impl NodeState {
    pub fn is_pending(&self) -> (r: bool)
        ensures
            r == pending(*self),
    {
        match self {
            NodeState::Check => true,
            NodeState::Dirty => true,
            _ => false,
        }
    }
}

} // verus!
