use vstd::prelude::*;
use crate::node::ScopeId;
use vstd::std_specs::cmp::PartialEqSpec;
use crate::node::{NodeId, NodeKind, NodeState};
use crate::runtime::Runtime;

verus! {

/// At most one evaluation per pass: the scheduler hands a node out only if it
/// has not run in the current pass, and records it as run. Only a write made
/// while no computation runs starts a new pass and forgets that record (every
/// other operation, a write from inside a computation included, keeps
/// `ran_in_pass` or adds to it), so within a pass no node is evaluated twice,
/// however many paths lead to it.
pub proof fn lemma_run_at_most_once_per_pass<T, C>(o: &Runtime<T, C>, s: &Runtime<T, C>, n: NodeId)
    requires
        Runtime::run_started(o, s, n),
    ensures
        !o.ran_in_pass().contains(n.0),
        s.ran_in_pass().contains(n.0),
{
}

/// Glitch freedom: when a node is handed out, no node it read is still
/// waiting for propagation, so it never sees a mix of old and new values.
pub proof fn lemma_sources_settled_at_run<T, C>(o: &Runtime<T, C>, s: &Runtime<T, C>, n: NodeId, x: usize)
    requires
        Runtime::run_started(o, s, n),
        o.sources(n).contains(x),
    ensures
        s.state(NodeId(x)) != NodeState::Check,
        s.state(NodeId(x)) != NodeState::Dirty,
{
}

/// Change suppression: a memo that recomputes a value equal to its cached one
/// reports no change, keeps its value, and leaves every other node's state as
/// it was, so nothing downstream of it reruns on its account.
pub proof fn lemma_equal_value_suppresses<T: PartialEq, C>(
    o: &Runtime<T, C>,
    s: &Runtime<T, C>,
    n: NodeId,
    value: T,
    r: bool,
)
    requires
        Runtime::memo_finished(o, s, n, value, r),
        T::obeys_eq_spec(),
        o.value(n).is_some(),
        o.value(n).unwrap().eq_spec(&value),
    ensures
        !r,
        s.value(n) == o.value(n),
        forall|m: NodeId| o.has_node(m) && m != n ==> #[trigger] s.state(m) == o.state(m),
{
    assert forall|m: NodeId| o.has_node(m) && m != n implies #[trigger] s.state(m) == o.state(m) by {}
}

/// A changed memo marks exactly the nodes that read it.
pub proof fn lemma_changed_value_notifies<T: PartialEq, C>(
    o: &Runtime<T, C>,
    s: &Runtime<T, C>,
    n: NodeId,
    value: T,
    r: bool,
    m: NodeId,
)
    requires
        Runtime::memo_finished(o, s, n, value, r),
        T::obeys_eq_spec(),
        Runtime::<T, C>::differs(o.value(n), value),
        o.has_node(m),
        m != n,
        o.marked_by(m, n),
    ensures
        r,
        s.value(n) == Some(value),
        s.state(m) == NodeState::Dirty,
{
}

/// Untracked isolation, and writes to sources that are no longer read: a
/// write marks dirty only the nodes whose last evaluation read the written
/// signal while tracking. A node that did not read it is at most marked
/// `Check`, which the scheduler settles without running it (it runs only dirty
/// nodes). Untracked reads take the runtime by shared reference and so add no
/// edge.
pub proof fn lemma_write_spares_non_readers<T, C>(o: &Runtime<T, C>, s: &Runtime<T, C>, n: NodeId, value: T, m: NodeId)
    requires
        Runtime::written(o, s, n, value),
        o.has_node(m),
        !o.sources(m).contains(n.0),
        o.state(m) != NodeState::Dirty,
    ensures
        s.state(m) != NodeState::Dirty,
{
    assert(!o.marked_by(m, n));
}

/// Dependencies are rediscovered on every run: when a node starts to run, all
/// of its previous source edges are gone, and it is nobody's subscriber; a
/// tracked read then adds exactly the node read, so after the run its sources
/// are exactly the nodes it read while tracking in that run.
pub proof fn lemma_stale_edges_dropped<T, C>(o: &Runtime<T, C>, s: &Runtime<T, C>, n: NodeId, x: usize)
    requires
        Runtime::run_started(o, s, n),
    ensures
        !s.sources(n).contains(x),
        !s.subscribers(NodeId(x)).contains(n.0),
{
}

/// A node that is neither dirty nor running is not handed out to run.
pub proof fn lemma_only_dirty_nodes_run<T, C>(o: &Runtime<T, C>, s: &Runtime<T, C>, n: NodeId)
    requires
        Runtime::run_started(o, s, n),
    ensures
        o.state(n) == NodeState::Dirty,
        o.kind(n) != NodeKind::Signal,
{
}

} // verus!

verus! {

/// Disposal happens once: right after `cx` was disposed (`s` is the runtime
/// after the call, `o` the one before), disposing it again hands back no
/// callback, so each cleanup is handed out exactly once.
pub proof fn lemma_dispose_twice_hands_back_nothing<T, C>(o: &Runtime<T, C>, s: &Runtime<T, C>, cx: ScopeId)
    requires
        s.wf(),
        s.scope_count() == o.scope_count(),
        forall|sc: ScopeId| #![trigger s.disposed(sc)] o.has_scope(sc) ==> {
            &&& s.parent(sc) == o.parent(sc)
            &&& o.in_subtree(sc.0 as nat, cx.0 as nat) ==> s.disposed(sc)
        },
    ensures
        s.collected(cx.0 as nat, s.scope_count()) == Seq::<C>::empty(),
{
    assert forall|t: ScopeId| #[trigger] o.has_scope(t) implies s.parent(t) == o.parent(t) by {
        let d = s.disposed(t);
    }
    assert forall|t: nat| t < s.scope_count() && #[trigger] s.in_subtree(t, cx.0 as nat) implies s.disposed(ScopeId(t as usize)) by {
        s.lemma_counts_bounded();
        let sc = ScopeId(t as usize);
        assert(sc.0 as nat == t);
        assert(o.has_scope(sc));
        Runtime::lemma_subtree_stable(o, s, t, cx.0 as nat);
        let d = s.disposed(sc);
    }
    s.lemma_collected_empty(cx.0 as nat, s.scope_count());
}

} // verus!
