use vstd::prelude::*;
use crate::node::{pending, NodeId, NodeKind, NodeState, ScopeId, Step};
use vstd::std_specs::cmp::PartialEqSpec;

verus! {

/// One node of the arena: a signal, a memo or an effect.
pub struct Node<T> {
    pub kind: NodeKind,
    pub scope: usize,
    pub alive: bool,
    pub state: NodeState,
    /// The current value of a signal or memo; a memo has none only during its first run.
    pub value: Option<T>,
    /// The nodes read, tracked, during the last evaluation.
    pub sources: Vec<usize>,
}

/// One scope of the ownership tree; `C` is the host's cleanup callback.
pub struct ScopeData<C> {
    pub parent: Option<usize>,
    pub children: Vec<usize>,
    pub cleanups: Vec<C>,
    pub nodes: Vec<usize>,
    pub disposed: bool,
}

/// The reactive runtime: the node arena, the scope tree, the observer stack and
/// the dirtiness state that drives propagation. Every signal and memo of one
/// runtime holds a value of the same type `T`; a host that needs several value
/// types uses an enum of them as `T`.
///
/// The runtime does the bookkeeping and the scheduling; the host evaluates each
/// computation when `next_to_run` hands it out, reading other nodes through the
/// runtime while it does.
pub struct Runtime<T, C> {
    nodes: Vec<Node<T>>,
    scopes: Vec<ScopeData<C>>,
    observer: Vec<usize>,
    ran: Vec<bool>,
}

impl<T, C> Runtime<T, C> {
    pub closed spec fn node_count(&self) -> nat {
        self.nodes@.len()
    }

    pub closed spec fn scope_count(&self) -> nat {
        self.scopes@.len()
    }

    pub open spec fn has_node(&self, n: NodeId) -> bool {
        n.0 < self.node_count()
    }

    pub open spec fn has_scope(&self, s: ScopeId) -> bool {
        s.0 < self.scope_count()
    }

    pub closed spec fn alive(&self, n: NodeId) -> bool {
        self.nodes@[n.0 as int].alive
    }

    pub closed spec fn kind(&self, n: NodeId) -> NodeKind {
        self.nodes@[n.0 as int].kind
    }

    pub closed spec fn state(&self, n: NodeId) -> NodeState {
        self.nodes@[n.0 as int].state
    }

    pub closed spec fn value(&self, n: NodeId) -> Option<T> {
        self.nodes@[n.0 as int].value
    }

    pub closed spec fn owner(&self, n: NodeId) -> ScopeId {
        ScopeId(self.nodes@[n.0 as int].scope)
    }

    /// The nodes that `n` read, tracked, during its last (or current) evaluation.
    pub closed spec fn sources(&self, n: NodeId) -> Set<usize> {
        self.nodes@[n.0 as int].sources@.to_set()
    }

    /// The live nodes that read `n` while tracking.
    pub open spec fn subscribers(&self, n: NodeId) -> Set<usize> {
        Set::new(|m: usize| self.has_node(NodeId(m)) && self.alive(NodeId(m)) && self.sources(NodeId(m)).contains(n.0))
    }

    /// The nodes being evaluated, innermost last.
    pub closed spec fn observers(&self) -> Seq<usize> {
        self.observer@
    }

    /// The nodes handed out to run since the last write.
    pub closed spec fn ran_in_pass(&self) -> Set<usize> {
        Set::new(|m: usize| m < self.ran@.len() && self.ran@[m as int])
    }

    pub closed spec fn disposed(&self, s: ScopeId) -> bool {
        self.scopes@[s.0 as int].disposed
    }

    pub closed spec fn cleanups(&self, s: ScopeId) -> Seq<C> {
        self.scopes@[s.0 as int].cleanups@
    }

    pub closed spec fn parent(&self, s: ScopeId) -> Option<usize> {
        self.scopes@[s.0 as int].parent
    }

    pub closed spec fn children(&self, s: ScopeId) -> Seq<usize> {
        self.scopes@[s.0 as int].children@
    }

    pub closed spec fn owned(&self, s: ScopeId) -> Seq<usize> {
        self.scopes@[s.0 as int].nodes@
    }

    /// A node is live exactly while its owning scope is not disposed.
    pub closed spec fn node_link(&self, i: int) -> bool {
        let n = self.nodes@[i];
        n.alive <==> !self.scopes@[n.scope as int].disposed
    }

    pub closed spec fn node_wf(&self, i: int) -> bool {
        self.node_core(i) && self.node_link(i)
    }

    pub closed spec fn node_core(&self, i: int) -> bool {
        let n = self.nodes@[i];
        &&& n.scope < self.scopes@.len()
        &&& forall|j: int| 0 <= j < n.sources@.len() ==> #[trigger] n.sources@[j] < self.nodes@.len()
        &&& n.kind == NodeKind::Signal ==> n.state == NodeState::Clean && n.sources@.len() == 0
            && (n.alive ==> n.value.is_some())
        &&& !n.alive ==> n.state == NodeState::Clean && n.sources@.len() == 0
        &&& n.alive && n.kind == NodeKind::Memo && n.value.is_none() ==> n.state == NodeState::Running
    }

    pub closed spec fn scope_wf(&self, s: int) -> bool {
        let sc = self.scopes@[s];
        &&& sc.parent.is_some() ==> sc.parent.unwrap() < s
        &&& forall|j: int| 0 <= j < sc.children@.len() ==> s < #[trigger] sc.children@[j] < self.scopes@.len()
        &&& forall|j: int| 0 <= j < sc.nodes@.len() ==> #[trigger] sc.nodes@[j] < self.nodes@.len()
        &&& sc.disposed ==> sc.cleanups@.len() == 0
    }

    /// The invariant but for the link between a node's life and its scope,
    /// which disposal restores only at its end.
    pub closed spec fn wf_core(&self) -> bool {
        &&& self.ran@.len() == self.nodes@.len()
        &&& self.nodes@.len() < usize::MAX
        &&& self.scopes@.len() < usize::MAX
        &&& forall|i: int| 0 <= i < self.nodes@.len() ==> #[trigger] self.node_core(i)
        &&& forall|s: int| 0 <= s < self.scopes@.len() ==> #[trigger] self.scope_wf(s)
        &&& forall|k: int| 0 <= k < self.observer@.len() ==> #[trigger] self.observer@[k] < self.nodes@.len()
    }

    proof fn lemma_wf_core(&self)
        requires
            self.wf(),
        ensures
            self.wf_core(),
    {
        assert forall|i: int| 0 <= i < self.nodes@.len() implies #[trigger] self.node_core(i) by {
            assert(self.node_wf(i));
        }
    }

    /// The runtime's invariant.
    pub closed spec fn wf(&self) -> bool {
        &&& self.ran@.len() == self.nodes@.len()
        &&& self.nodes@.len() < usize::MAX
        &&& self.scopes@.len() < usize::MAX
        &&& forall|i: int| 0 <= i < self.nodes@.len() ==> #[trigger] self.node_wf(i)
        &&& forall|s: int| 0 <= s < self.scopes@.len() ==> #[trigger] self.scope_wf(s)
        &&& forall|k: int| 0 <= k < self.observer@.len() ==> #[trigger] self.observer@[k] < self.nodes@.len()
    }

    /// A fresh runtime with one root scope.
    pub fn new() -> (r: (Self, ScopeId))
        ensures
            r.0.wf(),
            r.0.node_count() == 0,
            r.0.scope_count() == 1,
            r.1 == ScopeId(0),
            r.0.parent(r.1).is_none(),
            !r.0.disposed(r.1),
            r.0.cleanups(r.1).len() == 0,
            r.0.observers().len() == 0,
    {
        let mut scopes: Vec<ScopeData<C>> = Vec::new();
        scopes.push(ScopeData { parent: None, children: Vec::new(), cleanups: Vec::new(), nodes: Vec::new(), disposed: false });
        let rt = Runtime { nodes: Vec::new(), scopes, observer: Vec::new(), ran: Vec::new() };
        (rt, ScopeId(0))
    }

    /// The arena entry of `n` is the same in `self` as in `o`.
    pub closed spec fn same_node(&self, o: &Self, n: usize) -> bool {
        self.nodes@[n as int] == o.nodes@[n as int]
    }

    /// What can be observed of node `m` is the same in `self` as in `o`.
    pub open spec fn node_view_same(&self, o: &Self, m: NodeId) -> bool {
        &&& self.alive(m) == o.alive(m)
        &&& self.kind(m) == o.kind(m)
        &&& self.state(m) == o.state(m)
        &&& self.value(m) == o.value(m)
        &&& self.sources(m) == o.sources(m)
        &&& self.owner(m) == o.owner(m)
    }

    /// A node that a change leaves in place looks the same afterwards.
    pub proof fn lemma_kept_view(s: &Self, o: &Self, except: Set<usize>, m: NodeId)
        requires
            s.nodes_kept(o, except),
            o.has_node(m),
            !except.contains(m.0),
        ensures
            s.node_view_same(o, m),
    {
        assert(s.same_node(o, m.0));
    }

    /// The arena holds at least the nodes of `o`, and each of them but those in
    /// `except` is as it was.
    pub open spec fn nodes_kept(&self, o: &Self, except: Set<usize>) -> bool {
        &&& self.node_count() >= o.node_count()
        &&& forall|m: usize| #![trigger self.same_node(o, m)] m < o.node_count() && !except.contains(m) ==> self.same_node(o, m)
    }

    /// The scope tree and every scope's entry are as in `o`.
    pub open spec fn scopes_same(&self, o: &Self) -> bool {
        &&& self.scope_count() == o.scope_count()
        &&& forall|sc: ScopeId| #![trigger self.disposed(sc)] o.has_scope(sc) ==> {
            &&& self.disposed(sc) == o.disposed(sc)
            &&& self.cleanups(sc) == o.cleanups(sc)
            &&& self.owned(sc) == o.owned(sc)
            &&& self.parent(sc) == o.parent(sc)
            &&& self.children(sc) == o.children(sc)
        }
    }

    proof fn lemma_scopes_same(&self, o: &Self)
        requires
            self.scopes == o.scopes,
        ensures
            self.scopes_same(o),
    {
    }

    /// Two changes in a row leave in place what neither of them names.
    pub proof fn lemma_kept_compose(a: &Self, b: &Self, c: &Self, e1: Set<usize>, e2: Set<usize>)
        requires
            b.nodes_kept(a, e1),
            c.nodes_kept(b, e2),
        ensures
            c.nodes_kept(a, e1.union(e2)),
    {
        assert forall|m: usize| #![trigger c.same_node(a, m)] m < a.node_count() && !e1.union(e2).contains(m) implies c.same_node(a, m) by {
            assert(b.same_node(a, m));
            assert(c.same_node(b, m));
        }
    }

    /// A change that names only nodes it created leaves every earlier node in place.
    pub proof fn lemma_kept_fresh(s: &Self, o: &Self, e: Set<usize>)
        requires
            s.nodes_kept(o, e),
            forall|x: usize| #[trigger] e.contains(x) ==> x >= o.node_count(),
        ensures
            s.nodes_kept(o, Set::empty()),
    {
        assert forall|m: usize| #![trigger s.same_node(o, m)] m < o.node_count() && !Set::<usize>::empty().contains(m) implies s.same_node(o, m) by {
            assert(!e.contains(m));
        }
    }

    /// Allocates a scope, linked under `parent` when one is given.
    pub fn create_scope(&mut self, parent: Option<ScopeId>) -> (r: ScopeId)
        requires
            old(self).wf(),
            parent.is_some() ==> old(self).has_scope(parent.unwrap()),
            old(self).scope_count() + 1 < usize::MAX,
        ensures
            final(self).wf(),
            r.0 == old(self).scope_count(),
            final(self).scope_count() == old(self).scope_count() + 1,
            final(self).parent(r) == (match parent { Some(p) => Some(p.0), None => None }),
            !final(self).disposed(r),
            final(self).cleanups(r).len() == 0,
            final(self).children(r).len() == 0,
            parent.is_some() ==> final(self).children(parent.unwrap()) == old(self).children(parent.unwrap()).push(r.0),
            forall|s: ScopeId| #![trigger final(self).disposed(s)] old(self).has_scope(s) ==>
                final(self).disposed(s) == old(self).disposed(s) && final(self).cleanups(s) == old(self).cleanups(s),
            final(self).nodes_kept(old(self), Set::empty()),
            final(self).node_count() == old(self).node_count(),
            final(self).observers() == old(self).observers(),
            final(self).ran_in_pass() == old(self).ran_in_pass(),
    {
        let id = self.scopes.len();
        let p = match parent { Some(p) => Some(p.0), None => None };
        self.scopes.push(ScopeData { parent: p, children: Vec::new(), cleanups: Vec::new(), nodes: Vec::new(), disposed: false });
        if let Some(p) = parent {
            self.scopes[p.0].children.push(id);
        }
        proof {
            assert forall|s: int| 0 <= s < self.scopes@.len() implies #[trigger] self.scope_wf(s) by {
                if s < old(self).scopes@.len() {
                    assert(old(self).scope_wf(s));
                }
            }
            assert forall|i: int| 0 <= i < self.nodes@.len() implies #[trigger] self.node_wf(i) by {
                assert(old(self).node_wf(i));
            }
        }
        ScopeId(id)
    }

    /// Registers `callback` to run when `cx` is disposed. On a scope that is
    /// already disposed nothing is registered and the callback is handed back.
    pub fn on_cleanup(&mut self, cx: ScopeId, callback: C) -> (r: Option<C>)
        requires
            old(self).wf(),
            old(self).has_scope(cx),
        ensures
            final(self).wf(),
            old(self).disposed(cx) ==> r == Some(callback) && final(self).cleanups(cx) == old(self).cleanups(cx),
            !old(self).disposed(cx) ==> r.is_none() && final(self).cleanups(cx) == old(self).cleanups(cx).push(callback),
            final(self).scope_count() == old(self).scope_count(),
            forall|s: ScopeId| #![trigger final(self).disposed(s)] old(self).has_scope(s) ==>
                final(self).disposed(s) == old(self).disposed(s) && (s != cx ==> final(self).cleanups(s) == old(self).cleanups(s)),
            final(self).nodes_kept(old(self), Set::empty()),
            final(self).node_count() == old(self).node_count(),
            final(self).observers() == old(self).observers(),
            final(self).ran_in_pass() == old(self).ran_in_pass(),
    {
        if self.scopes[cx.0].disposed {
            return Some(callback);
        }
        self.scopes[cx.0].cleanups.push(callback);
        proof {
            assert forall|s: int| 0 <= s < self.scopes@.len() implies #[trigger] self.scope_wf(s) by {
                assert(old(self).scope_wf(s));
            }
            assert forall|i: int| 0 <= i < self.nodes@.len() implies #[trigger] self.node_wf(i) by {
                assert(old(self).node_wf(i));
            }
        }
        None
    }

    /// Appends a node to the arena and to its scope's list.
    fn alloc_node(&mut self, kind: NodeKind, cx: ScopeId, state: NodeState, value: Option<T>) -> (r: usize)
        requires
            old(self).wf(),
            old(self).has_scope(cx),
            !old(self).disposed(cx),
            old(self).node_count() + 1 < usize::MAX,
            kind == NodeKind::Signal ==> state == NodeState::Clean && value.is_some(),
            kind == NodeKind::Memo && value.is_none() ==> state == NodeState::Running,
        ensures
            final(self).wf(),
            r == old(self).node_count(),
            final(self).node_count() == old(self).node_count() + 1,
            final(self).nodes_kept(old(self), Set::empty()),
            final(self).alive(NodeId(r)),
            final(self).kind(NodeId(r)) == kind,
            final(self).state(NodeId(r)) == state,
            final(self).value(NodeId(r)) == value,
            final(self).owner(NodeId(r)) == cx,
            final(self).sources(NodeId(r)) == Set::<usize>::empty(),
            final(self).owned(cx) == old(self).owned(cx).push(r),
            final(self).scope_count() == old(self).scope_count(),
            forall|s: ScopeId| #![trigger final(self).disposed(s)] old(self).has_scope(s) ==>
                final(self).disposed(s) == old(self).disposed(s) && final(self).cleanups(s) == old(self).cleanups(s),
            final(self).observers() == old(self).observers(),
            final(self).ran_in_pass() == old(self).ran_in_pass(),
    {
        let id = self.nodes.len();
        self.nodes.push(Node { kind, scope: cx.0, alive: true, state, value, sources: Vec::new() });
        self.ran.push(false);
        self.scopes[cx.0].nodes.push(id);
        proof {
            assert forall|s: int| 0 <= s < self.scopes@.len() implies #[trigger] self.scope_wf(s) by {
                assert(old(self).scope_wf(s));
            }
            assert forall|i: int| 0 <= i < self.nodes@.len() implies #[trigger] self.node_wf(i) by {
                if i < old(self).nodes@.len() {
                    assert(old(self).node_wf(i));
                }
            }
            assert(self.nodes@[id as int].sources@.to_set() =~= Set::<usize>::empty());
            assert(self.ran_in_pass() =~= old(self).ran_in_pass());
        }
        id
    }

    /// Allocates a signal owned by `cx` that holds `value`; `None` where `cx` is disposed.
    pub fn create_signal(&mut self, cx: ScopeId, value: T) -> (r: Option<NodeId>)
        requires
            old(self).wf(),
            old(self).has_scope(cx),
            old(self).node_count() + 1 < usize::MAX,
        ensures
            final(self).wf(),
            final(self).scope_count() == old(self).scope_count(),
            forall|s: ScopeId| #![trigger final(self).disposed(s)] old(self).has_scope(s) ==>
                final(self).disposed(s) == old(self).disposed(s) && final(self).cleanups(s) == old(self).cleanups(s),
            final(self).ran_in_pass() == old(self).ran_in_pass(),
            old(self).disposed(cx) ==> r.is_none() && *final(self) == *old(self),
            !old(self).disposed(cx) ==> r == Some(NodeId(old(self).node_count() as usize)) && {
                let n = r.unwrap();
                &&& final(self).node_count() == old(self).node_count() + 1
                &&& final(self).nodes_kept(old(self), Set::empty())
                &&& final(self).alive(n) && final(self).kind(n) == NodeKind::Signal
                &&& final(self).value(n) == Some(value)
                &&& final(self).state(n) == NodeState::Clean
                &&& final(self).owner(n) == cx
                &&& final(self).observers() == old(self).observers()
            },
    {
        if self.scopes[cx.0].disposed {
            return None;
        }
        let id = self.alloc_node(NodeKind::Signal, cx, NodeState::Clean, Some(value));
        Some(NodeId(id))
    }

    /// Allocates a memo or an effect owned by `cx` and starts its first
    /// evaluation: the node is pushed on the observer stack, and the host
    /// computes it and reports with `finish_memo` or `finish_effect`.
    fn start_computation(&mut self, kind: NodeKind, cx: ScopeId) -> (r: Option<NodeId>)
        requires
            old(self).wf(),
            old(self).has_scope(cx),
            old(self).node_count() + 1 < usize::MAX,
            kind != NodeKind::Signal,
        ensures
            final(self).wf(),
            final(self).scope_count() == old(self).scope_count(),
            forall|s: ScopeId| #![trigger final(self).disposed(s)] old(self).has_scope(s) ==>
                final(self).disposed(s) == old(self).disposed(s) && final(self).cleanups(s) == old(self).cleanups(s),
            final(self).ran_in_pass() == old(self).ran_in_pass(),
            old(self).disposed(cx) ==> r.is_none() && *final(self) == *old(self),
            !old(self).disposed(cx) ==> r == Some(NodeId(old(self).node_count() as usize)) && {
                let n = r.unwrap();
                &&& final(self).node_count() == old(self).node_count() + 1
                &&& final(self).nodes_kept(old(self), Set::empty())
                &&& final(self).alive(n) && final(self).kind(n) == kind
                &&& final(self).value(n).is_none()
                &&& final(self).state(n) == NodeState::Running
                &&& final(self).sources(n) == Set::<usize>::empty()
                &&& final(self).owner(n) == cx
                &&& final(self).observers() == old(self).observers().push(n.0)
            },
    {
        if self.scopes[cx.0].disposed {
            return None;
        }
        let id = self.alloc_node(kind, cx, NodeState::Running, None);
        let ghost mid = *self;
        self.observer.push(id);
        proof {
            assert forall|i: int| 0 <= i < self.nodes@.len() implies #[trigger] self.node_wf(i) by {
                assert(mid.node_wf(i));
            }
            assert forall|s: int| 0 <= s < self.scopes@.len() implies #[trigger] self.scope_wf(s) by {
                assert(mid.scope_wf(s));
            }
            assert forall|m: usize| #![trigger self.same_node(old(self), m)] m < old(self).node_count() implies self.same_node(old(self), m) by {
                assert(mid.same_node(old(self), m));
            }
            assert forall|sc: ScopeId| #![trigger self.disposed(sc)] old(self).has_scope(sc) implies
                self.disposed(sc) == old(self).disposed(sc) && self.cleanups(sc) == old(self).cleanups(sc) by {
                assert(mid.disposed(sc) == old(self).disposed(sc));
            }
        }
        Some(NodeId(id))
    }

    /// Allocates an effect owned by `cx` and starts its first run at once.
    pub fn create_effect(&mut self, cx: ScopeId) -> (r: Option<NodeId>)
        requires
            old(self).wf(),
            old(self).has_scope(cx),
            old(self).node_count() + 1 < usize::MAX,
        ensures
            final(self).wf(),
            final(self).scope_count() == old(self).scope_count(),
            forall|s: ScopeId| #![trigger final(self).disposed(s)] old(self).has_scope(s) ==>
                final(self).disposed(s) == old(self).disposed(s) && final(self).cleanups(s) == old(self).cleanups(s),
            final(self).ran_in_pass() == old(self).ran_in_pass(),
            old(self).disposed(cx) ==> r.is_none() && *final(self) == *old(self),
            !old(self).disposed(cx) ==> r == Some(NodeId(old(self).node_count() as usize)) && {
                let n = r.unwrap();
                &&& final(self).node_count() == old(self).node_count() + 1
                &&& final(self).nodes_kept(old(self), Set::empty())
                &&& final(self).alive(n) && final(self).kind(n) == NodeKind::Effect
                &&& final(self).state(n) == NodeState::Running
                &&& final(self).sources(n) == Set::<usize>::empty()
                &&& final(self).owner(n) == cx
                &&& final(self).observers() == old(self).observers().push(n.0)
            },
    {
        self.start_computation(NodeKind::Effect, cx)
    }

    /// Whether `m` is a live computation, not running now, that read `n`:
    /// the nodes that a change of `n` marks dirty.
    pub open spec fn marked_by(&self, m: NodeId, n: NodeId) -> bool {
        &&& self.alive(m)
        &&& self.kind(m) != NodeKind::Signal
        &&& self.state(m) != NodeState::Running
        &&& self.sources(m).contains(n.0)
    }

    /// Everything in `self` is as in `o` but for the nodes' states.
    pub closed spec fn states_only(&self, o: &Self) -> bool {
        &&& self.nodes@.len() == o.nodes@.len()
        &&& self.scopes == o.scopes
        &&& self.observer == o.observer
        &&& self.ran == o.ran
        &&& forall|m: int| 0 <= m < self.nodes@.len() ==> #[trigger] self.same_but_state(o, m)
    }

    pub closed spec fn same_links(&self, o: &Self, m: int) -> bool {
        let a = self.nodes@[m];
        let b = o.nodes@[m];
        &&& a.kind == b.kind
        &&& a.scope == b.scope
        &&& a.alive == b.alive
        &&& a.sources@ == b.sources@
    }

    pub closed spec fn same_but_state(&self, o: &Self, m: int) -> bool {
        let a = self.nodes@[m];
        let b = o.nodes@[m];
        &&& a.kind == b.kind
        &&& a.scope == b.scope
        &&& a.alive == b.alive
        &&& a.value == b.value
        &&& a.sources@ == b.sources@
    }

    /// Whether some source of `m` waits for propagation.
    pub open spec fn has_pending_source(&self, m: NodeId) -> bool {
        exists|s: usize| #[trigger] self.sources(m).contains(s) && pending(self.state(NodeId(s)))
    }

    /// Whether some node waits for propagation.
    pub open spec fn any_pending(&self) -> bool {
        exists|m: usize| m < self.node_count() && #[trigger] pending(self.state(NodeId(m)))
    }

    proof fn lemma_states_only_wf(&self, o: &Self)
        requires
            o.wf(),
            self.states_only(o),
            forall|m: int| 0 <= m < self.nodes@.len() ==> {
                let a = #[trigger] self.nodes@[m];
                let b = o.nodes@[m];
                a.state == b.state || (a.alive && a.kind != NodeKind::Signal && b.state != NodeState::Running
                    && a.state != NodeState::Running)
            },
        ensures
            self.wf(),
    {
        assert forall|i: int| 0 <= i < self.nodes@.len() implies #[trigger] self.node_wf(i) by {
            assert(o.node_wf(i));
            assert(self.same_but_state(o, i));
            let a = self.nodes@[i];
            assert(forall|j: int| 0 <= j < a.sources@.len() ==> a.sources@[j] == o.nodes@[i].sources@[j]);
        }
        assert forall|sc: int| 0 <= sc < self.scopes@.len() implies #[trigger] self.scope_wf(sc) by {
            assert(o.scope_wf(sc));
        }
    }

    /// Whether some source of node `i` waits for propagation.
    fn pending_source(&self, i: usize) -> (r: bool)
        requires
            self.wf(),
            i < self.node_count(),
        ensures
            r == self.has_pending_source(NodeId(i)),
    {
        let srcs = &self.nodes[i].sources;
        let mut j: usize = 0;
        proof {
            assert(self.node_wf(i as int));
        }
        while j < srcs.len()
            invariant
                self.wf(),
                i < self.node_count(),
                srcs == &self.nodes@[i as int].sources,
                j <= srcs@.len(),
                forall|k: int| 0 <= k < j ==> !pending(#[trigger] self.nodes@[srcs@[k] as int].state),
            decreases srcs@.len() - j,
        {
            proof {
                assert(self.node_wf(i as int));
            }
            let s = srcs[j];
            if self.nodes[s].state.is_pending() {
                proof {
                    assert(srcs@.contains(s));
                    assert(self.sources(NodeId(i)).contains(s));
                }
                return true;
            }
            j += 1;
        }
        proof {
            assert forall|s: usize| #[trigger] self.sources(NodeId(i)).contains(s) implies !pending(self.state(NodeId(s))) by {
                let k = choose|k: int| 0 <= k < srcs@.len() && srcs@[k] == s;
                assert(!pending(self.nodes@[srcs@[k] as int].state));
            }
        }
        false
    }

    /// Marks dirty every node that a change of `n` reaches directly.
    fn mark_subscribers(&mut self, n: NodeId)
        requires
            old(self).wf(),
            old(self).has_node(n),
        ensures
            final(self).wf(),
            final(self).states_only(old(self)),
            forall|m: NodeId| #![trigger final(self).state(m)] old(self).has_node(m) ==>
                final(self).state(m) == (if old(self).marked_by(m, n) { NodeState::Dirty } else { old(self).state(m) }),
    {
        let len = self.nodes.len();
        let mut i: usize = 0;
        while i < len
            invariant
                len == old(self).nodes@.len(),
                i <= len,
                self.states_only(old(self)),
                old(self).wf(),
                forall|m: int| 0 <= m < i ==> #[trigger] self.nodes@[m].state
                    == (if old(self).marked_by(NodeId(m as usize), n) { NodeState::Dirty } else { old(self).nodes@[m].state }),
                forall|m: int| i <= m < len ==> #[trigger] self.nodes@[m].state == old(self).nodes@[m].state,
            decreases len - i,
        {
            let node = &self.nodes[i];
            let hit = node.alive && node.kind.is_computation() && node.state != NodeState::Running
                && contains(&node.sources, n.0);
            proof {
                assert(self.same_but_state(old(self), i as int));
                assert(self.nodes@[i as int].sources@.to_set().contains(n.0) == self.nodes@[i as int].sources@.contains(n.0));
            }
            if hit {
                let ghost pre = *self;
                self.nodes[i].state = NodeState::Dirty;
                proof {
                    assert forall|m: int| 0 <= m < self.nodes@.len() implies #[trigger] self.same_but_state(old(self), m) by {
                        assert(pre.same_but_state(old(self), m));
                        if m != i as int {
                            assert(self.nodes@[m] == pre.nodes@[m]);
                        }
                    }
                }
            }
            i += 1;
        }
        proof {
            assert forall|m: int| 0 <= m < self.nodes@.len() implies {
                let a = #[trigger] self.nodes@[m];
                let b = old(self).nodes@[m];
                a.state == b.state || (a.alive && a.kind != NodeKind::Signal && b.state != NodeState::Running
                    && a.state != NodeState::Running)
            } by {
                assert(self.same_but_state(old(self), m));
            }
            self.lemma_states_only_wf(old(self));
        }
    }
    /// Each node's state is as in `o`, or went from clean to check on a live computation.
    pub open spec fn checks_only(&self, o: &Self) -> bool {
        forall|m: NodeId| #![trigger self.state(m)] o.has_node(m) ==> self.state(m) == o.state(m) || (
            o.state(m) == NodeState::Clean && self.state(m) == NodeState::Check && self.alive(m)
                && self.kind(m) != NodeKind::Signal)
    }

    /// Marks `Check` every clean computation downstream of a pending node, sweep
    /// after sweep, until a sweep marks nothing; a chain of dependencies is no
    /// longer than the arena, so as many sweeps as nodes suffice.
    fn mark_checks(&mut self)
        requires
            old(self).wf(),
        ensures
            final(self).wf(),
            final(self).states_only(old(self)),
            final(self).checks_only(old(self)),
    {
        let len = self.nodes.len();
        let mut round: usize = 0;
        let mut changed = true;
        while changed && round < len
            invariant
                len == old(self).nodes@.len(),
                self.wf(),
                self.states_only(old(self)),
                self.checks_only(old(self)),
            decreases len - round,
        {
            changed = false;
            let mut i: usize = 0;
            while i < len
                invariant
                    len == old(self).nodes@.len(),
                    i <= len,
                    self.wf(),
                    self.states_only(old(self)),
                    self.checks_only(old(self)),
                decreases len - i,
            {
                if self.nodes[i].alive && self.nodes[i].kind.is_computation() && self.nodes[i].state == NodeState::Clean
                    && self.pending_source(i) {
                    let ghost pre = *self;
                    self.nodes[i].state = NodeState::Check;
                    proof {
                        assert forall|m: int| 0 <= m < self.nodes@.len() implies #[trigger] self.same_but_state(old(self), m) by {
                            assert(pre.same_but_state(old(self), m));
                            if m != i as int {
                                assert(self.nodes@[m] == pre.nodes@[m]);
                            }
                        }
                        assert forall|m: NodeId| #![trigger self.state(m)] old(self).has_node(m) implies self.state(m) == old(self).state(m) || (
                            old(self).state(m) == NodeState::Clean && self.state(m) == NodeState::Check && self.alive(m)
                                && self.kind(m) != NodeKind::Signal) by {
                            assert(pre.state(m) == old(self).state(m) || pre.state(m) == NodeState::Check);
                            assert(self.same_but_state(old(self), m.0 as int));
                        }
                        assert forall|m: int| 0 <= m < self.nodes@.len() implies {
                            let a = #[trigger] self.nodes@[m];
                            let b = pre.nodes@[m];
                            a.state == b.state || (a.alive && a.kind != NodeKind::Signal && b.state != NodeState::Running
                                && a.state != NodeState::Running)
                        } by {
                            assert(pre.same_but_state(old(self), m));
                        }
                        assert(self.states_only(&pre)) by {
                            assert forall|m: int| 0 <= m < self.nodes@.len() implies #[trigger] self.same_but_state(&pre, m) by {
                                assert(pre.same_but_state(old(self), m));
                                assert(self.same_but_state(old(self), m));
                            }
                        }
                        self.lemma_states_only_wf(&pre);
                    }
                    changed = true;
                }
                i += 1;
            }
            round += 1;
        }
    }

    /// Forgets which nodes ran: a write starts a new pass.
    fn start_pass(&mut self)
        requires
            old(self).wf(),
        ensures
            final(self).wf(),
            final(self).nodes == old(self).nodes,
            final(self).scopes == old(self).scopes,
            final(self).observer == old(self).observer,
            final(self).ran_in_pass() == Set::<usize>::empty(),
    {
        let mut i: usize = 0;
        while i < self.ran.len()
            invariant
                self.wf(),
                self.nodes == old(self).nodes,
                self.scopes == old(self).scopes,
                self.observer == old(self).observer,
                i <= self.ran@.len(),
                forall|k: int| 0 <= k < i ==> !self.ran@[k],
            decreases self.ran@.len() - i,
        {
            let ghost pre = *self;
            self.ran.set(i, false);
            proof {
                assert forall|k: int| 0 <= k < self.nodes@.len() implies #[trigger] self.node_wf(k) by {
                    assert(pre.node_wf(k));
                }
                assert forall|sc: int| 0 <= sc < self.scopes@.len() implies #[trigger] self.scope_wf(sc) by {
                    assert(pre.scope_wf(sc));
                }
            }
            i += 1;
        }
        assert(self.ran_in_pass() =~= Set::<usize>::empty());
    }

    /// Signal `n` was written with `value`, taking `o` to `s`: the value is
    /// stored, a new pass starts unless a computation is running, the nodes that read `n` are dirty, and other
    /// nodes at most went from clean to `Check`.
    pub open spec fn written(o: &Self, s: &Self, n: NodeId, value: T) -> bool {
        &&& s.value(n) == Some(value)
        &&& s.ran_in_pass() == (if o.observers().len() == 0 { Set::<usize>::empty() } else { o.ran_in_pass() })
        &&& s.observers() == o.observers()
        &&& s.node_count() == o.node_count()
        &&& forall|m: NodeId| #![trigger s.state(m)] o.has_node(m) ==> {
            &&& o.marked_by(m, n) ==> s.state(m) == NodeState::Dirty
            &&& !o.marked_by(m, n) ==> s.state(m) == o.state(m) || (
                o.state(m) == NodeState::Clean && s.state(m) == NodeState::Check
                    && s.alive(m) && s.kind(m) != NodeKind::Signal)
            &&& s.alive(m) == o.alive(m)
            &&& s.kind(m) == o.kind(m)
            &&& s.owner(m) == o.owner(m)
            &&& s.sources(m) == o.sources(m)
            &&& m != n ==> s.value(m) == o.value(m)
        }
    }

    /// Writes `value` into signal `n` and marks its subscribers dirty and every
    /// computation further downstream `Check`, for the host to drain with
    /// `next_to_run`. No comparison: every write notifies. A write made while
    /// no computation runs starts a new pass; a write made from inside a
    /// running computation joins the current pass, so a node that already ran
    /// in it is not run again (the scheduler reports `Stalled` if such a node
    /// is marked again, as in a dependency cycle).
    /// A write through a disposed handle, or to a node that is no signal,
    /// changes nothing and returns `false`.
    pub fn set(&mut self, n: NodeId, value: T) -> (r: bool)
        requires
            old(self).wf(),
            old(self).has_node(n),
        ensures
            final(self).wf(),
            r <==> old(self).alive(n) && old(self).kind(n) == NodeKind::Signal,
            !r ==> *final(self) == *old(self),
            r ==> Self::written(old(self), final(self), n, value),
            final(self).scopes_same(old(self)),
    {
        if !self.nodes[n.0].alive || self.nodes[n.0].kind.is_computation() {
            proof {
                self.lemma_scopes_same(old(self));
            }
            return false;
        }
        self.nodes[n.0].value = Some(value);
        let ghost after_write = *self;
        proof {
            assert forall|i: int| 0 <= i < self.nodes@.len() implies #[trigger] self.node_wf(i) by {
                assert(old(self).node_wf(i));
            }
            assert forall|sc: int| 0 <= sc < self.scopes@.len() implies #[trigger] self.scope_wf(sc) by {
                assert(old(self).scope_wf(sc));
            }
        }
        self.mark_subscribers(n);
        let ghost after_mark = *self;
        self.mark_checks();
        let ghost after_checks = *self;
        if self.observer.len() == 0 {
            self.start_pass();
        }
        proof {
            assert forall|m: NodeId| #![trigger self.state(m)] old(self).has_node(m) implies {
                &&& old(self).marked_by(m, n) ==> self.state(m) == NodeState::Dirty
                &&& !old(self).marked_by(m, n) ==> self.state(m) == old(self).state(m) || (
                    old(self).state(m) == NodeState::Clean && self.state(m) == NodeState::Check
                        && self.alive(m) && self.kind(m) != NodeKind::Signal)
                &&& self.alive(m) == old(self).alive(m)
                &&& self.kind(m) == old(self).kind(m)
                &&& self.owner(m) == old(self).owner(m)
                &&& self.sources(m) == old(self).sources(m)
                &&& m != n ==> self.value(m) == old(self).value(m)
            } by {
                if m.0 != n.0 {
                    assert(after_write.nodes@[m.0 as int] == old(self).nodes@[m.0 as int]);
                }
                assert(after_mark.same_but_state(&after_write, m.0 as int));
                assert(after_checks.same_but_state(&after_mark, m.0 as int));
                assert(self.nodes@[m.0 as int] == after_checks.nodes@[m.0 as int]);
                assert(after_write.marked_by(m, n) == old(self).marked_by(m, n));
                assert(after_mark.state(m) == after_write.state(m) || after_mark.state(m) == NodeState::Dirty);
                assert(after_checks.state(m) == after_mark.state(m) || after_checks.state(m) == NodeState::Check);
            }
            assert(after_mark.same_but_state(&after_write, n.0 as int));
            assert(after_checks.same_but_state(&after_mark, n.0 as int));
            assert(Self::written(old(self), self, n, value));
            assert(self.scopes == old(self).scopes);
            self.lemma_scopes_same(old(self));
        }
        true
    }

    /// Each node's state is as in `o`, or went from check to clean.
    pub open spec fn clears_only(&self, o: &Self) -> bool {
        forall|m: NodeId| #![trigger self.state(m)] o.has_node(m) ==> self.state(m) == o.state(m) || (
            o.state(m) == NodeState::Check && self.state(m) == NodeState::Clean)
    }

    /// `n` was handed out to run, taking `o` to `s`: it was a live dirty
    /// computation that had not run in this pass, every node it read is
    /// settled, its old source edges are gone and it is on top of the observer
    /// stack; elsewhere only `Check` nodes were settled.
    pub open spec fn run_started(o: &Self, s: &Self, n: NodeId) -> bool {
        &&& o.has_node(n)
        &&& o.alive(n)
        &&& o.kind(n) != NodeKind::Signal
        &&& o.state(n) == NodeState::Dirty
        &&& !o.ran_in_pass().contains(n.0)
        &&& s.ran_in_pass() == o.ran_in_pass().insert(n.0)
        &&& s.state(n) == NodeState::Running
        &&& s.sources(n) == Set::<usize>::empty()
        &&& s.observers() == o.observers().push(n.0)
        &&& forall|x: usize| #[trigger] o.sources(n).contains(x) ==> !pending(s.state(NodeId(x)))
        &&& forall|m: NodeId| #![trigger s.sources(m)] o.has_node(m) && m != n ==>
            s.sources(m) == o.sources(m) && (s.state(m) == o.state(m) || (
            o.state(m) == NodeState::Check && s.state(m) == NodeState::Clean))
    }

    /// A live memo that is not being evaluated always holds a value: its first
    /// evaluation ends before it can be read, and later ones only replace it.
    pub proof fn lemma_memo_value_present(&self, m: NodeId)
        requires
            self.wf(),
            self.has_node(m),
            self.alive(m),
            self.kind(m) == NodeKind::Memo,
            self.state(m) != NodeState::Running,
        ensures
            self.value(m).is_some(),
    {
        assert(self.node_wf(m.0 as int));
    }

    /// How many nodes the arena holds, live or disposed.
    pub fn num_nodes(&self) -> (r: usize)
        ensures
            r == self.node_count(),
    {
        self.nodes.len()
    }

    /// How many scopes the tree holds, live or disposed.
    pub fn num_scopes(&self) -> (r: usize)
        ensures
            r == self.scope_count(),
    {
        self.scopes.len()
    }

    /// The propagation state of node `n`.
    pub fn node_state(&self, n: NodeId) -> (r: NodeState)
        requires
            self.has_node(n),
        ensures
            r == self.state(n),
    {
        self.nodes[n.0].state
    }

    /// The kind of node `n`.
    pub fn node_kind(&self, n: NodeId) -> (r: NodeKind)
        requires
            self.has_node(n),
        ensures
            r == self.kind(n),
    {
        self.nodes[n.0].kind
    }

    /// Whether the scheduler would act on node `m` now: it waits for
    /// propagation, none of its sources does, and it is a `Check` node to
    /// settle or a dirty node that has not run in this pass.
    pub open spec fn ready(&self, m: NodeId) -> bool {
        &&& pending(self.state(m))
        &&& !self.has_pending_source(m)
        &&& (self.state(m) == NodeState::Check || !self.ran_in_pass().contains(m.0))
    }

    /// Whether some node waits for propagation.
    pub fn has_pending(&self) -> (r: bool)
        requires
            self.wf(),
        ensures
            r == self.any_pending(),
    {
        let mut i: usize = 0;
        while i < self.nodes.len()
            invariant
                i <= self.nodes@.len(),
                forall|m: usize| m < i ==> !#[trigger] pending(self.state(NodeId(m))),
            decreases self.nodes@.len() - i,
        {
            if self.nodes[i].state.is_pending() {
                assert(pending(self.state(NodeId(i))));
                return true;
            }
            i += 1;
        }
        false
    }

    /// The scheduler's step: settles every `Check` node whose sources are all
    /// settled (none of them changed, so it stays as it is) and hands out the
    /// first dirty node whose sources are all settled, unless it already ran in
    /// this pass. That node starts to run: its old source edges are dropped, it
    /// is pushed on the observer stack, and the host evaluates it and reports
    /// with `finish_memo` or `finish_effect`.
    #[verifier::rlimit(40)]
    pub fn next_to_run(&mut self) -> (r: Step)
        requires
            old(self).wf(),
        ensures
            final(self).wf(),
            final(self).node_count() == old(self).node_count(),
            final(self).scope_count() == old(self).scope_count(),
            forall|sc: ScopeId| #![trigger final(self).disposed(sc)] old(self).has_scope(sc) ==>
                final(self).disposed(sc) == old(self).disposed(sc) && final(self).cleanups(sc) == old(self).cleanups(sc)
                && final(self).owned(sc) == old(self).owned(sc),
            forall|m: NodeId| #![trigger final(self).value(m)] old(self).has_node(m) ==>
                final(self).value(m) == old(self).value(m) && final(self).alive(m) == old(self).alive(m)
                && final(self).kind(m) == old(self).kind(m) && final(self).owner(m) == old(self).owner(m),
            r matches Step::Run(n) ==> Self::run_started(old(self), final(self), n),
            !(r is Run) ==> forall|m: NodeId| #![trigger final(self).sources(m)] old(self).has_node(m) ==>
                final(self).sources(m) == old(self).sources(m),
            (exists|m: NodeId| old(self).has_node(m) && #[trigger] old(self).ready(m) && old(self).state(m) == NodeState::Dirty)
                ==> r is Run,
            !(r is Run) ==> {
                &&& final(self).ran_in_pass() == old(self).ran_in_pass()
                &&& final(self).observers() == old(self).observers()
                &&& final(self).states_only(old(self))
                &&& final(self).clears_only(old(self))
                &&& (r == Step::Idle <==> !final(self).any_pending())
                &&& forall|m: NodeId| #![trigger final(self).ready(m)] old(self).has_node(m) ==> !final(self).ready(m)
            },
    {
        let len = self.nodes.len();
        loop
            invariant
                len == old(self).nodes@.len(),
                self.wf(),
                self.states_only(old(self)),
                self.clears_only(old(self)),
            ensures
                self.wf(),
                self.states_only(old(self)),
                self.clears_only(old(self)),
                forall|k: usize| k < len ==> !#[trigger] self.ready(NodeId(k)),
            decreases count_check(self.nodes@),
        {
            let mut progressed = false;
            let mut i: usize = 0;
            let ghost sweep_start = *self;
            while i < len
                invariant
                    len == old(self).nodes@.len(),
                    i <= len,
                    self.wf(),
                    self.states_only(old(self)),
                    self.clears_only(old(self)),
                    sweep_start.wf(),
                    sweep_start.states_only(old(self)),
                    sweep_start.clears_only(old(self)),
                    !progressed ==> *self == sweep_start,
                    !progressed ==> forall|k: usize| k < i ==> !#[trigger] self.ready(NodeId(k)),
                    count_check(self.nodes@) <= count_check(sweep_start.nodes@),
                    progressed ==> count_check(self.nodes@) < count_check(sweep_start.nodes@),
                decreases len - i,
            {
                if self.nodes[i].state.is_pending() && !self.pending_source(i) {
                    proof {
                        assert(self.node_wf(i as int));
                    }
                    if self.nodes[i].state == NodeState::Check {
                        let ghost pre = *self;
                        self.nodes[i].state = NodeState::Clean;
                        proof {
                            assert forall|m: int| 0 <= m < self.nodes@.len() implies #[trigger] self.same_but_state(old(self), m) by {
                                assert(pre.same_but_state(old(self), m));
                                if m != i as int {
                                    assert(self.nodes@[m] == pre.nodes@[m]);
                                }
                            }
                            assert forall|m: NodeId| #![trigger self.state(m)] old(self).has_node(m) implies self.state(m) == old(self).state(m) || (
                                old(self).state(m) == NodeState::Check && self.state(m) == NodeState::Clean) by {
                                assert(pre.state(m) == old(self).state(m) || pre.state(m) == NodeState::Clean);
                            }
                            assert forall|k: int| 0 <= k < self.nodes@.len() implies #[trigger] self.node_wf(k) by {
                                assert(pre.node_wf(k));
                                assert(pre.same_but_state(old(self), k));
                                assert(forall|j: int| 0 <= j < self.nodes@[k].sources@.len() ==>
                                    self.nodes@[k].sources@[j] == pre.nodes@[k].sources@[j]);
                            }
                            assert forall|sc: int| 0 <= sc < self.scopes@.len() implies #[trigger] self.scope_wf(sc) by {
                                assert(pre.scope_wf(sc));
                            }
                            assert forall|j: int| 0 <= j < pre.nodes@.len() && j != i as int implies
                                (#[trigger] self.nodes@[j].state == NodeState::Check) == (pre.nodes@[j].state == NodeState::Check) by {
                                assert(self.nodes@[j] == pre.nodes@[j]);
                            }
                            lemma_count_check_clear(pre.nodes@, self.nodes@, i as int);
                        }
                        progressed = true;
                    } else if !self.ran[i] {
                        let ghost pre = *self;
                        self.nodes[i].state = NodeState::Running;
                        self.nodes[i].sources = Vec::new();
                        self.ran.set(i, true);
                        self.observer.push(i);
                        proof {
                            assert forall|k: int| 0 <= k < self.nodes@.len() implies #[trigger] self.node_wf(k) by {
                                assert(pre.node_wf(k));
                                if k != i as int {
                                    assert(self.nodes@[k] == pre.nodes@[k]);
                                }
                            }
                            assert forall|sc: int| 0 <= sc < self.scopes@.len() implies #[trigger] self.scope_wf(sc) by {
                                assert(pre.scope_wf(sc));
                            }
                            assert(self.nodes@[i as int].sources@.to_set() =~= Set::<usize>::empty());
                            assert(self.ran_in_pass() =~= pre.ran_in_pass().insert(i));
                            assert(pre.ran_in_pass() == old(self).ran_in_pass());
                            assert forall|m: NodeId| #![trigger self.value(m)] old(self).has_node(m) implies
                                self.value(m) == old(self).value(m) && self.alive(m) == old(self).alive(m)
                                && self.kind(m) == old(self).kind(m) && self.owner(m) == old(self).owner(m) by {
                                assert(pre.same_but_state(old(self), m.0 as int));
                            }
                            assert forall|m: NodeId| #![trigger self.sources(m)] old(self).has_node(m) && m != NodeId(i) implies
                                self.sources(m) == old(self).sources(m) && (self.state(m) == old(self).state(m) || (
                                old(self).state(m) == NodeState::Check && self.state(m) == NodeState::Clean)) by {
                                assert(pre.same_but_state(old(self), m.0 as int));
                                assert(pre.state(m) == old(self).state(m) || pre.state(m) == NodeState::Clean);
                            }
                            assert(pre.same_but_state(old(self), i as int));
                            assert(pre.state(NodeId(i)) == NodeState::Dirty);
                            assert(old(self).state(NodeId(i)) == NodeState::Dirty);
                            assert(old(self).node_wf(i as int));
                            assert(pre.ran == old(self).ran);
                            assert(!old(self).ran_in_pass().contains(i));
                            assert(self.observers() == old(self).observers().push(i));
                            assert forall|s: usize| #[trigger] old(self).sources(NodeId(i)).contains(s) implies !pending(self.state(NodeId(s))) by {
                                assert(pre.sources(NodeId(i)).contains(s));
                                assert(!pending(pre.state(NodeId(s))));
                                let k = choose|k: int| 0 <= k < pre.nodes@[i as int].sources@.len() && pre.nodes@[i as int].sources@[k] == s;
                                assert(pre.node_wf(i as int));
                            }
                            assert forall|sc: ScopeId| #![trigger self.disposed(sc)] old(self).has_scope(sc) implies
                                self.disposed(sc) == old(self).disposed(sc) && self.cleanups(sc) == old(self).cleanups(sc)
                                && self.owned(sc) == old(self).owned(sc) by {
                            }
                        }
                        assert(Self::run_started(old(self), self, NodeId(i)));
                        return Step::Run(NodeId(i));
                    }
                }
                proof {
                    if !progressed {
                        assert(!self.ready(NodeId(i)));
                    }
                }
                i += 1;
            }
            if !progressed {
                break;
            }
        }
        proof {
            assert forall|m: NodeId| #![trigger self.value(m)] old(self).has_node(m) implies
                self.value(m) == old(self).value(m) && self.alive(m) == old(self).alive(m)
                && self.kind(m) == old(self).kind(m) && self.owner(m) == old(self).owner(m) by {
                assert(self.same_but_state(old(self), m.0 as int));
            }
            assert forall|m: NodeId| #![trigger self.sources(m)] old(self).has_node(m) implies
                self.sources(m) == old(self).sources(m) by {
                assert(self.same_but_state(old(self), m.0 as int));
            }
            if exists|m: NodeId| old(self).has_node(m) && #[trigger] old(self).ready(m) && old(self).state(m) == NodeState::Dirty {
                let m = choose|m: NodeId| old(self).has_node(m) && #[trigger] old(self).ready(m) && old(self).state(m) == NodeState::Dirty;
                assert(self.same_but_state(old(self), m.0 as int));
                assert(self.sources(m) == old(self).sources(m));
                assert(self.state(m) == NodeState::Dirty);
                assert forall|x: usize| #[trigger] self.sources(m).contains(x) implies !pending(self.state(NodeId(x))) by {
                    assert(old(self).sources(m).contains(x));
                    assert(!pending(old(self).state(NodeId(x))));
                    assert(old(self).node_wf(m.0 as int));
                    let j = choose|j: int| 0 <= j < old(self).nodes@[m.0 as int].sources@.len()
                        && old(self).nodes@[m.0 as int].sources@[j] == x;
                    assert(old(self).has_node(NodeId(x)));
                    assert(self.state(NodeId(x)) == old(self).state(NodeId(x)) || self.state(NodeId(x)) == NodeState::Clean);
                }
                assert(self.ran == old(self).ran);
                assert(self.ready(m));
                assert(m.0 < len);
                assert(!self.ready(NodeId(m.0)));
            }
        }
        if self.has_pending() {
            Step::Stalled
        } else {
            Step::Idle
        }
    }

    /// Whether a memo's new value differs from its cached one, by `T`'s equality.
    pub open spec fn differs(cached: Option<T>, new: T) -> bool
        where T: PartialEq
    {
        match cached {
            None => true,
            Some(c) => !c.eq_spec(&new),
        }
    }

    /// Memo `n` finished with `value`, taking `o` to `s`, and `r` tells whether
    /// the value changed: then it is cached and exactly the nodes that read the
    /// memo are marked dirty; else nothing but the memo's own state moves.
    pub open spec fn memo_finished(o: &Self, s: &Self, n: NodeId, value: T, r: bool) -> bool
        where T: PartialEq
    {
        &&& T::obeys_eq_spec() ==> (r <==> Self::differs(o.value(n), value))
        &&& s.state(n) == NodeState::Clean
        &&& r ==> s.value(n) == Some(value)
        &&& !r ==> s.value(n) == o.value(n)
        &&& forall|m: NodeId| #![trigger s.state(m)] o.has_node(m) && m != n ==>
            s.state(m) == (if r && o.marked_by(m, n) { NodeState::Dirty } else { o.state(m) })
            && s.value(m) == o.value(m)
        &&& forall|m: NodeId| #![trigger s.sources(m)] o.has_node(m) ==>
            s.sources(m) == o.sources(m) && s.alive(m) == o.alive(m)
            && s.kind(m) == o.kind(m) && s.owner(m) == o.owner(m)
    }

    proof fn lemma_memo_finished(o: &Self, s: &Self, n: NodeId, value: T, r: bool)
        where T: PartialEq
        requires
            T::obeys_eq_spec() ==> (r <==> Self::differs(o.value(n), value)),
            s.state(n) == NodeState::Clean,
            r ==> s.value(n) == Some(value),
            !r ==> s.value(n) == o.value(n),
            forall|m: NodeId| #![trigger s.state(m)] o.has_node(m) && m != n ==>
                s.state(m) == (if r && o.marked_by(m, n) { NodeState::Dirty } else { o.state(m) })
                && s.value(m) == o.value(m),
            forall|m: NodeId| #![trigger s.sources(m)] o.has_node(m) ==>
                s.sources(m) == o.sources(m) && s.alive(m) == o.alive(m)
                && s.kind(m) == o.kind(m) && s.owner(m) == o.owner(m),
        ensures
            Self::memo_finished(o, s, n, value, r),
    {
    }

    /// Ends the evaluation of memo `n`, which computed `value`. Where `value`
    /// differs from the cached one (or none was cached yet), it is stored and the
    /// memo's subscribers are marked dirty; where it is equal, the cached value
    /// stays and no other node is touched. Returns whether it differed. A memo
    /// disposed while it ran only leaves the observer stack.
    #[verifier::rlimit(40)]
    pub fn finish_memo(&mut self, n: NodeId, value: T) -> (r: bool)
        where T: PartialEq
        requires
            old(self).wf(),
            old(self).has_node(n),
            old(self).kind(n) == NodeKind::Memo,
            old(self).observers().len() > 0,
            old(self).observers().last() == n.0,
        ensures
            final(self).wf(),
            final(self).observers() == old(self).observers().drop_last(),
            final(self).node_count() == old(self).node_count(),
            final(self).ran_in_pass() == old(self).ran_in_pass(),
            final(self).scope_count() == old(self).scope_count(),
            forall|sc: ScopeId| #![trigger final(self).disposed(sc)] old(self).has_scope(sc) ==>
                final(self).disposed(sc) == old(self).disposed(sc) && final(self).cleanups(sc) == old(self).cleanups(sc)
                && final(self).owned(sc) == old(self).owned(sc),
            !old(self).alive(n) ==> !r && final(self).nodes_kept(old(self), Set::empty()),
            old(self).alive(n) && old(self).value(n).is_none() ==> r,
            old(self).alive(n) ==> Self::memo_finished(old(self), final(self), n, value, r),
    {
        let ghost o = *self;
        self.observer.pop();
        proof {
            assert forall|k: int| 0 <= k < self.nodes@.len() implies #[trigger] self.node_wf(k) by {
                assert(o.node_wf(k));
            }
            assert forall|sc: int| 0 <= sc < self.scopes@.len() implies #[trigger] self.scope_wf(sc) by {
                assert(o.scope_wf(sc));
            }
            assert forall|m: usize| #![trigger self.same_node(old(self), m)] m < old(self).node_count() implies self.same_node(old(self), m) by {}
        }
        if !self.nodes[n.0].alive {
            return false;
        }
        let changed = match &self.nodes[n.0].value {
            None => true,
            Some(c) => !c.eq(&value),
        };
        let ghost popped = *self;
        let ghost mut written = *self;
        if changed {
            self.nodes[n.0].value = Some(value);
            proof {
                assert forall|k: int| 0 <= k < self.nodes@.len() implies #[trigger] self.node_wf(k) by {
                    assert(popped.node_wf(k));
                }
                assert forall|sc: int| 0 <= sc < self.scopes@.len() implies #[trigger] self.scope_wf(sc) by {
                    assert(popped.scope_wf(sc));
                }
            }
            proof {
                written = *self;
            }
            self.mark_subscribers(n);
            proof {
                assert forall|m: NodeId| old(self).has_node(m) && m != n implies written.marked_by(m, n) == old(self).marked_by(m, n)
                    && #[trigger] written.nodes@[m.0 as int] == old(self).nodes@[m.0 as int] by {}
            }
        }
        let ghost marked = *self;
        self.nodes[n.0].state = NodeState::Clean;
        proof {
            assert(marked.states_only(&written) || !changed);
            assert(marked.nodes@[n.0 as int].value.is_some()) by {
                if changed {
                    assert(marked.same_but_state(&written, n.0 as int));
                }
            }
            assert forall|k: int| 0 <= k < self.nodes@.len() implies #[trigger] self.node_wf(k) by {
                assert(marked.node_wf(k));
                if k != n.0 as int {
                    assert(self.nodes@[k] == marked.nodes@[k]);
                }
            }
            assert forall|sc: int| 0 <= sc < self.scopes@.len() implies #[trigger] self.scope_wf(sc) by {
                assert(marked.scope_wf(sc));
            }
            assert forall|m: NodeId| #![trigger self.state(m)] old(self).has_node(m) && m != n implies
                self.state(m) == (if changed && old(self).marked_by(m, n) { NodeState::Dirty } else { old(self).state(m) })
                && self.value(m) == old(self).value(m) by {
                assert(self.nodes@[m.0 as int] == marked.nodes@[m.0 as int]);
                assert(popped.nodes@[m.0 as int] == old(self).nodes@[m.0 as int]);
                if changed {
                    assert(written.nodes@[m.0 as int] == old(self).nodes@[m.0 as int]);
                    assert(marked.same_but_state(&written, m.0 as int));
                    assert(written.marked_by(m, n) == old(self).marked_by(m, n));
                    assert(marked.state(m) == (if written.marked_by(m, n) { NodeState::Dirty } else { written.state(m) }));
                } else {
                    assert(marked == popped);
                }
            }
            if changed {
                assert(marked.same_but_state(&written, n.0 as int));
                assert(self.value(n) == Some(value));
            } else {
                assert(self.value(n) == old(self).value(n));
            }
            assert(T::obeys_eq_spec() ==> (changed <==> Self::differs(old(self).value(n), value)));
            assert(self.state(n) == NodeState::Clean);
            assert(forall|m: NodeId| #![trigger self.state(m)] old(self).has_node(m) && m != n ==>
                self.state(m) == (if changed && old(self).marked_by(m, n) { NodeState::Dirty } else { old(self).state(m) })
                && self.value(m) == old(self).value(m));
            let ghost fin = *self;
            assert forall|k: int| 0 <= k < old(self).nodes@.len() implies #[trigger] fin.same_links(old(self), k) by {
                assert(fin.nodes@[k].sources == marked.nodes@[k].sources);
                assert(fin.nodes@[k].alive == marked.nodes@[k].alive);
                assert(fin.nodes@[k].kind == marked.nodes@[k].kind);
                assert(fin.nodes@[k].scope == marked.nodes@[k].scope);
                assert(popped.nodes@[k] == old(self).nodes@[k]);
                if changed {
                    assert(marked.same_but_state(&written, k));
                } else {
                    assert(marked == popped);
                }
            }
            assert forall|m: NodeId| #![trigger fin.sources(m)] old(self).has_node(m) implies
                fin.sources(m) == old(self).sources(m) && fin.alive(m) == old(self).alive(m)
                && fin.kind(m) == old(self).kind(m) && fin.owner(m) == old(self).owner(m) by {
                assert(fin.same_links(old(self), m.0 as int));
            }
            assert(forall|m: NodeId| #![trigger fin.state(m)] old(self).has_node(m) && m != n ==>
                fin.state(m) == (if changed && old(self).marked_by(m, n) { NodeState::Dirty } else { old(self).state(m) })
                && fin.value(m) == old(self).value(m));
            assert(T::obeys_eq_spec() ==> (changed <==> Self::differs(old(self).value(n), value)));
            assert(fin.state(n) == NodeState::Clean);
            assert(changed ==> fin.value(n) == Some(value));
            assert(!changed ==> fin.value(n) == old(self).value(n));
            Self::lemma_memo_finished(old(self), &fin, n, value, changed);
        }
        changed
    }

    /// Ends the current run of effect `n`.
    pub fn finish_effect(&mut self, n: NodeId)
        requires
            old(self).wf(),
            old(self).has_node(n),
            old(self).kind(n) == NodeKind::Effect,
            old(self).observers().len() > 0,
            old(self).observers().last() == n.0,
        ensures
            final(self).wf(),
            final(self).observers() == old(self).observers().drop_last(),
            final(self).node_count() == old(self).node_count(),
            final(self).ran_in_pass() == old(self).ran_in_pass(),
            final(self).scope_count() == old(self).scope_count(),
            forall|sc: ScopeId| #![trigger final(self).disposed(sc)] old(self).has_scope(sc) ==>
                final(self).disposed(sc) == old(self).disposed(sc) && final(self).cleanups(sc) == old(self).cleanups(sc)
                && final(self).owned(sc) == old(self).owned(sc),
            final(self).nodes_kept(old(self), set![n.0]),
            final(self).state(n) == NodeState::Clean,
            final(self).kind(n) == old(self).kind(n),
            final(self).sources(n) == old(self).sources(n),
            final(self).alive(n) == old(self).alive(n),
            final(self).owner(n) == old(self).owner(n),
    {
        let ghost o = *self;
        self.observer.pop();
        self.nodes[n.0].state = NodeState::Clean;
        proof {
            assert forall|k: int| 0 <= k < self.nodes@.len() implies #[trigger] self.node_wf(k) by {
                assert(o.node_wf(k));
            }
            assert forall|sc: int| 0 <= sc < self.scopes@.len() implies #[trigger] self.scope_wf(sc) by {
                assert(o.scope_wf(sc));
            }
            assert forall|m: usize| #![trigger self.same_node(old(self), m)] m < old(self).node_count() && !set![n.0].contains(m)
                implies self.same_node(old(self), m) by {}
        }
    }

    /// Allocates a memo owned by `cx` and starts its first evaluation at once;
    /// the host computes it (from no previous value) and reports with
    /// `finish_memo`, which caches the value.
    pub fn create_memo(&mut self, cx: ScopeId) -> (r: Option<NodeId>)
        requires
            old(self).wf(),
            old(self).has_scope(cx),
            old(self).node_count() + 1 < usize::MAX,
        ensures
            final(self).wf(),
            final(self).scope_count() == old(self).scope_count(),
            forall|s: ScopeId| #![trigger final(self).disposed(s)] old(self).has_scope(s) ==>
                final(self).disposed(s) == old(self).disposed(s) && final(self).cleanups(s) == old(self).cleanups(s),
            final(self).ran_in_pass() == old(self).ran_in_pass(),
            old(self).disposed(cx) ==> r.is_none() && *final(self) == *old(self),
            !old(self).disposed(cx) ==> r == Some(NodeId(old(self).node_count() as usize)) && {
                let n = r.unwrap();
                &&& final(self).node_count() == old(self).node_count() + 1
                &&& final(self).nodes_kept(old(self), Set::empty())
                &&& final(self).alive(n) && final(self).kind(n) == NodeKind::Memo
                &&& final(self).value(n).is_none()
                &&& final(self).state(n) == NodeState::Running
                &&& final(self).sources(n) == Set::<usize>::empty()
                &&& final(self).owner(n) == cx
                &&& final(self).observers() == old(self).observers().push(n.0)
            },
    {
        self.start_computation(NodeKind::Memo, cx)
    }

    /// Whether scope `s` lies in the subtree rooted at scope `cx`, following
    /// parent links (a parent always comes before its children).
    pub open spec fn in_subtree(&self, s: nat, cx: nat) -> bool
        decreases s,
    {
        if s < cx {
            false
        } else if s == cx {
            true
        } else {
            match self.parent(ScopeId(s as usize)) {
                Some(p) => if (p as nat) < s { self.in_subtree(p as nat, cx) } else { false },
                None => false,
            }
        }
    }

    /// The cleanup callbacks that disposing `cx` hands out, from the scopes
    /// below `k`: scope after scope in the subtree, parents before children,
    /// each scope's callbacks newest first.
    pub open spec fn collected(&self, cx: nat, k: nat) -> Seq<C>
        decreases k,
    {
        if k == 0 {
            Seq::empty()
        } else {
            self.collected(cx, (k - 1) as nat) + if self.in_subtree((k - 1) as nat, cx) {
                self.cleanups(ScopeId((k - 1) as usize)).reverse()
            } else {
                Seq::empty()
            }
        }
    }

    /// A node whose scope is not disposed is alive.
    pub proof fn lemma_live_owner_alive(&self, n: NodeId)
        requires
            self.wf(),
            self.has_node(n),
            !self.disposed(self.owner(n)),
        ensures
            self.alive(n),
    {
        assert(self.node_wf(n.0 as int));
    }

    /// A node whose scope is disposed is dead.
    pub proof fn lemma_disposed_owner_dead(&self, n: NodeId)
        requires
            self.wf(),
            self.has_node(n),
            self.disposed(self.owner(n)),
        ensures
            !self.alive(n),
    {
        assert(self.node_wf(n.0 as int));
    }

    /// What disposing `cx` does to node `m`, taking `o` to `self`: a node of
    /// the subtree dies, any other node is left as it was.
    pub open spec fn node_after_dispose(&self, o: &Self, cx: ScopeId, m: NodeId) -> bool {
        &&& self.owner(m) == o.owner(m)
        &&& self.kind(m) == o.kind(m)
        &&& o.in_subtree(o.owner(m).0 as nat, cx.0 as nat) ==> !self.alive(m)
        &&& !o.in_subtree(o.owner(m).0 as nat, cx.0 as nat) ==> self.node_view_same(o, m)
    }

    /// Where the disposal's node pass stands on node `m` after `i` nodes.
    closed spec fn kill_step(&self, o: &Self, doomed: Seq<bool>, i: nat, m: NodeId) -> bool {
        &&& self.owner(m) == o.owner(m)
        &&& self.kind(m) == o.kind(m)
        &&& m.0 < i && doomed[self.owner(m).0 as int] ==> !self.alive(m)
        &&& !(m.0 < i && doomed[self.owner(m).0 as int]) ==> self.same_node(o, m.0)
    }

    /// The arena and the scope tree stay below the machine's index range.
    pub proof fn lemma_counts_bounded(&self)
        requires
            self.wf(),
        ensures
            self.node_count() < usize::MAX,
            self.scope_count() < usize::MAX,
    {
    }

    /// A signal never waits for propagation.
    pub proof fn lemma_signal_clean(&self, n: NodeId)
        requires
            self.wf(),
            self.has_node(n),
            self.kind(n) == NodeKind::Signal,
        ensures
            self.state(n) == NodeState::Clean,
    {
        assert(self.node_wf(n.0 as int));
    }

    /// Subtree membership depends on the parent links alone.
    pub proof fn lemma_subtree_stable(a: &Self, b: &Self, s: nat, cx: nat)
        requires
            a.scope_count() == b.scope_count(),
            s < a.scope_count(),
            forall|t: ScopeId| #[trigger] a.has_scope(t) ==> b.parent(t) == a.parent(t),
        ensures
            b.in_subtree(s, cx) == a.in_subtree(s, cx),
        decreases s,
    {
        assert(a.has_scope(ScopeId(s as usize)));
        if s > cx {
            match a.parent(ScopeId(s as usize)) {
                Some(p) => {
                    if (p as nat) < s {
                        Self::lemma_subtree_stable(a, b, p as nat, cx);
                    }
                },
                None => {},
            }
        }
    }

    /// Where every scope of the subtree is disposed, disposing it hands back nothing.
    pub proof fn lemma_collected_empty(&self, cx: nat, k: nat)
        requires
            self.wf(),
            k <= self.scope_count(),
            forall|t: nat| t < k && #[trigger] self.in_subtree(t, cx) ==> self.disposed(ScopeId(t as usize)),
        ensures
            self.collected(cx, k) == Seq::<C>::empty(),
        decreases k,
    {
        if k > 0 {
            let t = (k - 1) as nat;
            self.lemma_collected_empty(cx, t);
            if self.in_subtree(t, cx) {
                assert(self.scope_wf(t as int));
                assert(self.cleanups(ScopeId(t as usize)).reverse() =~= Seq::<C>::empty());
            }
            assert(self.collected(cx, k) =~= Seq::<C>::empty());
        }
    }

    /// Disposes node `id`: it is marked dead, with no value and no source edges.
    fn kill_node(&mut self, id: usize)
        requires
            old(self).wf_core(),
            id < old(self).node_count(),
        ensures
            final(self).wf_core(),
            !final(self).alive(NodeId(id)),
            final(self).owner(NodeId(id)) == old(self).owner(NodeId(id)),
            final(self).kind(NodeId(id)) == old(self).kind(NodeId(id)),
            final(self).nodes_kept(old(self), set![id]),
            final(self).node_count() == old(self).node_count(),
            final(self).scopes == old(self).scopes,
            final(self).observer == old(self).observer,
            final(self).ran == old(self).ran,
    {
        let ghost o = *self;
        self.nodes[id].alive = false;
        self.nodes[id].state = NodeState::Clean;
        self.nodes[id].sources = Vec::new();
        self.nodes[id].value = None;
        proof {
            assert forall|k: int| 0 <= k < self.nodes@.len() implies #[trigger] self.node_core(k) by {
                assert(o.node_core(k));
            }
            assert forall|sc: int| 0 <= sc < self.scopes@.len() implies #[trigger] self.scope_wf(sc) by {
                assert(o.scope_wf(sc));
            }
            assert forall|m: usize| #![trigger self.same_node(old(self), m)] m < old(self).node_count() && !set![id].contains(m)
                implies self.same_node(old(self), m) by {}
        }
    }

    /// Disposes scope `cx` and every scope below it: their nodes die and lose
    /// their edges, and their cleanup callbacks are handed back for the host
    /// to run, each exactly once (a disposed scope holds none), parents before
    /// children and each scope's callbacks newest first. Scopes and nodes
    /// outside the subtree are untouched. Disposing again hands back nothing
    /// that was handed back before.
    #[verifier::rlimit(100)]
    pub fn dispose(&mut self, cx: ScopeId) -> (r: Vec<C>)
        requires
            old(self).wf(),
            old(self).has_scope(cx),
        ensures
            final(self).wf(),
            r@ == old(self).collected(cx.0 as nat, old(self).scope_count()),
            final(self).scope_count() == old(self).scope_count(),
            final(self).node_count() == old(self).node_count(),
            final(self).observers() == old(self).observers(),
            final(self).ran_in_pass() == old(self).ran_in_pass(),
            forall|sc: ScopeId| #![trigger final(self).disposed(sc)] old(self).has_scope(sc) ==> {
                &&& final(self).children(sc) == old(self).children(sc)
                &&& final(self).parent(sc) == old(self).parent(sc)
                &&& final(self).owned(sc) == old(self).owned(sc)
                &&& old(self).in_subtree(sc.0 as nat, cx.0 as nat) ==> final(self).disposed(sc) && final(self).cleanups(sc).len() == 0
                &&& !old(self).in_subtree(sc.0 as nat, cx.0 as nat) ==> final(self).disposed(sc) == old(self).disposed(sc)
                    && final(self).cleanups(sc) == old(self).cleanups(sc)
            },
            forall|m: NodeId| old(self).has_node(m) ==> #[trigger] final(self).node_after_dispose(old(self), cx, m),
    {
        let ns = self.scopes.len();
        let mut doomed: Vec<bool> = Vec::new();
        let mut s: usize = 0;
        while s < ns
            invariant
                ns == self.scopes@.len(),
                *self == *old(self),
                s <= ns,
                doomed@.len() == s,
                forall|t: int| 0 <= t < s ==> #[trigger] doomed@[t] == old(self).in_subtree(t as nat, cx.0 as nat),
            decreases ns - s,
        {
            let d = if s < cx.0 {
                false
            } else if s == cx.0 {
                true
            } else {
                match self.scopes[s].parent {
                    Some(p) => p < s && doomed[p],
                    None => false,
                }
            };
            doomed.push(d);
            s += 1;
        }
        proof {
            self.lemma_wf_core();
        }
        let nn = self.nodes.len();
        let mut i: usize = 0;
        while i < nn
            invariant
                nn == self.nodes@.len(),
                nn == old(self).nodes@.len(),
                self.wf_core(),
                self.scopes == old(self).scopes,
                self.observer == old(self).observer,
                self.ran == old(self).ran,
                doomed@.len() == ns,
                ns == old(self).scopes@.len(),
                i <= nn,
                forall|t: int| 0 <= t < ns ==> #[trigger] doomed@[t] == old(self).in_subtree(t as nat, cx.0 as nat),
                forall|m: NodeId| old(self).has_node(m) ==> #[trigger] self.kill_step(old(self), doomed@, i as nat, m),
            decreases nn - i,
        {
            proof {
                assert(self.node_core(i as int));
            }
            let sc = self.nodes[i].scope;
            let ghost pre = *self;
            if doomed[sc] {
                self.kill_node(i);
            }
            proof {
                assert forall|m: NodeId| old(self).has_node(m) implies #[trigger] self.kill_step(old(self), doomed@, (i + 1) as nat, m) by {
                    assert(pre.kill_step(old(self), doomed@, i as nat, m));
                    assert(pre.owner(m) == old(self).owner(m));
                    assert(pre.kind(m) == old(self).kind(m));
                    if m.0 != i {
                        assert(self.same_node(&pre, m.0));
                        assert(self.nodes@[m.0 as int] == pre.nodes@[m.0 as int]);
                    } else {
                        assert(pre.same_node(old(self), m.0));
                        assert(self.owner(m) == pre.owner(m));
                        assert(self.kind(m) == pre.kind(m));
                        assert(sc == pre.owner(m).0);
                        if doomed@[sc as int] {
                            assert(!self.alive(m));
                        } else {
                            assert(*self == pre);
                        }
                    }
                }
            }
            let ghost inext: nat = (i + 1) as nat;
            i += 1;
            proof {
                assert(inext == i as nat);
            }
        }
        let ghost killed = *self;
        let ghost idone: nat = i as nat;
        proof {
            assert forall|k: int| 0 <= k < self.nodes@.len() implies doomed@[#[trigger] self.nodes@[k].scope as int] ==> !self.nodes@[k].alive by {
                assert(old(self).has_node(NodeId(k as usize)));
                assert(self.kill_step(old(self), doomed@, i as nat, NodeId(k as usize)));
            }
        }
        let mut out: Vec<C> = Vec::new();
        let mut s: usize = 0;
        while s < ns
            invariant
                ns == self.scopes@.len(),
                ns == old(self).scopes@.len(),
                self.wf_core(),
                self.nodes == killed.nodes,
                self.observer == old(self).observer,
                self.ran == old(self).ran,
                doomed@.len() == ns,
                s <= ns,
                forall|t: int| 0 <= t < ns ==> #[trigger] doomed@[t] == old(self).in_subtree(t as nat, cx.0 as nat),
                forall|k: int| 0 <= k < self.nodes@.len() ==> doomed@[#[trigger] self.nodes@[k].scope as int] ==> !self.nodes@[k].alive,
                out@ == old(self).collected(cx.0 as nat, s as nat),
                forall|t: int| 0 <= t < ns ==> {
                    &&& (#[trigger] self.scopes@[t]).parent == old(self).scopes@[t].parent
                    &&& self.scopes@[t].children == old(self).scopes@[t].children
                    &&& self.scopes@[t].nodes == old(self).scopes@[t].nodes
                    &&& t < s && doomed@[t] ==> self.scopes@[t].disposed && self.scopes@[t].cleanups@.len() == 0
                    &&& !(t < s && doomed@[t]) ==> self.scopes@[t] == old(self).scopes@[t]
                },
            decreases ns - s,
        {
            let ghost outer = *self;
            if doomed[s] {
                let ghost before = out@;
                let ghost cl = old(self).scopes@[s as int].cleanups@;
                while self.scopes[s].cleanups.len() > 0
                    invariant
                        ns == self.scopes@.len(),
                        s < ns,
                        self.wf_core(),
                        self.nodes == killed.nodes,
                        self.observer == old(self).observer,
                        self.ran == old(self).ran,
                        cl.len() >= self.scopes@[s as int].cleanups@.len(),
                        self.scopes@[s as int].cleanups@ == cl.subrange(0, self.scopes@[s as int].cleanups@.len() as int),
                        out@ == before + Seq::new((cl.len() - self.scopes@[s as int].cleanups@.len()) as nat, |j: int| cl[cl.len() - 1 - j]),
                        self.scopes@[s as int].parent == old(self).scopes@[s as int].parent,
                        self.scopes@[s as int].children == old(self).scopes@[s as int].children,
                        self.scopes@[s as int].nodes == old(self).scopes@[s as int].nodes,
                        self.scopes@[s as int].disposed == old(self).scopes@[s as int].disposed,
                        forall|t: int| 0 <= t < ns && t != s ==> #[trigger] self.scopes@[t] == outer.scopes@[t],
                    decreases self.scopes@[s as int].cleanups@.len(),
                {
                    let ghost pre = *self;
                    let c = self.scopes[s].cleanups.pop().unwrap();
                    out.push(c);
                    proof {
                        assert forall|k2: int| 0 <= k2 < self.nodes@.len() implies #[trigger] self.node_core(k2) by {
                            assert(pre.node_core(k2));
                        }
                        assert forall|sc: int| 0 <= sc < self.scopes@.len() implies #[trigger] self.scope_wf(sc) by {
                            assert(pre.scope_wf(sc));
                        }
                        let t = (cl.len() - self.scopes@[s as int].cleanups@.len()) as nat;
                        assert(out@ =~= before + Seq::new(t, |j: int| cl[cl.len() - 1 - j]));
                        assert(self.scopes@[s as int].cleanups@ =~= cl.subrange(0, self.scopes@[s as int].cleanups@.len() as int));
                        assert forall|t2: int| 0 <= t2 < ns && t2 != s implies #[trigger] self.scopes@[t2] == outer.scopes@[t2] by {
                            assert(self.scopes@[t2] == pre.scopes@[t2]);
                        }
                    }
                }
                proof {
                    assert(Seq::new(cl.len(), |j: int| cl[cl.len() - 1 - j]) =~= cl.reverse());
                }
                let ghost pre = *self;
                self.scopes[s].disposed = true;
                proof {
                    assert forall|k2: int| 0 <= k2 < self.nodes@.len() implies #[trigger] self.node_core(k2) by {
                        assert(pre.node_core(k2));
                    }
                    assert forall|sc: int| 0 <= sc < self.scopes@.len() implies #[trigger] self.scope_wf(sc) by {
                        assert(pre.scope_wf(sc));
                    }
                    assert forall|t: int| 0 <= t < ns implies {
                        &&& (#[trigger] self.scopes@[t]).parent == old(self).scopes@[t].parent
                        &&& self.scopes@[t].children == old(self).scopes@[t].children
                        &&& self.scopes@[t].nodes == old(self).scopes@[t].nodes
                        &&& t < s + 1 && doomed@[t] ==> self.scopes@[t].disposed && self.scopes@[t].cleanups@.len() == 0
                        &&& !(t < s + 1 && doomed@[t]) ==> self.scopes@[t] == old(self).scopes@[t]
                    } by {
                        if t != s as int {
                            assert(self.scopes@[t] == pre.scopes@[t]);
                            assert(pre.scopes@[t] == outer.scopes@[t]);
                        }
                    }
                }
            }
            proof {
                assert(old(self).collected(cx.0 as nat, (s + 1) as nat) == old(self).collected(cx.0 as nat, s as nat) + if old(self).in_subtree(s as nat, cx.0 as nat) {
                    old(self).cleanups(ScopeId(s)).reverse()
                } else {
                    Seq::empty()
                });
                if !doomed@[s as int] {
                    assert(out@ =~= old(self).collected(cx.0 as nat, (s + 1) as nat));
                }
            }
            s += 1;
        }
        proof {
            assert forall|sc: ScopeId| #![trigger self.disposed(sc)] old(self).has_scope(sc) implies {
                &&& self.children(sc) == old(self).children(sc)
                &&& self.parent(sc) == old(self).parent(sc)
                &&& self.owned(sc) == old(self).owned(sc)
                &&& old(self).in_subtree(sc.0 as nat, cx.0 as nat) ==> self.disposed(sc) && self.cleanups(sc).len() == 0
                &&& !old(self).in_subtree(sc.0 as nat, cx.0 as nat) ==> self.disposed(sc) == old(self).disposed(sc)
                    && self.cleanups(sc) == old(self).cleanups(sc)
            } by {
                let x = self.scopes@[sc.0 as int];
                let d = doomed@[sc.0 as int];
            }
            assert forall|m: NodeId| old(self).has_node(m) implies #[trigger] self.node_after_dispose(old(self), cx, m) by {
                assert(killed.kill_step(old(self), doomed@, idone, m));
                assert(m.0 < idone);
                assert(old(self).node_wf(m.0 as int));
                assert(doomed@[old(self).owner(m).0 as int] == old(self).in_subtree(old(self).owner(m).0 as nat, cx.0 as nat));
                assert(old(self).node_wf(m.0 as int));
                assert(self.nodes@[m.0 as int] == killed.nodes@[m.0 as int]);
                let d = doomed@[old(self).owner(m).0 as int];
                if !old(self).in_subtree(old(self).owner(m).0 as nat, cx.0 as nat) {
                    assert(killed.same_node(old(self), m.0));
                }
            }
            assert(self.ran_in_pass() =~= old(self).ran_in_pass());
            assert forall|k: int| 0 <= k < self.nodes@.len() implies #[trigger] self.node_wf(k) by {
                assert(self.node_core(k));
                let m = NodeId(k as usize);
                assert(old(self).has_node(m));
                assert(killed.kill_step(old(self), doomed@, idone, m));
                assert(old(self).node_wf(k));
                let t = self.nodes@[k].scope as int;
                assert(self.nodes@[k] == killed.nodes@[k]);
                assert(killed.nodes@[k].scope == old(self).nodes@[k].scope);
                let x = self.scopes@[t];
                if !doomed@[t] {
                    assert(killed.same_node(old(self), k as usize));
                }
            }
        }
        out
    }

    /// The node being evaluated innermost, if any.
    pub open spec fn current_observer(&self) -> Option<usize> {
        if self.observers().len() == 0 {
            None
        } else {
            Some(self.observers().last())
        }
    }

    /// Whether a tracked read of `n` now registers an edge to the current observer.
    pub open spec fn tracks(&self, n: NodeId) -> bool {
        &&& self.alive(n)
        &&& self.current_observer().is_some()
        &&& self.alive(NodeId(self.current_observer().unwrap()))
        &&& self.kind(NodeId(self.current_observer().unwrap())) != NodeKind::Signal
    }

    /// Registers `n` as a source of the node being evaluated innermost, if any.
    ///
    /// Reads are consistent because of the scheduler's order, not the arena's:
    /// a node is handed out only when none of the nodes it read in its last run
    /// is still pending (`run_started`), so each of them already holds its value
    /// for the pass. A computation that reads a node it did not read last time
    /// while that node is still pending sees the node's value from before the
    /// pass; the edge is recorded, so when that node then changes it marks the
    /// reader dirty again, and because the reader already ran in the pass the
    /// scheduler reports `Stalled` instead of running it twice.
    pub fn track(&mut self, n: NodeId)
        requires
            old(self).wf(),
            old(self).has_node(n),
        ensures
            final(self).wf(),
            !old(self).tracks(n) ==> *final(self) == *old(self),
            old(self).tracks(n) ==> {
                let o = NodeId(old(self).current_observer().unwrap());
                &&& final(self).sources(o) == old(self).sources(o).insert(n.0)
                &&& final(self).alive(o) && final(self).kind(o) == old(self).kind(o)
                &&& final(self).state(o) == old(self).state(o)
                &&& final(self).value(o) == old(self).value(o)
                &&& final(self).owner(o) == old(self).owner(o)
                &&& final(self).nodes_kept(old(self), set![o.0])
                &&& final(self).node_count() == old(self).node_count()
            },
            final(self).observers() == old(self).observers(),
            final(self).ran_in_pass() == old(self).ran_in_pass(),
            final(self).scope_count() == old(self).scope_count(),
            final(self).node_count() == old(self).node_count(),
            forall|s: ScopeId| #![trigger final(self).disposed(s)] old(self).has_scope(s) ==>
                final(self).disposed(s) == old(self).disposed(s) && final(self).cleanups(s) == old(self).cleanups(s)
                && final(self).owned(s) == old(self).owned(s),
            forall|m: NodeId| #![trigger final(self).state(m)] old(self).has_node(m) ==>
                final(self).state(m) == old(self).state(m) && final(self).value(m) == old(self).value(m)
                && final(self).alive(m) == old(self).alive(m) && final(self).kind(m) == old(self).kind(m),
            final(self).scopes_same(old(self)),
    {
        proof {
            old(self).lemma_scopes_same(old(self));
        }
        if self.observer.len() == 0 || !self.nodes[n.0].alive {
            return;
        }
        let o = self.observer[self.observer.len() - 1];
        if !self.nodes[o].alive || !self.nodes[o].kind.is_computation() {
            return;
        }
        if contains(&self.nodes[o].sources, n.0) {
            proof {
                assert(old(self).sources(NodeId(o)).insert(n.0) =~= old(self).sources(NodeId(o)));
            }
            return;
        }
        let ghost before = self.nodes@[o as int].sources@;
        self.nodes[o].sources.push(n.0);
        proof {
            self.lemma_scopes_same(old(self));
            assert(self.nodes@[o as int].sources@ == before.push(n.0));
            assert(before.push(n.0).to_set() =~= before.to_set().insert(n.0)) by {
                assert forall|x: usize| before.push(n.0).contains(x) <==> before.to_set().insert(n.0).contains(x) by {
                    if before.push(n.0).contains(x) {
                        let j = choose|j: int| 0 <= j < before.push(n.0).len() && before.push(n.0)[j] == x;
                        if j < before.len() {
                            assert(before.contains(x));
                        }
                    }
                    if before.contains(x) {
                        let j = choose|j: int| 0 <= j < before.len() && before[j] == x;
                        assert(before.push(n.0)[j] == x);
                    }
                    if x == n.0 {
                        assert(before.push(n.0)[before.len() as int] == x);
                    }
                }
            }
            assert forall|i: int| 0 <= i < self.nodes@.len() implies #[trigger] self.node_wf(i) by {
                assert(old(self).node_wf(i));
                if i == o as int {
                    let srcs = self.nodes@[i].sources@;
                    assert forall|j: int| 0 <= j < srcs.len() implies #[trigger] srcs[j] < self.nodes@.len() by {
                        if j < before.len() {
                            assert(srcs[j] == before[j]);
                        }
                    }
                }
            }
            assert forall|s: int| 0 <= s < self.scopes@.len() implies #[trigger] self.scope_wf(s) by {
                assert(old(self).scope_wf(s));
            }
            assert forall|m: NodeId| #![trigger self.state(m)] old(self).has_node(m) implies
                self.state(m) == old(self).state(m) && self.value(m) == old(self).value(m)
                && self.alive(m) == old(self).alive(m) && self.kind(m) == old(self).kind(m) by {
                if m.0 != o {
                    assert(self.nodes@[m.0 as int] == old(self).nodes@[m.0 as int]);
                }
            }
        }
    }

    /// Tracked read: registers `n` as a source of the current observer and
    /// returns a clone of its value; `None` where `n` is disposed.
    pub fn try_get(&mut self, n: NodeId) -> (r: Option<T>)
        where T: Clone
        requires
            old(self).wf(),
            old(self).has_node(n),
        ensures
            final(self).wf(),
            r.is_some() <==> old(self).alive(n) && old(self).value(n).is_some(),
            r.is_some() ==> cloned(old(self).value(n).unwrap(), r.unwrap()),
            !old(self).tracks(n) ==> *final(self) == *old(self),
            old(self).tracks(n) ==> final(self).sources(NodeId(old(self).current_observer().unwrap()))
                == old(self).sources(NodeId(old(self).current_observer().unwrap())).insert(n.0),
            old(self).tracks(n) ==> final(self).nodes_kept(old(self), set![old(self).current_observer().unwrap()]),
            final(self).node_count() == old(self).node_count(),
            final(self).observers() == old(self).observers(),
            final(self).scopes_same(old(self)),
            final(self).ran_in_pass() == old(self).ran_in_pass(),
            forall|m: NodeId| #![trigger final(self).state(m)] old(self).has_node(m) ==>
                final(self).state(m) == old(self).state(m) && final(self).value(m) == old(self).value(m)
                && final(self).alive(m) == old(self).alive(m) && final(self).kind(m) == old(self).kind(m),
    {
        self.track(n);
        proof {
            if old(self).tracks(n) {
                let o = old(self).current_observer().unwrap();
                assert forall|m: NodeId| #![trigger self.state(m)] old(self).has_node(m) implies
                    self.state(m) == old(self).state(m) && self.value(m) == old(self).value(m)
                    && self.alive(m) == old(self).alive(m) && self.kind(m) == old(self).kind(m) by {
                    if m.0 != o {
                        assert(self.same_node(old(self), m.0));
                    }
                }
                assert(self.same_node(old(self), n.0) || n.0 == o);
            }
        }
        self.try_get_untracked(n)
    }

    /// Tracked read of a live node that holds a value.
    pub fn get(&mut self, n: NodeId) -> (r: T)
        where T: Clone
        requires
            old(self).wf(),
            old(self).has_node(n),
            old(self).alive(n),
            old(self).value(n).is_some(),
        ensures
            final(self).wf(),
            cloned(old(self).value(n).unwrap(), r),
            !old(self).tracks(n) ==> *final(self) == *old(self),
            old(self).tracks(n) ==> final(self).sources(NodeId(old(self).current_observer().unwrap()))
                == old(self).sources(NodeId(old(self).current_observer().unwrap())).insert(n.0),
            old(self).tracks(n) ==> final(self).nodes_kept(old(self), set![old(self).current_observer().unwrap()]),
            final(self).node_count() == old(self).node_count(),
            final(self).observers() == old(self).observers(),
            final(self).scopes_same(old(self)),
            final(self).ran_in_pass() == old(self).ran_in_pass(),
            forall|m: NodeId| #![trigger final(self).state(m)] old(self).has_node(m) ==>
                final(self).state(m) == old(self).state(m) && final(self).value(m) == old(self).value(m)
                && final(self).alive(m) == old(self).alive(m) && final(self).kind(m) == old(self).kind(m),
    {
        let r = self.try_get(n);
        r.unwrap()
    }

    /// Untracked read: a clone of the value of `n`; `None` where `n` is disposed.
    pub fn try_get_untracked(&self, n: NodeId) -> (r: Option<T>)
        where T: Clone
        requires
            self.wf(),
            self.has_node(n),
        ensures
            r.is_some() <==> self.alive(n) && self.value(n).is_some(),
            r.is_some() ==> cloned(self.value(n).unwrap(), r.unwrap()),
    {
        match self.try_with_untracked(n) {
            Some(v) => Some(v.clone()),
            None => None,
        }
    }

    /// Untracked read of a live node that holds a value.
    pub fn get_untracked(&self, n: NodeId) -> (r: T)
        where T: Clone
        requires
            self.wf(),
            self.has_node(n),
            self.alive(n),
            self.value(n).is_some(),
        ensures
            cloned(self.value(n).unwrap(), r),
    {
        self.try_get_untracked(n).unwrap()
    }

    /// Untracked access by reference; `None` where `n` is disposed.
    pub fn try_with_untracked(&self, n: NodeId) -> (r: Option<&T>)
        requires
            self.wf(),
            self.has_node(n),
        ensures
            r.is_some() <==> self.alive(n) && self.value(n).is_some(),
            r.is_some() ==> *r.unwrap() == self.value(n).unwrap(),
    {
        let node = &self.nodes[n.0];
        if !node.alive {
            return None;
        }
        match &node.value {
            Some(v) => Some(v),
            None => None,
        }
    }

    /// Untracked access by reference to a live node that holds a value.
    pub fn with_untracked(&self, n: NodeId) -> (r: &T)
        requires
            self.wf(),
            self.has_node(n),
            self.alive(n),
            self.value(n).is_some(),
        ensures
            *r == self.value(n).unwrap(),
    {
        self.try_with_untracked(n).unwrap()
    }
}

/// How many nodes of `s` are in state `Check`.
pub open spec fn count_check<T>(s: Seq<Node<T>>) -> nat
    decreases s.len(),
{
    if s.len() == 0 {
        0
    } else {
        count_check(s.drop_last()) + if s.last().state == NodeState::Check { 1nat } else { 0nat }
    }
}

proof fn lemma_count_check_same<T>(s: Seq<Node<T>>, t: Seq<Node<T>>)
    requires
        s.len() == t.len(),
        forall|j: int| 0 <= j < s.len() ==> (#[trigger] t[j].state == NodeState::Check) == (s[j].state == NodeState::Check),
    ensures
        count_check(t) == count_check(s),
    decreases s.len(),
{
    if s.len() > 0 {
        lemma_count_check_same(s.drop_last(), t.drop_last());
    }
}

proof fn lemma_count_check_clear<T>(s: Seq<Node<T>>, t: Seq<Node<T>>, i: int)
    requires
        s.len() == t.len(),
        0 <= i < s.len(),
        s[i].state == NodeState::Check,
        t[i].state != NodeState::Check,
        forall|j: int| 0 <= j < s.len() && j != i ==> (#[trigger] t[j].state == NodeState::Check) == (s[j].state == NodeState::Check),
    ensures
        count_check(t) < count_check(s),
    decreases s.len(),
{
    if i == s.len() - 1 {
        lemma_count_check_same(s.drop_last(), t.drop_last());
    } else {
        lemma_count_check_clear(s.drop_last(), t.drop_last(), i);
    }
}

/// Whether `v` holds `x`.
pub fn contains(v: &Vec<usize>, x: usize) -> (r: bool)
    ensures
        r == v@.contains(x),
{
    let mut i: usize = 0;
    while i < v.len()
        invariant
            i <= v@.len(),
            forall|j: int| 0 <= j < i ==> v@[j] != x,
        decreases v@.len() - i,
    {
        if v[i] == x {
            return true;
        }
        i += 1;
    }
    false
}

} // verus!
