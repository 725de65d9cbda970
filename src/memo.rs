use vstd::prelude::*;
use crate::node::{NodeId, NodeKind, NodeState, ScopeId};
use crate::runtime::Runtime;

verus! {

/// A handle to a memo: a cached derived value that recomputes once per change
/// of what it read and notifies its dependents only when its value changes.
#[derive(Clone, Copy, Debug, PartialEq, Eq, Hash, Structural)]
pub struct Memo {
    pub id: NodeId,
}

/// A memo whose first evaluation is running. It becomes a `Memo` only when
/// that first value is stored, so every `Memo` handle has a value.
#[derive(Debug, PartialEq, Eq, Structural)]
pub struct PendingMemo {
    pub id: NodeId,
}

/// Creates a memo owned by `cx` and starts its first evaluation at once: the
/// host computes the value (with no previous value) and hands it to
/// `PendingMemo::finish`, which returns the memo. `None` where `cx` is disposed.
pub fn create_memo<T, C>(rt: &mut Runtime<T, C>, cx: ScopeId) -> (r: Option<PendingMemo>)
    requires
        old(rt).wf(),
        old(rt).has_scope(cx),
        old(rt).node_count() + 1 < usize::MAX,
    ensures
        final(rt).wf(),
        final(rt).scope_count() == old(rt).scope_count(),
        forall|s: ScopeId| #![trigger final(rt).disposed(s)] old(rt).has_scope(s) ==>
            final(rt).disposed(s) == old(rt).disposed(s) && final(rt).cleanups(s) == old(rt).cleanups(s),
        final(rt).ran_in_pass() == old(rt).ran_in_pass(),
        old(rt).disposed(cx) ==> r.is_none() && *final(rt) == *old(rt),
        !old(rt).disposed(cx) ==> r == Some(PendingMemo { id: NodeId(old(rt).node_count() as usize) }) && {
            let n = r.unwrap().id;
            &&& final(rt).node_count() == old(rt).node_count() + 1
            &&& final(rt).nodes_kept(old(rt), Set::empty())
            &&& final(rt).alive(n) && final(rt).kind(n) == NodeKind::Memo
            &&& final(rt).value(n).is_none()
            &&& final(rt).state(n) == NodeState::Running
            &&& final(rt).sources(n) == Set::<usize>::empty()
            &&& final(rt).owner(n) == cx
            &&& final(rt).observers() == old(rt).observers().push(n.0)
        },
{
    match rt.create_memo(cx) {
        Some(id) => Some(PendingMemo { id }),
        None => None,
    }
}

impl PendingMemo {
    /// Ends the first evaluation with `value`, which the memo caches, and
    /// returns the memo. Where its scope was disposed during the evaluation,
    /// the memo is already dead and the value is dropped.
    pub fn finish<T: PartialEq, C>(self, rt: &mut Runtime<T, C>, value: T) -> (r: Memo)
        requires
            old(rt).wf(),
            old(rt).has_node(self.id),
            old(rt).kind(self.id) == NodeKind::Memo,
            old(rt).value(self.id).is_none(),
            old(rt).observers().len() > 0,
            old(rt).observers().last() == self.id.0,
        ensures
            r.id == self.id,
            final(rt).wf(),
            final(rt).observers() == old(rt).observers().drop_last(),
            final(rt).node_count() == old(rt).node_count(),
            final(rt).ran_in_pass() == old(rt).ran_in_pass(),
            final(rt).scope_count() == old(rt).scope_count(),
            forall|sc: ScopeId| #![trigger final(rt).disposed(sc)] old(rt).has_scope(sc) ==>
                final(rt).disposed(sc) == old(rt).disposed(sc) && final(rt).cleanups(sc) == old(rt).cleanups(sc),
            !old(rt).alive(self.id) ==> final(rt).nodes_kept(old(rt), Set::empty()),
            old(rt).alive(self.id) ==> {
                &&& r.ready(final(rt))
                &&& final(rt).value(r.id) == Some(value)
                &&& Runtime::memo_finished(old(rt), final(rt), self.id, value, true)
            },
    {
        let changed = rt.finish_memo(self.id, value);
        proof {
            if old(rt).alive(self.id) {
                assert(changed);
                assert(rt.sources(self.id) == old(rt).sources(self.id));
                assert(rt.alive(self.id) && rt.kind(self.id) == NodeKind::Memo);
            }
        }
        Memo { id: self.id }
    }
}

impl Memo {
    /// A memo of `rt` whose first evaluation has finished and that is not disposed.
    pub open spec fn ready<T, C>(&self, rt: &Runtime<T, C>) -> bool {
        &&& rt.wf()
        &&& rt.has_node(self.id)
        &&& rt.kind(self.id) == NodeKind::Memo
        &&& rt.alive(self.id)
        &&& rt.value(self.id).is_some()
    }

    /// Tracked read: subscribes the running computation, if any, and clones the value.
    pub fn get<T: Clone, C>(&self, rt: &mut Runtime<T, C>) -> (r: T)
        requires
            self.ready(old(rt)),
        ensures
            final(rt).wf(),
            cloned(old(rt).value(self.id).unwrap(), r),
            !old(rt).tracks(self.id) ==> *final(rt) == *old(rt),
            old(rt).tracks(self.id) ==> final(rt).sources(NodeId(old(rt).current_observer().unwrap()))
                == old(rt).sources(NodeId(old(rt).current_observer().unwrap())).insert(self.id.0),
            final(rt).observers() == old(rt).observers(),
            final(rt).ran_in_pass() == old(rt).ran_in_pass(),
            final(rt).node_count() == old(rt).node_count(),
            forall|m: NodeId| #![trigger final(rt).state(m)] old(rt).has_node(m) ==>
                final(rt).state(m) == old(rt).state(m) && final(rt).value(m) == old(rt).value(m)
                && final(rt).alive(m) == old(rt).alive(m) && final(rt).kind(m) == old(rt).kind(m),
            old(rt).tracks(self.id) ==> final(rt).nodes_kept(old(rt), set![old(rt).current_observer().unwrap()]),
            final(rt).scopes_same(old(rt)),
    {
        rt.get(self.id)
    }

    /// Tracked read that reports a disposed memo as `None` instead of failing.
    pub fn try_get<T: Clone, C>(&self, rt: &mut Runtime<T, C>) -> (r: Option<T>)
        requires
            old(rt).wf(),
            old(rt).has_node(self.id),
        ensures
            final(rt).wf(),
            r.is_some() <==> old(rt).alive(self.id) && old(rt).value(self.id).is_some(),
            old(rt).alive(self.id) <==> !old(rt).disposed(old(rt).owner(self.id)),
            r.is_some() ==> cloned(old(rt).value(self.id).unwrap(), r.unwrap()),
            !old(rt).tracks(self.id) ==> *final(rt) == *old(rt),
            old(rt).tracks(self.id) ==> final(rt).sources(NodeId(old(rt).current_observer().unwrap()))
                == old(rt).sources(NodeId(old(rt).current_observer().unwrap())).insert(self.id.0),
            final(rt).observers() == old(rt).observers(),
            final(rt).ran_in_pass() == old(rt).ran_in_pass(),
            final(rt).node_count() == old(rt).node_count(),
            forall|m: NodeId| #![trigger final(rt).state(m)] old(rt).has_node(m) ==>
                final(rt).state(m) == old(rt).state(m) && final(rt).value(m) == old(rt).value(m)
                && final(rt).alive(m) == old(rt).alive(m) && final(rt).kind(m) == old(rt).kind(m),
            old(rt).tracks(self.id) ==> final(rt).nodes_kept(old(rt), set![old(rt).current_observer().unwrap()]),
            final(rt).scopes_same(old(rt)),
    {
        proof {
            if old(rt).disposed(old(rt).owner(self.id)) {
                old(rt).lemma_disposed_owner_dead(self.id);
            } else {
                old(rt).lemma_live_owner_alive(self.id);
            }
        }
        rt.try_get(self.id)
    }

    /// Bridges the memo to a stream: creates an effect owned by `cx` whose one
    /// source is this memo, and registers `close`, the host's callback that
    /// closes the stream's channel, as a cleanup of `cx`. The effect has done
    /// its first run: the host sends the memo's current value now, and again
    /// each time `next_to_run` hands the effect out. Where `cx` is disposed,
    /// nothing is created and `close` comes back.
    pub fn to_stream<T, C>(&self, rt: &mut Runtime<T, C>, cx: ScopeId, close: C) -> (r: Result<NodeId, C>)
        requires
            self.ready(old(rt)),
            old(rt).has_scope(cx),
            old(rt).node_count() + 1 < usize::MAX,
        ensures
            final(rt).wf(),
            final(rt).ran_in_pass() == old(rt).ran_in_pass(),
            old(rt).disposed(cx) ==> r == Err::<NodeId, C>(close) && *final(rt) == *old(rt),
            !old(rt).disposed(cx) ==> r == Ok::<NodeId, C>(NodeId(old(rt).node_count() as usize)) && {
                let e = NodeId(old(rt).node_count() as usize);
                &&& final(rt).node_count() == old(rt).node_count() + 1
                &&& final(rt).alive(e) && final(rt).kind(e) == NodeKind::Effect
                &&& final(rt).state(e) == NodeState::Clean
                &&& final(rt).sources(e) == set![self.id.0]
                &&& final(rt).owner(e) == cx
                &&& final(rt).cleanups(cx) == old(rt).cleanups(cx).push(close)
                &&& final(rt).observers() == old(rt).observers()
                &&& final(rt).value(self.id) == old(rt).value(self.id)
                &&& final(rt).nodes_kept(old(rt), Set::empty())
                &&& final(rt).scope_count() == old(rt).scope_count()
                &&& forall|s: ScopeId| #![trigger final(rt).disposed(s)] old(rt).has_scope(s) ==>
                    final(rt).disposed(s) == old(rt).disposed(s) && (s != cx ==> final(rt).cleanups(s) == old(rt).cleanups(s))
            },
    {
        let e = match rt.create_effect(cx) {
            Some(e) => e,
            None => {
                return Err(close);
            },
        };
        proof {
            Runtime::lemma_kept_view(rt, old(rt), Set::empty(), self.id);
            assert(rt.tracks(self.id));
        }
        let ghost created = *rt;
        rt.track(self.id);
        proof {
            assert(rt.state(e) == NodeState::Running);
            assert(rt.state(self.id) == old(rt).state(self.id));
            assert(rt.sources(e) =~= set![self.id.0]);
            assert(rt.value(self.id) == old(rt).value(self.id));
        }
        let ghost tracked_rt = *rt;
        rt.finish_effect(e);
        proof {
            assert(rt.observers() =~= old(rt).observers());
            Runtime::lemma_kept_view(rt, &tracked_rt, set![e.0], self.id);
        }
        let ghost finished = *rt;
        let back = rt.on_cleanup(cx, close);
        proof {
            Runtime::lemma_kept_view(rt, &finished, Set::empty(), self.id);
            Runtime::lemma_kept_view(rt, &finished, Set::empty(), e);
            assert(finished.cleanups(cx) == old(rt).cleanups(cx));
            assert(rt.cleanups(cx) == old(rt).cleanups(cx).push(close));
            assert(rt.node_count() == old(rt).node_count() + 1);
            assert(rt.kind(e) == NodeKind::Effect);
            assert(rt.sources(e) == set![self.id.0]);
            assert(rt.value(self.id) == old(rt).value(self.id));
            assert(created.current_observer() == Some(e.0));
            Runtime::lemma_kept_compose(old(rt), &created, &tracked_rt, Set::empty(), set![e.0]);
            Runtime::lemma_kept_compose(old(rt), &tracked_rt, &finished, Set::<usize>::empty().union(set![e.0]), set![e.0]);
            Runtime::lemma_kept_compose(old(rt), &finished, rt, Set::<usize>::empty().union(set![e.0]).union(set![e.0]), Set::empty());
            let ex = Set::<usize>::empty().union(set![e.0]).union(set![e.0]).union(Set::<usize>::empty());
            assert forall|x: usize| #[trigger] ex.contains(x) implies x >= old(rt).node_count() by {
                assert(x == e.0);
            }
            Runtime::lemma_kept_fresh(rt, old(rt), ex);
            assert forall|sc: ScopeId| #![trigger rt.disposed(sc)] old(rt).has_scope(sc) implies
                rt.disposed(sc) == old(rt).disposed(sc) && (sc != cx ==> rt.cleanups(sc) == old(rt).cleanups(sc)) by {
                let d1 = created.disposed(sc);
                let d2 = tracked_rt.disposed(sc);
                let d3 = finished.disposed(sc);
            }
        }
        Ok(e)
    }

    /// Registers the memo as a source of the running computation, if any,
    /// without reading its value.
    pub fn subscribe<T, C>(&self, rt: &mut Runtime<T, C>)
        requires
            old(rt).wf(),
            old(rt).has_node(self.id),
        ensures
            final(rt).wf(),
            !old(rt).tracks(self.id) ==> *final(rt) == *old(rt),
            old(rt).tracks(self.id) ==> final(rt).sources(NodeId(old(rt).current_observer().unwrap()))
                == old(rt).sources(NodeId(old(rt).current_observer().unwrap())).insert(self.id.0),
            final(rt).observers() == old(rt).observers(),
            final(rt).ran_in_pass() == old(rt).ran_in_pass(),
            final(rt).node_count() == old(rt).node_count(),
            forall|m: NodeId| #![trigger final(rt).state(m)] old(rt).has_node(m) ==>
                final(rt).state(m) == old(rt).state(m) && final(rt).value(m) == old(rt).value(m)
                && final(rt).alive(m) == old(rt).alive(m) && final(rt).kind(m) == old(rt).kind(m),
            old(rt).tracks(self.id) ==> final(rt).nodes_kept(old(rt), set![old(rt).current_observer().unwrap()]),
            final(rt).scopes_same(old(rt)),
    {
        rt.track(self.id);
    }

    /// Untracked read: clones the value and registers nothing.
    pub fn get_untracked<T: Clone, C>(&self, rt: &Runtime<T, C>) -> (r: T)
        requires
            self.ready(rt),
        ensures
            cloned(rt.value(self.id).unwrap(), r),
    {
        rt.get_untracked(self.id)
    }

    /// Untracked read; `None` for a disposed memo.
    pub fn try_get_untracked<T: Clone, C>(&self, rt: &Runtime<T, C>) -> (r: Option<T>)
        requires
            rt.wf(),
            rt.has_node(self.id),
        ensures
            r.is_some() <==> rt.alive(self.id) && rt.value(self.id).is_some(),
            rt.alive(self.id) <==> !rt.disposed(rt.owner(self.id)),
            r.is_some() ==> cloned(rt.value(self.id).unwrap(), r.unwrap()),
    {
        proof {
            if rt.disposed(rt.owner(self.id)) {
                rt.lemma_disposed_owner_dead(self.id);
            } else {
                rt.lemma_live_owner_alive(self.id);
            }
        }
        rt.try_get_untracked(self.id)
    }

    /// Untracked access by reference: applies `f` to the value.
    pub fn with_untracked<T, C, O, F: FnOnce(&T) -> O>(&self, rt: &Runtime<T, C>, f: F) -> (r: O)
        requires
            self.ready(rt),
            f.requires((&rt.value(self.id).unwrap(),)),
        ensures
            f.ensures((&rt.value(self.id).unwrap(),), r),
    {
        f(rt.with_untracked(self.id))
    }

    /// Untracked access by reference; `None` for a disposed memo, where `f` is not called.
    pub fn try_with_untracked<T, C, O, F: FnOnce(&T) -> O>(&self, rt: &Runtime<T, C>, f: F) -> (r: Option<O>)
        requires
            rt.wf(),
            rt.has_node(self.id),
            rt.alive(self.id) && rt.value(self.id).is_some() ==> f.requires((&rt.value(self.id).unwrap(),)),
        ensures
            r.is_some() <==> rt.alive(self.id) && rt.value(self.id).is_some(),
            rt.alive(self.id) <==> !rt.disposed(rt.owner(self.id)),
            r.is_some() ==> f.ensures((&rt.value(self.id).unwrap(),), r.unwrap()),
    {
        proof {
            if rt.disposed(rt.owner(self.id)) {
                rt.lemma_disposed_owner_dead(self.id);
            } else {
                rt.lemma_live_owner_alive(self.id);
            }
        }
        match rt.try_with_untracked(self.id) {
            Some(v) => Some(f(v)),
            None => None,
        }
    }

    /// Tracked access by reference: subscribes the running computation, if
    /// any, then applies `f` to the value.
    pub fn with<T, C, O, F: FnOnce(&T) -> O>(&self, rt: &mut Runtime<T, C>, f: F) -> (r: O)
        requires
            self.ready(old(rt)),
            f.requires((&old(rt).value(self.id).unwrap(),)),
        ensures
            final(rt).wf(),
            f.ensures((&old(rt).value(self.id).unwrap(),), r),
            !old(rt).tracks(self.id) ==> *final(rt) == *old(rt),
            old(rt).tracks(self.id) ==> final(rt).sources(NodeId(old(rt).current_observer().unwrap()))
                == old(rt).sources(NodeId(old(rt).current_observer().unwrap())).insert(self.id.0),
            final(rt).observers() == old(rt).observers(),
            final(rt).ran_in_pass() == old(rt).ran_in_pass(),
            final(rt).node_count() == old(rt).node_count(),
            forall|m: NodeId| #![trigger final(rt).state(m)] old(rt).has_node(m) ==>
                final(rt).state(m) == old(rt).state(m) && final(rt).value(m) == old(rt).value(m)
                && final(rt).alive(m) == old(rt).alive(m) && final(rt).kind(m) == old(rt).kind(m),
            old(rt).tracks(self.id) ==> final(rt).nodes_kept(old(rt), set![old(rt).current_observer().unwrap()]),
            final(rt).scopes_same(old(rt)),
    {
        rt.track(self.id);
        proof {
            assert(rt.state(self.id) == old(rt).state(self.id));
        }
        f(rt.with_untracked(self.id))
    }

    /// Tracked access by reference; `None` for a disposed memo, where `f` is not called.
    pub fn try_with<T, C, O, F: FnOnce(&T) -> O>(&self, rt: &mut Runtime<T, C>, f: F) -> (r: Option<O>)
        requires
            old(rt).wf(),
            old(rt).has_node(self.id),
            old(rt).alive(self.id) && old(rt).value(self.id).is_some() ==> f.requires((&old(rt).value(self.id).unwrap(),)),
        ensures
            final(rt).wf(),
            r.is_some() <==> old(rt).alive(self.id) && old(rt).value(self.id).is_some(),
            old(rt).alive(self.id) <==> !old(rt).disposed(old(rt).owner(self.id)),
            r.is_some() ==> f.ensures((&old(rt).value(self.id).unwrap(),), r.unwrap()),
            !old(rt).tracks(self.id) ==> *final(rt) == *old(rt),
            old(rt).tracks(self.id) ==> final(rt).sources(NodeId(old(rt).current_observer().unwrap()))
                == old(rt).sources(NodeId(old(rt).current_observer().unwrap())).insert(self.id.0),
            final(rt).observers() == old(rt).observers(),
            final(rt).ran_in_pass() == old(rt).ran_in_pass(),
            final(rt).node_count() == old(rt).node_count(),
            forall|m: NodeId| #![trigger final(rt).state(m)] old(rt).has_node(m) ==>
                final(rt).state(m) == old(rt).state(m) && final(rt).value(m) == old(rt).value(m)
                && final(rt).alive(m) == old(rt).alive(m) && final(rt).kind(m) == old(rt).kind(m),
            old(rt).tracks(self.id) ==> final(rt).nodes_kept(old(rt), set![old(rt).current_observer().unwrap()]),
            final(rt).scopes_same(old(rt)),
    {
        proof {
            if old(rt).disposed(old(rt).owner(self.id)) {
                old(rt).lemma_disposed_owner_dead(self.id);
            } else {
                old(rt).lemma_live_owner_alive(self.id);
            }
        }
        rt.track(self.id);
        proof {
            assert(rt.state(self.id) == old(rt).state(self.id));
        }
        match rt.try_with_untracked(self.id) {
            Some(v) => Some(f(v)),
            None => None,
        }
    }
}

} // verus!
