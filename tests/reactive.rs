use leptos_reactive::memo::{create_memo, Memo};
use leptos_reactive::node::{NodeId, NodeKind, NodeState, ScopeId, Step};
use leptos_reactive::runtime::Runtime;

type Rt = Runtime<i64, &'static str>;

/// Hands each node that the scheduler picks to `run`, which evaluates it and
/// reports back, until the pass is drained or stalls.
fn drain(rt: &mut Rt, run: &mut dyn FnMut(&mut Rt, NodeId)) -> Step {
    loop {
        match rt.next_to_run() {
            Step::Run(id) => run(rt, id),
            other => return other,
        }
    }
}

fn signal(rt: &mut Rt, cx: ScopeId, v: i64) -> NodeId {
    rt.create_signal(cx, v).unwrap()
}

#[test]
fn memo_and_effect_run_once_per_write() {
    let (mut rt, root) = Rt::new();
    let count = signal(&mut rt, root, 0);
    let doubled = create_memo(&mut rt, root).unwrap();
    let v = rt.get(count) * 2;
    let doubled = doubled.finish(&mut rt, v);
    assert_eq!(doubled.get_untracked(&rt), 0);
    let mut log: Vec<i64> = Vec::new();
    let effect = rt.create_effect(root).unwrap();
    log.push(doubled.get(&mut rt));
    rt.finish_effect(effect);
    assert_eq!(log, vec![0]);

    assert!(rt.set(count, 5));
    let mut memo_runs = 0;
    let mut effect_runs = 0;
    let step = drain(&mut rt, &mut |rt, id| {
        if id == doubled.id {
            memo_runs += 1;
            let v = rt.get(count) * 2;
            rt.finish_memo(id, v);
        } else if id == effect {
            effect_runs += 1;
            log.push(doubled.get(rt));
            rt.finish_effect(id);
        }
    });
    assert_eq!(step, Step::Idle);
    assert_eq!(memo_runs, 1);
    assert_eq!(effect_runs, 1);
    assert_eq!(log, vec![0, 10]);
}

#[test]
fn equal_memo_value_does_not_rerun_effect() {
    let (mut rt, root) = Rt::new();
    let count = signal(&mut rt, root, 0);
    let parity = create_memo(&mut rt, root).unwrap();
    let v = rt.get(count) % 2;
    let parity = parity.finish(&mut rt, v);
    let mut log: Vec<i64> = Vec::new();
    let effect = rt.create_effect(root).unwrap();
    log.push(parity.get(&mut rt));
    rt.finish_effect(effect);

    let mut memo_runs = 0;
    let mut run = |rt: &mut Rt, id: NodeId, memo_runs: &mut i32, log: &mut Vec<i64>| {
        if id == parity.id {
            *memo_runs += 1;
            let v = rt.get(count) % 2;
            rt.finish_memo(id, v);
        } else {
            log.push(parity.get(rt));
            rt.finish_effect(id);
        }
    };
    rt.set(count, 1);
    drain(&mut rt, &mut |rt, id| run(rt, id, &mut memo_runs, &mut log));
    assert_eq!(parity.get_untracked(&rt), 1);
    assert_eq!(log, vec![0, 1]);

    rt.set(count, 3);
    drain(&mut rt, &mut |rt, id| run(rt, id, &mut memo_runs, &mut log));
    assert_eq!(memo_runs, 2);
    assert_eq!(parity.get_untracked(&rt), 1);
    assert_eq!(log, vec![0, 1]);
}

#[test]
fn effects_see_consistent_signal_and_memo() {
    let (mut rt, root) = Rt::new();
    let a = signal(&mut rt, root, 1);
    let b = create_memo(&mut rt, root).unwrap();
    let v = rt.get(a) * 10;
    let b = b.finish(&mut rt, v);
    let mut seen: Vec<(NodeId, i64, i64)> = Vec::new();
    let mut effects: Vec<NodeId> = Vec::new();
    for _ in 0..2 {
        let e = rt.create_effect(root).unwrap();
        let pair = (rt.get(a), b.get(&mut rt));
        seen.push((e, pair.0, pair.1));
        rt.finish_effect(e);
        effects.push(e);
    }
    rt.set(a, 2);
    drain(&mut rt, &mut |rt, id| {
        if id == b.id {
            let v = rt.get(a) * 10;
            rt.finish_memo(id, v);
        } else {
            let pair = (rt.get(a), b.get(rt));
            seen.push((id, pair.0, pair.1));
            rt.finish_effect(id);
        }
    });
    assert_eq!(seen.len(), 4);
    for (_, x, y) in &seen {
        assert_eq!(*y, *x * 10);
    }
    assert_eq!(seen[2], (effects[0], 2, 20));
    assert_eq!(seen[3], (effects[1], 2, 20));
}

#[test]
fn disposing_scope_runs_cleanup_and_ends_stream() {
    let (mut rt, root) = Rt::new();
    let source = signal(&mut rt, root, 3);
    let s = rt.create_scope(Some(root));
    assert_eq!(rt.on_cleanup(s, "C"), None);
    let memo = create_memo(&mut rt, s).unwrap();
    let v = rt.get(source) + 1;
    let memo = memo.finish(&mut rt, v);

    let mut sent: Vec<i64> = Vec::new();
    let stream = memo.to_stream(&mut rt, s, "close").ok().unwrap();
    sent.push(memo.get_untracked(&rt));

    let mut on_run = |rt: &mut Rt, id: NodeId, sent: &mut Vec<i64>| {
        if id == memo.id {
            let v = rt.get(source) + 1;
            rt.finish_memo(id, v);
        } else if id == stream {
            sent.push(memo.get(rt));
            rt.finish_effect(id);
        }
    };
    rt.set(source, 4);
    drain(&mut rt, &mut |rt, id| on_run(rt, id, &mut sent));
    assert_eq!(sent, vec![4, 5]);

    let cleanups = rt.dispose(s);
    assert_eq!(cleanups, vec!["close", "C"]);
    assert_eq!(cleanups.iter().filter(|c| **c == "C").count(), 1);
    assert_eq!(memo.try_get(&mut rt), None);
    assert_eq!(memo.try_get_untracked(&rt), None);

    rt.set(source, 10);
    let step = drain(&mut rt, &mut |rt, id| on_run(rt, id, &mut sent));
    assert_eq!(step, Step::Idle);
    assert_eq!(sent, vec![4, 5]);
    assert!(rt.dispose(s).is_empty());
}

#[test]
fn memo_drops_stale_branch_dependency() {
    let (mut rt, root) = Rt::new();
    let flag = signal(&mut rt, root, 1);
    let x = signal(&mut rt, root, 10);
    let y = signal(&mut rt, root, 20);
    let mut runs = 0;
    let mut eval = |rt: &mut Rt, m: NodeId, runs: &mut i32| {
        *runs += 1;
        let v = if rt.get(flag) != 0 { rt.get(x) } else { rt.get(y) };
        rt.finish_memo(m, v);
    };
    let pending = create_memo(&mut rt, root).unwrap();
    eval(&mut rt, pending.id, &mut runs);
    let memo = Memo { id: pending.id };
    assert_eq!(memo.get_untracked(&rt), 10);

    rt.set(flag, 0);
    drain(&mut rt, &mut |rt, id| eval(rt, id, &mut runs));
    assert_eq!(runs, 2);
    assert_eq!(memo.get_untracked(&rt), 20);

    rt.set(x, 100);
    drain(&mut rt, &mut |rt, id| eval(rt, id, &mut runs));
    assert_eq!(runs, 2);

    rt.set(y, 30);
    drain(&mut rt, &mut |rt, id| eval(rt, id, &mut runs));
    assert_eq!(runs, 3);
    assert_eq!(memo.get_untracked(&rt), 30);
}

#[test]
fn memo_value_available_right_after_creation() {
    let (mut rt, root) = Rt::new();
    let a = signal(&mut rt, root, 7);
    let m = create_memo(&mut rt, root).unwrap();
    let v = rt.get(a);
    let m = m.finish(&mut rt, v);
    assert_eq!(m.try_get(&mut rt), Some(7));
    assert_eq!(m.get(&mut rt), 7);
    assert_eq!(m.with_untracked(&rt, |v| *v + 1), 8);
    assert_eq!(m.try_with_untracked(&rt, |v| *v * 2), Some(14));
    assert_eq!(m.with(&mut rt, |v| *v - 1), 6);
    assert_eq!(m.try_with(&mut rt, |v| *v), Some(7));
    assert_eq!(rt.node_state(m.id), NodeState::Clean);
}

#[test]
fn untracked_read_creates_no_dependency() {
    let (mut rt, root) = Rt::new();
    let a = signal(&mut rt, root, 1);
    let b = signal(&mut rt, root, 2);
    let e = rt.create_effect(root).unwrap();
    let _ = rt.get_untracked(a);
    let _ = rt.get(b);
    rt.finish_effect(e);
    let mut runs = 0;
    rt.set(a, 5);
    drain(&mut rt, &mut |rt, id| {
        runs += 1;
        rt.finish_effect(id);
    });
    assert_eq!(runs, 0);
    rt.set(b, 5);
    drain(&mut rt, &mut |rt, id| {
        runs += 1;
        let _ = rt.get(b);
        rt.finish_effect(id);
    });
    assert_eq!(runs, 1);
}

#[test]
fn diamond_recomputes_each_node_once() {
    let (mut rt, root) = Rt::new();
    let a = signal(&mut rt, root, 1);
    let b = create_memo(&mut rt, root).unwrap();
    let v = rt.get(a) + 1;
    let b = b.finish(&mut rt, v);
    let c = create_memo(&mut rt, root).unwrap();
    let v = rt.get(a) * 2;
    let c = c.finish(&mut rt, v);
    let d = create_memo(&mut rt, root).unwrap();
    let v = b.get(&mut rt) + c.get(&mut rt);
    let d = d.finish(&mut rt, v);
    assert_eq!(d.get_untracked(&rt), 4);

    let mut runs: Vec<NodeId> = Vec::new();
    rt.set(a, 10);
    let step = drain(&mut rt, &mut |rt, id| {
        runs.push(id);
        let v = if id == b.id {
            rt.get(a) + 1
        } else if id == c.id {
            rt.get(a) * 2
        } else {
            Memo { id: b.id }.get(rt) + Memo { id: c.id }.get(rt)
        };
        rt.finish_memo(id, v);
    });
    assert_eq!(step, Step::Idle);
    assert_eq!(runs, vec![b.id, c.id, d.id]);
    assert_eq!(d.get_untracked(&rt), 31);
}

#[test]
fn unchanged_upstream_settles_check_nodes_without_running() {
    let (mut rt, root) = Rt::new();
    let a = signal(&mut rt, root, 2);
    let sign = create_memo(&mut rt, root).unwrap();
    let v = if rt.get(a) > 0 { 1 } else { -1 };
    let sign = sign.finish(&mut rt, v);
    let e = rt.create_effect(root).unwrap();
    let _ = sign.get(&mut rt);
    rt.finish_effect(e);
    rt.set(a, 5);
    assert_eq!(rt.node_state(sign.id), NodeState::Dirty);
    assert_eq!(rt.node_state(e), NodeState::Check);
    let mut effect_runs = 0;
    drain(&mut rt, &mut |rt, id| {
        if id == sign.id {
            let v = if rt.get(a) > 0 { 1 } else { -1 };
            rt.finish_memo(id, v);
        } else {
            effect_runs += 1;
            rt.finish_effect(id);
        }
    });
    assert_eq!(effect_runs, 0);
    assert_eq!(rt.node_state(e), NodeState::Clean);
}

#[test]
fn dependency_cycle_stalls() {
    let (mut rt, root) = Rt::new();
    let s = signal(&mut rt, root, 1);
    let m1 = create_memo(&mut rt, root).unwrap();
    let v = rt.get(s);
    let m1 = m1.finish(&mut rt, v);
    let m2 = create_memo(&mut rt, root).unwrap();
    let v = m1.get(&mut rt) + 1;
    let m2 = m2.finish(&mut rt, v);
    // m1 now also reads m2, closing a cycle: m2 marks m1 again after m1
    // already ran in this pass, and the pass stops there.
    rt.set(s, 2);
    let mut m1_runs = 0;
    let step = drain(&mut rt, &mut |rt, id| {
        if id == m1.id {
            m1_runs += 1;
            let v = rt.get(s) + Memo { id: m2.id }.get(rt);
            rt.finish_memo(id, v);
        } else {
            let v = Memo { id: m1.id }.get(rt) + 1;
            rt.finish_memo(id, v);
        }
    });
    assert_eq!(step, Step::Stalled);
    assert_eq!(m1_runs, 1);
    assert!(rt.has_pending());
    assert_eq!(rt.node_state(m1.id), NodeState::Dirty);
}

#[test]
fn disposed_handles_are_detected() {
    let (mut rt, root) = Rt::new();
    let s = rt.create_scope(Some(root));
    let sig = signal(&mut rt, s, 1);
    assert!(rt.dispose(s).is_empty());
    assert!(!rt.set(sig, 2));
    assert_eq!(rt.try_get(sig), None);
    assert_eq!(rt.try_get_untracked(sig), None);
    assert_eq!(rt.create_signal(s, 5), None);
    assert_eq!(rt.create_effect(s), None);
    assert!(create_memo(&mut rt, s).is_none());
    assert_eq!(rt.on_cleanup(s, "late"), Some("late"));
}

#[test]
fn writing_a_memo_is_refused() {
    let (mut rt, root) = Rt::new();
    let m = create_memo(&mut rt, root).unwrap();
    let m = m.finish(&mut rt, 1);
    assert!(!rt.set(m.id, 2));
    assert_eq!(rt.node_kind(m.id), NodeKind::Memo);
    assert_eq!(m.get_untracked(&rt), 1);
}

#[test]
fn dispose_cascades_to_children_in_reverse_order() {
    let (mut rt, root) = Rt::new();
    let parent = rt.create_scope(Some(root));
    let child = rt.create_scope(Some(parent));
    rt.on_cleanup(parent, "p1");
    rt.on_cleanup(parent, "p2");
    rt.on_cleanup(child, "c1");
    rt.on_cleanup(child, "c2");
    let sig = signal(&mut rt, child, 1);
    let out = rt.dispose(parent);
    assert_eq!(out, vec!["p2", "p1", "c2", "c1"]);
    assert_eq!(rt.try_get_untracked(sig), None);
    assert!(rt.dispose(child).is_empty());
    assert!(rt.dispose(parent).is_empty());
}

#[test]
fn signal_write_notifies_even_when_equal() {
    let (mut rt, root) = Rt::new();
    let a = signal(&mut rt, root, 1);
    let e = rt.create_effect(root).unwrap();
    let _ = rt.get(a);
    rt.finish_effect(e);
    let mut runs = 0;
    rt.set(a, 1);
    drain(&mut rt, &mut |rt, id| {
        runs += 1;
        let _ = rt.get(a);
        rt.finish_effect(id);
    });
    assert_eq!(runs, 1);
}

#[test]
fn stream_on_disposed_scope_hands_close_back() {
    let (mut rt, root) = Rt::new();
    let m = create_memo(&mut rt, root).unwrap();
    let m = m.finish(&mut rt, 3);
    let s = rt.create_scope(Some(root));
    rt.dispose(s);
    assert_eq!(m.to_stream(&mut rt, s, "close"), Err("close"));
    assert_eq!(rt.next_to_run(), Step::Idle);
}

#[test]
fn subscribe_tracks_without_reading() {
    let (mut rt, root) = Rt::new();
    let a = signal(&mut rt, root, 1);
    let m = create_memo(&mut rt, root).unwrap();
    let v = rt.get(a);
    let m = m.finish(&mut rt, v);
    let e = rt.create_effect(root).unwrap();
    m.subscribe(&mut rt);
    rt.finish_effect(e);
    rt.set(a, 2);
    let mut effect_runs = 0;
    drain(&mut rt, &mut |rt, id| {
        if id == m.id {
            let v = rt.get(a);
            rt.finish_memo(id, v);
        } else {
            effect_runs += 1;
            m.subscribe(rt);
            rt.finish_effect(id);
        }
    });
    assert_eq!(effect_runs, 1);
    assert_eq!(m.try_with(&mut rt, |v| *v), Some(2));
}

#[test]
fn disposed_memo_reads_are_absent() {
    let (mut rt, root) = Rt::new();
    let s = rt.create_scope(Some(root));
    let m = create_memo(&mut rt, s).unwrap();
    let m = m.finish(&mut rt, 9);
    rt.dispose(s);
    assert_eq!(m.try_with(&mut rt, |v| *v), None);
    assert_eq!(m.try_with_untracked(&rt, |v| *v), None);
    assert!(!rt.has_pending());
}

#[test]
fn write_inside_effect_joins_the_pass() {
    let (mut rt, root) = Rt::new();
    let a = signal(&mut rt, root, 1);
    let b = signal(&mut rt, root, 0);
    let pending = create_memo(&mut rt, root).unwrap();
    let v = rt.get(b) + 100;
    let m = pending.finish(&mut rt, v);
    let e = rt.create_effect(root).unwrap();
    let _ = rt.get(a);
    rt.finish_effect(e);

    rt.set(a, 2);
    let mut order: Vec<NodeId> = Vec::new();
    let step = drain(&mut rt, &mut |rt, id| {
        order.push(id);
        if id == e {
            let x = rt.get(a);
            assert!(rt.set(b, x * 10));
            rt.finish_effect(id);
        } else {
            let v = rt.get(b) + 100;
            rt.finish_memo(id, v);
        }
    });
    assert_eq!(step, Step::Idle);
    assert_eq!(order, vec![e, m.id]);
    assert_eq!(m.get_untracked(&rt), 120);
}

#[test]
fn pending_memo_has_no_value_until_finished() {
    let (mut rt, root) = Rt::new();
    let pending = create_memo(&mut rt, root).unwrap();
    assert_eq!(rt.try_get_untracked(pending.id), None);
    let m = pending.finish(&mut rt, 5);
    assert_eq!(m.try_get(&mut rt), Some(5));
}

#[test]
fn cleanups_around_a_stream_run_in_reverse_order() {
    let (mut rt, root) = Rt::new();
    let s = rt.create_scope(Some(root));
    rt.on_cleanup(s, "C1");
    let pending = create_memo(&mut rt, s).unwrap();
    let m = pending.finish(&mut rt, 1);
    let stream = m.to_stream(&mut rt, s, "close").ok().unwrap();
    rt.on_cleanup(s, "C2");
    assert_eq!(rt.dispose(s), vec!["C2", "close", "C1"]);
    assert!(rt.dispose(s).is_empty());
    assert_eq!(rt.try_get_untracked(stream), None);
    assert_eq!(m.try_get(&mut rt), None);
}
