//! What every tick keeps: it changes no node outside the subtree it ticks,
//! it leaves the subtree settled, and the node it ticks is marked as running
//! exactly when it reports `Running`.

use vstd::prelude::*;
use crate::engine::{
    decorated, fallback_from, leaf_tick, parallel_from, parallel_verdict, sequence_from, tick, Step,
};
use crate::graph::{
    lemma_apart, lemma_child_order, lemma_child_range, lemma_cover, lemma_node_wf, node_settled,
    settled, NodeKind, NodeState, Plan, World,
};
use crate::status::TickResult;

verus! {

/// The two worlds hold the same number of states, and the same state at
/// every node outside the range from `lo` to `hi`.
pub open spec fn same_outside(w: World, after: World, lo: int, hi: int) -> bool {
    &&& after.states.len() == w.states.len()
    &&& forall|j: int|
        0 <= j < w.states.len() && !(lo <= j <= hi) ==> #[trigger] after.states[j] == w.states[j]
}

/// What a tick of node `id` keeps, from the world `w` to its yield `s`.
pub open spec fn orderly(plan: Plan, w: World, s: Step, id: int) -> bool {
    &&& same_outside(w, s.world, plan.first(id), id)
    &&& settled(plan, s.world, plan.first(id), id)
    &&& s.world.states[id].active == (s.result is Running)
}

/// No child of node `id` but the one at position `k` is marked as running.
pub open spec fn others_rest(plan: Plan, w: World, id: int, k: int) -> bool {
    forall|j: int|
        0 <= j < plan.arity(id) && j != k ==> !(#[trigger] w.states[plan.child(id, j)]).active
}

/// A node keeps being settled while the states of its subtree stay.
proof fn lemma_settled_kept(plan: Plan, w: World, after: World, i: int)
    requires
        plan.wf(),
        0 <= i < plan.nodes.len(),
        node_settled(plan, w, i),
        forall|j: int| plan.first(i) <= j <= i ==> #[trigger] after.states[j] == w.states[j],
    ensures
        node_settled(plan, after, i),
{
    lemma_node_wf(plan, i);
    assert forall|k: int| 0 <= k < plan.arity(i) implies after.states[#[trigger] plan.child(i, k)]
        == w.states[plan.child(i, k)] by {
        lemma_child_range(plan, i, k);
    }
    if !after.states[i].active {
        assert(!w.states[i].active);
        assert forall|j: int| plan.first(i) <= j <= i implies (#[trigger] after.states[j]).fresh() by {
            assert(w.states[j].fresh());
        }
    }
    if plan.nodes[i].kind is Sequence || plan.nodes[i].kind is Fallback {
        assert forall|k: int| 0 <= k < plan.arity(i) && k != after.states[i].cursor implies !(
        #[trigger] after.states[plan.child(i, k)]).active by {
            assert(!w.states[plan.child(i, k)].active);
        }
    }
}

/// The nodes below `id` stay settled through the tick of a child of `id`,
/// and the tick leaves `id` and the other children as they were.
pub(crate) proof fn lemma_child_ticked(plan: Plan, w: World, id: int, k: int, s: Step)
    requires
        plan.wf(),
        w.states.len() == plan.nodes.len(),
        0 <= id < plan.nodes.len(),
        0 <= k < plan.arity(id),
        settled(plan, w, plan.first(id), id - 1),
        orderly(plan, w, s, plan.child(id, k)),
    ensures
        settled(plan, s.world, plan.first(id), id - 1),
        same_outside(w, s.world, plan.first(id), id - 1),
        s.world.states[id] == w.states[id],
        forall|j: int|
            0 <= j < plan.arity(id) && j != k ==> #[trigger] s.world.states[plan.child(id, j)]
                == w.states[plan.child(id, j)],
{
    let c = plan.child(id, k);
    lemma_child_range(plan, id, k);
    assert forall|i: int| plan.first(id) <= i <= id - 1 implies #[trigger] node_settled(
        plan,
        s.world,
        i,
    ) by {
        if plan.first(c) <= i <= c {
            assert(node_settled(plan, s.world, i));
        } else {
            lemma_apart(plan, id, k, i);
            assert(node_settled(plan, w, i));
            lemma_settled_kept(plan, w, s.world, i);
        }
    }
    assert forall|j: int| 0 <= j < plan.arity(id) && j != k implies #[trigger] s.world.states[plan.child(
        id,
        j,
    )] == w.states[plan.child(id, j)] by {
        lemma_child_range(plan, id, j);
        if j < k {
            lemma_child_order(plan, id, j, k);
        } else {
            lemma_child_order(plan, id, k, j);
        }
    }
}

/// Where no child of `id` is marked as running, nothing below `id` holds
/// running-state.
proof fn lemma_rest(plan: Plan, w: World, id: int)
    requires
        plan.wf(),
        w.states.len() == plan.nodes.len(),
        0 <= id < plan.nodes.len(),
        settled(plan, w, plan.first(id), id - 1),
        others_rest(plan, w, id, -1),
    ensures
        w.quiet(plan.first(id), id - 1),
{
    assert forall|j: int| plan.first(id) <= j <= id - 1 implies (#[trigger] w.states[j]).fresh() by {
        let m = lemma_cover(plan, id, j);
        let c = plan.child(id, m);
        lemma_child_range(plan, id, m);
        assert(!w.states[plan.child(id, m)].active);
        assert(node_settled(plan, w, c));
    }
}

/// A node whose children are at rest is settled, with its subtree, once its
/// own running-state is reset.
proof fn lemma_settle(plan: Plan, w: World, id: int)
    requires
        plan.wf(),
        w.states.len() == plan.nodes.len(),
        0 <= id < plan.nodes.len(),
        settled(plan, w, plan.first(id), id - 1),
        others_rest(plan, w, id, -1),
    ensures
        settled(plan, w.settle(id), plan.first(id), id),
        same_outside(w, w.settle(id), id, id),
        !w.settle(id).states[id].active,
{
    let after = w.settle(id);
    lemma_rest(plan, w, id);
    lemma_node_wf(plan, id);
    assert forall|i: int| plan.first(id) <= i <= id implies #[trigger] node_settled(plan, after, i) by {
        if i < id {
            lemma_node_wf(plan, i);
            assert(node_settled(plan, w, i));
            lemma_settled_kept(plan, w, after, i);
        } else {
            assert forall|j: int| plan.first(id) <= j <= id implies (#[trigger] after.states[j]).fresh() by {
                if j < id {
                    assert(w.states[j].fresh());
                }
            }
            assert forall|k: int| 0 <= k < plan.arity(id) implies !(#[trigger] after.states[plan.child(
                id,
                k,
            )]).active by {
                lemma_child_range(plan, id, k);
                assert(!w.states[plan.child(id, k)].active);
            }
        }
    }
}

/// A node stays settled, with its subtree, when it is marked as running,
/// provided that a sequence or a fallback then points at the only child
/// that can be running.
proof fn lemma_suspend(plan: Plan, w: World, id: int, state: NodeState)
    requires
        plan.wf(),
        w.states.len() == plan.nodes.len(),
        0 <= id < plan.nodes.len(),
        settled(plan, w, plan.first(id), id - 1),
        state.active,
        (plan.nodes[id].kind is Sequence || plan.nodes[id].kind is Fallback) ==> {
            &&& others_rest(plan, w, id, state.cursor as int)
            &&& 0 <= state.cursor < plan.arity(id)
            &&& w.states[plan.child(id, state.cursor as int)].active
        },
    ensures
        settled(plan, w.put(id, state), plan.first(id), id),
        same_outside(w, w.put(id, state), id, id),
{
    let after = w.put(id, state);
    lemma_node_wf(plan, id);
    assert forall|i: int| plan.first(id) <= i <= id implies #[trigger] node_settled(plan, after, i) by {
        if i < id {
            lemma_node_wf(plan, i);
            assert(node_settled(plan, w, i));
            lemma_settled_kept(plan, w, after, i);
        } else {
            if plan.nodes[id].kind is Sequence || plan.nodes[id].kind is Fallback {
                assert forall|k: int|
                    0 <= k < plan.arity(id) && k != after.states[id].cursor implies !(
                #[trigger] after.states[plan.child(id, k)]).active by {
                    lemma_child_range(plan, id, k);
                    assert(!w.states[plan.child(id, k)].active);
                }
                lemma_child_range(plan, id, state.cursor as int);
            }
        }
    }
}

/// A subtree whose running-state is reset is settled.
pub(crate) proof fn lemma_clear(plan: Plan, w: World, id: int)
    requires
        plan.wf(),
        w.states.len() == plan.nodes.len(),
        0 <= id < plan.nodes.len(),
    ensures
        settled(plan, w.clear(plan.first(id), id), plan.first(id), id),
        same_outside(w, w.clear(plan.first(id), id), plan.first(id), id),
        !w.clear(plan.first(id), id).states[id].active,
{
    let after = w.clear(plan.first(id), id);
    lemma_node_wf(plan, id);
    assert forall|i: int| plan.first(id) <= i <= id implies #[trigger] node_settled(plan, after, i) by {
        lemma_node_wf(plan, i);
        if i < id {
            crate::graph::lemma_nested(plan, i, id);
        }
        assert forall|j: int| plan.first(i) <= j <= i implies (#[trigger] after.states[j]).fresh() by {}
        assert forall|k: int| 0 <= k < plan.arity(i) implies !(#[trigger] after.states[plan.child(
            i,
            k,
        )]).active by {
            lemma_child_range(plan, i, k);
        }
    }
}

/// A tick of node `id` is orderly.
pub proof fn lemma_tick(plan: Plan, w: World, id: int)
    requires
        plan.wf(),
        w.states.len() == plan.nodes.len(),
        0 <= id < plan.nodes.len(),
        settled(plan, w, plan.first(id), id),
    ensures
        orderly(plan, w, tick(plan, w, id), id),
    decreases id, plan.arity(id) + 1,
{
    lemma_node_wf(plan, id);
    assert(node_settled(plan, w, id));
    match plan.nodes[id].kind {
        NodeKind::Sequence => {
            lemma_sequence(plan, w, id, w.states[id].cursor as int);
        },
        NodeKind::Fallback => {
            lemma_fallback(plan, w, id, w.states[id].cursor as int);
        },
        NodeKind::Parallel { .. } => {
            lemma_parallel(plan, w, id, 0, 0, 0);
        },
        NodeKind::Decorator(decorator) => {
            let c = plan.child(id, 0);
            lemma_child_range(plan, id, 0);
            lemma_tick(plan, w, c);
            let s = tick(plan, w, c);
            lemma_child_ticked(plan, w, id, 0, s);
            let out = decorated(plan, s.world, id, decorator, s.result);
            if out.world == s.world.clear(plan.first(id), id) && !(out.result is Running) {
                lemma_clear(plan, s.world, id);
            } else if out.result is Running {
                lemma_suspend(plan, s.world, id, out.world.states[id]);
                assert(out.world =~= s.world.put(id, out.world.states[id]));
            } else {
                assert(!s.world.states[c].active);
                lemma_settle(plan, s.world, id);
                assert(out.world == s.world.settle(id));
            }
        },
        NodeKind::Action(b) => {
            let s = leaf_tick(w, id, plan.bindings[b as int].implementation);
            assert forall|i: int| plan.first(id) <= i <= id implies #[trigger] node_settled(
                plan,
                s.world,
                i,
            ) by {}
        },
        NodeKind::Condition(b) => {
            let s = leaf_tick(w, id, plan.bindings[b as int].implementation);
            assert forall|i: int| plan.first(id) <= i <= id implies #[trigger] node_settled(
                plan,
                s.world,
                i,
            ) by {}
        },
    }
}

/// A sequence that goes on at child `k` is orderly.
pub proof fn lemma_sequence(plan: Plan, w: World, id: int, k: int)
    requires
        plan.wf(),
        w.states.len() == plan.nodes.len(),
        0 <= id < plan.nodes.len(),
        plan.nodes[id].kind is Sequence,
        0 <= k,
        settled(plan, w, plan.first(id), id - 1),
        others_rest(plan, w, id, k),
    ensures
        orderly(plan, w, sequence_from(plan, w, id, k), id),
    decreases id, crate::engine::left(plan, id, k),
{
    lemma_node_wf(plan, id);
    if k < plan.arity(id) {
        let c = plan.child(id, k);
        lemma_child_range(plan, id, k);
        lemma_tick(plan, w, c);
        let s = tick(plan, w, c);
        lemma_child_ticked(plan, w, id, k, s);
        match s.result {
            TickResult::Success => {
                lemma_sequence(plan, s.world, id, k + 1);
            },
            TickResult::Failure(_) => {
                lemma_settle(plan, s.world, id);
            },
            TickResult::Running => {
                lemma_suspend(
                    plan,
                    s.world,
                    id,
                    NodeState { active: true, cursor: k as usize, ..s.world.states[id] },
                );
            },
        }
    } else {
        lemma_settle(plan, w, id);
    }
}

/// A fallback that goes on at child `k` is orderly.
pub proof fn lemma_fallback(plan: Plan, w: World, id: int, k: int)
    requires
        plan.wf(),
        w.states.len() == plan.nodes.len(),
        0 <= id < plan.nodes.len(),
        plan.nodes[id].kind is Fallback,
        0 <= k,
        settled(plan, w, plan.first(id), id - 1),
        others_rest(plan, w, id, k),
    ensures
        orderly(plan, w, fallback_from(plan, w, id, k), id),
    decreases id, crate::engine::left(plan, id, k),
{
    lemma_node_wf(plan, id);
    if k < plan.arity(id) {
        let c = plan.child(id, k);
        lemma_child_range(plan, id, k);
        lemma_tick(plan, w, c);
        let s = tick(plan, w, c);
        lemma_child_ticked(plan, w, id, k, s);
        match s.result {
            TickResult::Success => {
                lemma_settle(plan, s.world, id);
            },
            TickResult::Failure(_) => {
                if k + 1 < plan.arity(id) {
                    lemma_fallback(plan, s.world, id, k + 1);
                } else {
                    lemma_settle(plan, s.world, id);
                }
            },
            TickResult::Running => {
                lemma_suspend(
                    plan,
                    s.world,
                    id,
                    NodeState { active: true, cursor: k as usize, ..s.world.states[id] },
                );
            },
        }
    } else {
        lemma_settle(plan, w, id);
    }
}

/// A parallel node that goes on at child `k` is orderly.
pub proof fn lemma_parallel(plan: Plan, w: World, id: int, k: int, wins: int, losses: int)
    requires
        plan.wf(),
        w.states.len() == plan.nodes.len(),
        0 <= id < plan.nodes.len(),
        plan.nodes[id].kind is Parallel,
        0 <= k,
        settled(plan, w, plan.first(id), id - 1),
    ensures
        orderly(plan, w, parallel_from(plan, w, id, k, wins, losses), id),
    decreases id, crate::engine::left(plan, id, k),
{
    lemma_node_wf(plan, id);
    if k < plan.arity(id) {
        let c = plan.child(id, k);
        lemma_child_range(plan, id, k);
        lemma_tick(plan, w, c);
        let s = tick(plan, w, c);
        lemma_child_ticked(plan, w, id, k, s);
        lemma_parallel(
            plan,
            s.world,
            id,
            k + 1,
            if s.result is Success {
                wins + 1
            } else {
                wins
            },
            if s.result is Failure {
                losses + 1
            } else {
                losses
            },
        );
    } else {
        let out = parallel_verdict(plan, w, id, wins, losses);
        if out.result is Running {
            lemma_suspend(plan, w, id, NodeState { active: true, ..w.states[id] });
        } else {
            lemma_clear(plan, w, id);
        }
    }
}

} // verus!
