//! Laws of the tick engine: what holds of every tree, every running-state
//! and every blackboard.

use vstd::prelude::*;
use crate::engine::{
    bumped, fallback_from, left, parallel_from, sequence_from, tick, Step,
};
use crate::graph::{lemma_child_range, lemma_node_wf, settled, NodeKind, NodeState, Plan, World};
use crate::invariants::{lemma_tick, same_outside};

verus! {

/// The first node that a composite `id` can change when it goes on at its
/// child `k`: the first of that child's subtree, or `id` itself after the
/// last child.
pub open spec fn reach(plan: Plan, id: int, k: int) -> int {
    if 0 <= k < plan.arity(id) {
        plan.first(plan.child(id, k))
    } else {
        id
    }
}

/// The next child's subtree begins after the subtree of child `k`.
proof fn lemma_reach_next(plan: Plan, id: int, k: int)
    requires
        plan.wf(),
        0 <= id < plan.nodes.len(),
        0 <= k < plan.arity(id),
    ensures
        plan.first(id) <= reach(plan, id, k) <= plan.child(id, k) < reach(plan, id, k + 1) <= id,
{
    lemma_node_wf(plan, id);
    lemma_child_range(plan, id, k);
    if k + 1 < plan.arity(id) {
        assert(plan.first(plan.child(id, k + 1)) == plan.child(id, k) + 1);
    }
}

/// No node has a forced report after that it had not before.
pub open spec fn forced_kept(w: World, after: World) -> bool {
    forall|j: int|
        0 <= j < w.states.len() ==> (#[trigger] after.states[j]).forced is None
            || after.states[j].forced == w.states[j].forced
}

/// Every leaf was invoked once more than before, or as often as before.
pub open spec fn once(w: World, after: World) -> bool {
    forall|j: int|
        0 <= j < w.states.len() ==> (#[trigger] after.states[j]).invocations
            == w.states[j].invocations || after.states[j].invocations == bumped(
            w.states[j].invocations,
        )
}

/// No node before `lo` was invoked.
pub open spec fn uninvoked_before(w: World, after: World, lo: int) -> bool {
    forall|j: int|
        0 <= j < lo && j < w.states.len() ==> (#[trigger] after.states[j]).invocations
            == w.states[j].invocations
}

/// A tick changes no state outside the subtree that it ticks, forces no
/// report, and invokes no leaf twice.
pub proof fn lemma_frame(plan: Plan, w: World, id: int)
    requires
        plan.wf(),
        w.states.len() == plan.nodes.len(),
        0 <= id < plan.nodes.len(),
    ensures
        same_outside(w, tick(plan, w, id).world, plan.first(id), id),
        forced_kept(w, tick(plan, w, id).world),
        once(w, tick(plan, w, id).world),
    decreases id, plan.arity(id) + 1,
{
    lemma_node_wf(plan, id);
    match plan.nodes[id].kind {
        NodeKind::Sequence => {
            let k = w.states[id].cursor as int;
            lemma_frame_sequence(plan, w, id, k);
            if k < plan.arity(id) {
                lemma_reach_next(plan, id, k);
            }
        },
        NodeKind::Fallback => {
            let k = w.states[id].cursor as int;
            lemma_frame_fallback(plan, w, id, k);
            if k < plan.arity(id) {
                lemma_reach_next(plan, id, k);
            }
        },
        NodeKind::Parallel { .. } => {
            lemma_frame_parallel(plan, w, id, 0, 0, 0);
            lemma_reach_next(plan, id, 0);
        },
        NodeKind::Decorator(decorator) => {
            let c = plan.child(id, 0);
            lemma_child_range(plan, id, 0);
            lemma_frame(plan, w, c);
        },
        NodeKind::Action(_) => {},
        NodeKind::Condition(_) => {},
    }
}

/// A sequence that goes on at child `k` changes no state before that
/// child's subtree, nor after the sequence.
pub proof fn lemma_frame_sequence(plan: Plan, w: World, id: int, k: int)
    requires
        plan.wf(),
        w.states.len() == plan.nodes.len(),
        0 <= id < plan.nodes.len(),
        0 <= k,
    ensures
        same_outside(w, sequence_from(plan, w, id, k).world, reach(plan, id, k), id),
        forced_kept(w, sequence_from(plan, w, id, k).world),
        once(w, sequence_from(plan, w, id, k).world),
    decreases id, left(plan, id, k),
{
    if k < plan.arity(id) {
        let c = plan.child(id, k);
        lemma_reach_next(plan, id, k);
        lemma_frame(plan, w, c);
        let s = tick(plan, w, c);
        if s.result is Success {
            lemma_frame_sequence(plan, s.world, id, k + 1);
        }
    }
}

/// A fallback that goes on at child `k` changes no state before that
/// child's subtree, nor after the fallback.
pub proof fn lemma_frame_fallback(plan: Plan, w: World, id: int, k: int)
    requires
        plan.wf(),
        w.states.len() == plan.nodes.len(),
        0 <= id < plan.nodes.len(),
        0 <= k,
    ensures
        same_outside(w, fallback_from(plan, w, id, k).world, reach(plan, id, k), id),
        forced_kept(w, fallback_from(plan, w, id, k).world),
        once(w, fallback_from(plan, w, id, k).world),
    decreases id, left(plan, id, k),
{
    if k < plan.arity(id) {
        let c = plan.child(id, k);
        lemma_reach_next(plan, id, k);
        lemma_frame(plan, w, c);
        let s = tick(plan, w, c);
        if s.result is Failure && k + 1 < plan.arity(id) {
            lemma_frame_fallback(plan, s.world, id, k + 1);
        }
    }
}

/// A parallel node that goes on at child `k` changes no state outside its
/// subtree.
pub proof fn lemma_frame_parallel(plan: Plan, w: World, id: int, k: int, wins: int, losses: int)
    requires
        plan.wf(),
        w.states.len() == plan.nodes.len(),
        0 <= id < plan.nodes.len(),
        0 <= k,
    ensures
        same_outside(
            w,
            parallel_from(plan, w, id, k, wins, losses).world,
            plan.first(id),
            id,
        ),
        forced_kept(w, parallel_from(plan, w, id, k, wins, losses).world),
        once(w, parallel_from(plan, w, id, k, wins, losses).world),
        uninvoked_before(w, parallel_from(plan, w, id, k, wins, losses).world, reach(plan, id, k)),
    decreases id, left(plan, id, k),
{
    lemma_node_wf(plan, id);
    if k < plan.arity(id) {
        let c = plan.child(id, k);
        lemma_reach_next(plan, id, k);
        lemma_frame(plan, w, c);
        let s = tick(plan, w, c);
        lemma_frame_parallel(
            plan,
            s.world,
            id,
            k + 1,
            if s.result is Success {
                wins + 1
            } else {
                wins
            },
            if s.result is Failure {
                losses + 1
            } else {
                losses
            },
        );
    }
}

/// Two states that differ at most in the count of invocations.
pub open spec fn alike(a: NodeState, b: NodeState) -> bool {
    a.active == b.active && a.cursor == b.cursor && a.count == b.count && a.forced == b.forced
}

/// Two worlds with the same blackboard whose states from `lo` to `hi`
/// differ at most in the counts of invocations.
pub open spec fn agree(a: World, b: World, lo: int, hi: int) -> bool {
    &&& a.board == b.board
    &&& a.states.len() == b.states.len()
    &&& forall|j: int| lo <= j <= hi ==> alike(#[trigger] a.states[j], b.states[j])
}

/// Two yields with the same report whose worlds agree from `lo` to `hi`.
pub open spec fn agree_after(a: Step, b: Step, lo: int, hi: int) -> bool {
    a.result == b.result && agree(a.world, b.world, lo, hi)
}

/// Determinism: the report of a tick, the blackboard it leaves and the
/// running-state it leaves in the subtree depend on nothing but the
/// blackboard, the running-state and the forced reports of the subtree.
pub proof fn law_deterministic(plan: Plan, a: World, b: World, id: int)
    requires
        plan.wf(),
        a.states.len() == plan.nodes.len(),
        0 <= id < plan.nodes.len(),
        agree(a, b, plan.first(id), id),
    ensures
        agree_after(tick(plan, a, id), tick(plan, b, id), plan.first(id), id),
    decreases id, plan.arity(id) + 1,
{
    lemma_node_wf(plan, id);
    assert(alike(a.states[id], b.states[id]));
    match plan.nodes[id].kind {
        NodeKind::Sequence => {
            lemma_agree_sequence(plan, a, b, id, a.states[id].cursor as int);
        },
        NodeKind::Fallback => {
            lemma_agree_fallback(plan, a, b, id, a.states[id].cursor as int);
        },
        NodeKind::Parallel { .. } => {
            lemma_agree_parallel(plan, a, b, id, 0, 0, 0);
        },
        NodeKind::Decorator(decorator) => {
            lemma_agree_child(plan, a, b, id, 0);
            let c = plan.child(id, 0);
            lemma_child_range(plan, id, 0);
            lemma_frame(plan, a, c);
            let sa = tick(plan, a, c);
            let sb = tick(plan, b, c);
            assert(alike(sa.world.states[id], sb.world.states[id]));
        },
        NodeKind::Action(_) => {},
        NodeKind::Condition(_) => {},
    }
}

/// The ticks of a child of `id` in two worlds that agree on the subtree of
/// `id` give the same report and leave worlds that agree on it.
proof fn lemma_agree_child(plan: Plan, a: World, b: World, id: int, k: int)
    requires
        plan.wf(),
        a.states.len() == plan.nodes.len(),
        0 <= id < plan.nodes.len(),
        0 <= k < plan.arity(id),
        agree(a, b, plan.first(id), id),
    ensures
        agree_after(
            tick(plan, a, plan.child(id, k)),
            tick(plan, b, plan.child(id, k)),
            plan.first(id),
            id,
        ),
    decreases id, 0nat,
{
    let c = plan.child(id, k);
    lemma_child_range(plan, id, k);
    assert forall|j: int| plan.first(c) <= j <= c implies alike(#[trigger] a.states[j], b.states[j]) by {}
    law_deterministic(plan, a, b, c);
    lemma_frame(plan, a, c);
    lemma_frame(plan, b, c);
    let sa = tick(plan, a, c);
    let sb = tick(plan, b, c);
    assert forall|j: int| plan.first(id) <= j <= id implies alike(
        #[trigger] sa.world.states[j],
        sb.world.states[j],
    ) by {
        if !(plan.first(c) <= j <= c) {
            assert(sa.world.states[j] == a.states[j]);
            assert(sb.world.states[j] == b.states[j]);
            assert(alike(a.states[j], b.states[j]));
        }
    }
}

/// A sequence that goes on at child `k` in two worlds that agree on its
/// subtree gives the same report and leaves worlds that agree on it.
proof fn lemma_agree_sequence(plan: Plan, a: World, b: World, id: int, k: int)
    requires
        plan.wf(),
        a.states.len() == plan.nodes.len(),
        0 <= id < plan.nodes.len(),
        0 <= k,
        agree(a, b, plan.first(id), id),
    ensures
        agree_after(
            sequence_from(plan, a, id, k),
            sequence_from(plan, b, id, k),
            plan.first(id),
            id,
        ),
    decreases id, left(plan, id, k),
{
    lemma_node_wf(plan, id);
    assert(alike(a.states[id], b.states[id]));
    if k < plan.arity(id) {
        let c = plan.child(id, k);
        lemma_child_range(plan, id, k);
        lemma_agree_child(plan, a, b, id, k);
        let sa = tick(plan, a, c);
        let sb = tick(plan, b, c);
        lemma_frame(plan, a, c);
        assert(alike(sa.world.states[id], sb.world.states[id]));
        if sa.result is Success {
            lemma_agree_sequence(plan, sa.world, sb.world, id, k + 1);
        }
    }
}

/// A fallback that goes on at child `k` in two worlds that agree on its
/// subtree gives the same report and leaves worlds that agree on it.
proof fn lemma_agree_fallback(plan: Plan, a: World, b: World, id: int, k: int)
    requires
        plan.wf(),
        a.states.len() == plan.nodes.len(),
        0 <= id < plan.nodes.len(),
        0 <= k,
        agree(a, b, plan.first(id), id),
    ensures
        agree_after(
            fallback_from(plan, a, id, k),
            fallback_from(plan, b, id, k),
            plan.first(id),
            id,
        ),
    decreases id, left(plan, id, k),
{
    lemma_node_wf(plan, id);
    assert(alike(a.states[id], b.states[id]));
    if k < plan.arity(id) {
        let c = plan.child(id, k);
        lemma_child_range(plan, id, k);
        lemma_agree_child(plan, a, b, id, k);
        let sa = tick(plan, a, c);
        let sb = tick(plan, b, c);
        lemma_frame(plan, a, c);
        assert(alike(sa.world.states[id], sb.world.states[id]));
        if sa.result is Failure && k + 1 < plan.arity(id) {
            lemma_agree_fallback(plan, sa.world, sb.world, id, k + 1);
        }
    }
}

/// A parallel node that goes on at child `k` in two worlds that agree on
/// its subtree gives the same report and leaves worlds that agree on it.
proof fn lemma_agree_parallel(
    plan: Plan,
    a: World,
    b: World,
    id: int,
    k: int,
    wins: int,
    losses: int,
)
    requires
        plan.wf(),
        a.states.len() == plan.nodes.len(),
        0 <= id < plan.nodes.len(),
        0 <= k,
        agree(a, b, plan.first(id), id),
    ensures
        agree_after(
            parallel_from(plan, a, id, k, wins, losses),
            parallel_from(plan, b, id, k, wins, losses),
            plan.first(id),
            id,
        ),
    decreases id, left(plan, id, k),
{
    lemma_node_wf(plan, id);
    assert(alike(a.states[id], b.states[id]));
    if k < plan.arity(id) {
        let c = plan.child(id, k);
        lemma_child_range(plan, id, k);
        lemma_agree_child(plan, a, b, id, k);
        let sa = tick(plan, a, c);
        let sb = tick(plan, b, c);
        lemma_frame(plan, a, c);
        lemma_agree_parallel(
            plan,
            sa.world,
            sb.world,
            id,
            k + 1,
            if sa.result is Success {
                wins + 1
            } else {
                wins
            },
            if sa.result is Failure {
                losses + 1
            } else {
                losses
            },
        );
    }
}

/// A tick of a sequence or a fallback begins at the child under its cursor.
pub open spec fn resumed(plan: Plan, w: World, id: int) -> Step {
    if plan.nodes[id].kind is Sequence {
        sequence_from(plan, w, id, w.states[id].cursor as int)
    } else {
        fallback_from(plan, w, id, w.states[id].cursor as int)
    }
}

/// A sequence whose child fails ends the tick at that child: the sequence
/// fails, for the reason of the child, and no node after the child, up to
/// the sequence, is ticked. So no later sibling is ticked on that tick.
pub proof fn law_sequence_failure(plan: Plan, w: World, id: int, k: int)
    requires
        plan.wf(),
        w.states.len() == plan.nodes.len(),
        0 <= id < plan.nodes.len(),
        plan.nodes[id].kind is Sequence,
        0 <= k < plan.arity(id),
        tick(plan, w, plan.child(id, k)).result is Failure,
    ensures
        sequence_from(plan, w, id, k).result == tick(plan, w, plan.child(id, k)).result,
        forall|j: int|
            plan.child(id, k) < j < id ==> #[trigger] sequence_from(plan, w, id, k).world.states[j]
                == w.states[j],
{
    lemma_reach_next(plan, id, k);
    lemma_frame(plan, w, plan.child(id, k));
}

/// A sequence whose child succeeds goes on with the next child, in the
/// world that the child left; after the last child it succeeds.
pub proof fn law_sequence_success(plan: Plan, w: World, id: int, k: int)
    requires
        plan.wf(),
        w.states.len() == plan.nodes.len(),
        0 <= id < plan.nodes.len(),
        plan.nodes[id].kind is Sequence,
        0 <= k < plan.arity(id),
        tick(plan, w, plan.child(id, k)).result is Success,
    ensures
        sequence_from(plan, w, id, k) == sequence_from(
            plan,
            tick(plan, w, plan.child(id, k)).world,
            id,
            k + 1,
        ),
        k + 1 == plan.arity(id) ==> sequence_from(plan, w, id, k).result is Success,
{
    lemma_reach_next(plan, id, k);
}

/// A fallback whose child succeeds ends the tick at that child: the
/// fallback succeeds, and no node after the child, up to the fallback, is
/// ticked.
pub proof fn law_fallback_success(plan: Plan, w: World, id: int, k: int)
    requires
        plan.wf(),
        w.states.len() == plan.nodes.len(),
        0 <= id < plan.nodes.len(),
        plan.nodes[id].kind is Fallback,
        0 <= k < plan.arity(id),
        tick(plan, w, plan.child(id, k)).result is Success,
    ensures
        fallback_from(plan, w, id, k).result is Success,
        forall|j: int|
            plan.child(id, k) < j < id ==> #[trigger] fallback_from(plan, w, id, k).world.states[j]
                == w.states[j],
{
    lemma_reach_next(plan, id, k);
    lemma_frame(plan, w, plan.child(id, k));
}

/// A fallback whose child fails goes on with the next child, in the world
/// that the child left; after the last child it fails as that child did.
pub proof fn law_fallback_failure(plan: Plan, w: World, id: int, k: int)
    requires
        plan.wf(),
        w.states.len() == plan.nodes.len(),
        0 <= id < plan.nodes.len(),
        plan.nodes[id].kind is Fallback,
        0 <= k < plan.arity(id),
        tick(plan, w, plan.child(id, k)).result is Failure,
    ensures
        k + 1 < plan.arity(id) ==> fallback_from(plan, w, id, k) == fallback_from(
            plan,
            tick(plan, w, plan.child(id, k)).world,
            id,
            k + 1,
        ),
        k + 1 == plan.arity(id) ==> fallback_from(plan, w, id, k).result == tick(
            plan,
            w,
            plan.child(id, k),
        ).result,
{
    lemma_reach_next(plan, id, k);
}

/// A node that ends leaves no running-state: after a tick that reports
/// success or failure, no node of the subtree holds any. In a fallback that
/// succeeds, that holds of the siblings that failed before.
pub proof fn law_terminal_leaves_quiet(plan: Plan, w: World, id: int)
    requires
        plan.wf(),
        w.states.len() == plan.nodes.len(),
        0 <= id < plan.nodes.len(),
        settled(plan, w, plan.first(id), id),
        tick(plan, w, id).result.terminal(),
    ensures
        tick(plan, w, id).world.quiet(plan.first(id), id),
{
    lemma_tick(plan, w, id);
    lemma_node_wf(plan, id);
    let s = tick(plan, w, id);
    assert(crate::graph::node_settled(plan, s.world, id));
}

/// A node is marked as running exactly when its tick reports `Running`, and
/// every tick leaves the subtree settled.
pub proof fn law_running_is_marked(plan: Plan, w: World, id: int)
    requires
        plan.wf(),
        w.states.len() == plan.nodes.len(),
        0 <= id < plan.nodes.len(),
        settled(plan, w, plan.first(id), id),
    ensures
        tick(plan, w, id).world.states[id].active == (tick(plan, w, id).result is Running),
        tick(plan, w, id).world.states.len() == w.states.len(),
        settled(plan, tick(plan, w, id).world, plan.first(id), id),
{
    lemma_tick(plan, w, id);
}

/// Idempotence: a subtree that holds no running-state and no forced report
/// and whose tick ends gives the same report when it is ticked again on the
/// blackboard of the first tick, however often its leaves were invoked.
pub proof fn law_idempotent(plan: Plan, w: World, id: int)
    requires
        plan.wf(),
        w.states.len() == plan.nodes.len(),
        0 <= id < plan.nodes.len(),
        settled(plan, w, plan.first(id), id),
        w.quiet(plan.first(id), id),
        forall|j: int| plan.first(id) <= j <= id ==> (#[trigger] w.states[j]).forced is None,
        tick(plan, w, id).result.terminal(),
    ensures
        tick(plan, World { states: tick(plan, w, id).world.states, board: w.board }, id).result
            == tick(plan, w, id).result,
{
    let s = tick(plan, w, id);
    let again = World { states: s.world.states, board: w.board };
    law_terminal_leaves_quiet(plan, w, id);
    lemma_frame(plan, w, id);
    lemma_node_wf(plan, id);
    assert forall|j: int| plan.first(id) <= j <= id implies alike(#[trigger] w.states[j], again.states[j]) by {
        assert(w.states[j].fresh());
        assert(s.world.states[j].fresh());
        assert(w.states[j].forced is None);
        assert(s.world.states[j].forced is None || s.world.states[j].forced == w.states[j].forced);
    }
    law_deterministic(plan, w, again, id);
}

/// A sequence or a fallback that reports `Running` is suspended at the
/// child that reported `Running`: its cursor points at a child that is
/// marked as running.
pub proof fn law_suspends_at_running_child(plan: Plan, w: World, id: int)
    requires
        plan.wf(),
        w.states.len() == plan.nodes.len(),
        0 <= id < plan.nodes.len(),
        plan.nodes[id].kind is Sequence || plan.nodes[id].kind is Fallback,
        settled(plan, w, plan.first(id), id),
        tick(plan, w, id).result is Running,
    ensures
        ({
            let after = tick(plan, w, id).world;
            let k = after.states[id].cursor as int;
            &&& after.states[id].active
            &&& 0 <= k < plan.arity(id)
            &&& after.states[plan.child(id, k)].active
        }),
{
    lemma_tick(plan, w, id);
    lemma_node_wf(plan, id);
    let s = tick(plan, w, id);
    assert(crate::graph::node_settled(plan, s.world, id));
}

/// Resumption: a tick of a sequence or a fallback begins with the child
/// under its cursor, and ticks no node before that child's subtree: what
/// the earlier children hold, the counts of their invocations too, stays.
pub proof fn law_resumes_at_cursor(plan: Plan, w: World, id: int)
    requires
        plan.wf(),
        w.states.len() == plan.nodes.len(),
        0 <= id < plan.nodes.len(),
        plan.nodes[id].kind is Sequence || plan.nodes[id].kind is Fallback,
        w.states[id].cursor < plan.arity(id),
    ensures
        tick(plan, w, id) == resumed(plan, w, id),
        forall|j: int|
            0 <= j < plan.first(plan.child(id, w.states[id].cursor as int)) ==> #[trigger] tick(
                plan,
                w,
                id,
            ).world.states[j] == w.states[j],
{
    let k = w.states[id].cursor as int;
    lemma_child_range(plan, id, k);
    if plan.nodes[id].kind is Sequence {
        lemma_frame_sequence(plan, w, id, k);
    } else {
        lemma_frame_fallback(plan, w, id, k);
    }
}

/// No node is ticked more than once in a tick: every leaf is invoked once
/// or not at all.
pub proof fn law_at_most_once(plan: Plan, w: World, id: int)
    requires
        plan.wf(),
        w.states.len() == plan.nodes.len(),
        0 <= id < plan.nodes.len(),
    ensures
        once(w, tick(plan, w, id).world),
{
    lemma_frame(plan, w, id);
}

/// A condition never reports `Running`.
pub proof fn law_condition_ends(plan: Plan, w: World, id: int)
    requires
        plan.wf(),
        w.states.len() == plan.nodes.len(),
        0 <= id < plan.nodes.len(),
        plan.nodes[id].kind is Condition,
    ensures
        tick(plan, w, id).result.terminal(),
{
    lemma_node_wf(plan, id);
}

} // verus!
