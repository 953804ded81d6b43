//! The tick engine: what one tick of a node does to the running-state and
//! the blackboard, and what it reports.
//!
//! A tick walks the subtree depth first. It visits a node at most once, and
//! no node outside the subtree.
//!
//! The policies that the engine fixes:
//! - a parallel node ticks every child at every tick, in order, and counts
//!   the reports of that tick alone; it succeeds where the successes reach
//!   its first threshold, else fails where the failures reach its second,
//!   else is `Running`; when it ends, running children are reset;
//! - a retry of `n` ticks a failed child again on the next tick, `n` times at
//!   most, and reports `Running` in between;
//! - a timeout of `n` lets its child report `Running` on `n` ticks and fails,
//!   resetting the child, at the next such report;
//! - a repeat-while looks at its predicate when the child ends: where it
//!   holds the node reports `Running` and the child starts again at the next
//!   tick; where it does not, or cannot be read, the node ends as the child did;
//! - a report forced on a leaf replaces the next invocation of its
//!   implementation; a condition takes only forced reports that are terminal.

use vstd::prelude::*;
use crate::blackboard::Blackboard;
use crate::graph::{cleared, Decorator, Graph, Node, NodeKind, NodeState, Plan, World};
use crate::invariants::{lemma_clear, lemma_tick};
use crate::leaf::Implementation;
use crate::registry::Registry;
use crate::status::TickResult;

verus! {

/// A tick's yield: the world it leaves, and its report.
pub struct Step {
    pub world: World,
    pub result: TickResult,
}

/// The count of invocations after one more; it stays at the largest number.
pub open spec fn bumped(invocations: u64) -> u64 {
    if invocations < u64::MAX {
        (invocations + 1) as u64
    } else {
        invocations
    }
}

/// The report of a tick that meets an ill-formed arena.
pub open spec fn stuck(w: World) -> Step {
    Step { world: w, result: TickResult::Failure(None) }
}

/// One tick of the leaf `id`, bound to `implementation`.
pub open spec fn leaf_tick(w: World, id: int, implementation: Implementation) -> Step {
    let state = w.states[id];
    let seen = bumped(state.invocations);
    let overridden = match state.forced {
        Some(r) => implementation is Action || r.terminal(),
        None => false,
    };
    if overridden {
        let r = state.forced.unwrap();
        Step {
            world: w.put(
                id,
                NodeState {
                    active: r is Running,
                    cursor: 0,
                    count: if r is Running {
                        state.count
                    } else {
                        0
                    },
                    invocations: seen,
                    forced: None,
                },
            ),
            result: r,
        }
    } else {
        match implementation {
            Implementation::Condition(predicate) => Step {
                world: w.put(
                    id,
                    NodeState { active: false, cursor: 0, count: 0, invocations: seen, forced: None },
                ),
                result: predicate.judged(w.board),
            },
            Implementation::Action(routine) => {
                let outcome = routine.step(state.count, w.board);
                Step {
                    world: World {
                        states: w.states.update(
                            id,
                            NodeState {
                                active: outcome.result is Running,
                                cursor: 0,
                                count: outcome.progress,
                                invocations: seen,
                                forced: None,
                            },
                        ),
                        board: outcome.board,
                    },
                    result: outcome.result,
                }
            },
        }
    }
}

/// What the decorator `id` makes of the report `r` of its child, in the
/// world `w` that the child's tick left.
pub open spec fn decorated(plan: Plan, w: World, id: int, decorator: Decorator, r: TickResult) -> Step {
    let state = w.states[id];
    match decorator {
        Decorator::Invert => match r {
            TickResult::Success => Step { world: w.settle(id), result: TickResult::Failure(None) },
            TickResult::Failure(_) => Step { world: w.settle(id), result: TickResult::Success },
            TickResult::Running => Step { world: w.hold(id), result: TickResult::Running },
        },
        Decorator::Retry(limit) => match r {
            TickResult::Success => Step { world: w.settle(id), result: TickResult::Success },
            TickResult::Failure(reason) => if state.count < limit {
                Step {
                    world: w.put(
                        id,
                        NodeState { active: true, count: (state.count + 1) as u64, ..state },
                    ),
                    result: TickResult::Running,
                }
            } else {
                Step { world: w.settle(id), result: TickResult::Failure(reason) }
            },
            TickResult::Running => Step { world: w.hold(id), result: TickResult::Running },
        },
        Decorator::Timeout(limit) => match r {
            TickResult::Running => if state.count < limit {
                Step {
                    world: w.put(
                        id,
                        NodeState { active: true, count: (state.count + 1) as u64, ..state },
                    ),
                    result: TickResult::Running,
                }
            } else {
                Step { world: w.clear(plan.first(id), id), result: TickResult::Failure(None) }
            },
            _ => Step { world: w.settle(id), result: r },
        },
        Decorator::RepeatWhile(b) => match r {
            TickResult::Running => Step { world: w.hold(id), result: TickResult::Running },
            _ => if plan.condition_holds(b, w.board) {
                Step { world: w.hold(id), result: TickResult::Running }
            } else {
                Step { world: w.settle(id), result: r }
            },
        },
    }
}

/// What the parallel node `id` reports after all its children were ticked,
/// `wins` of them with success and `losses` with failure.
pub open spec fn parallel_verdict(plan: Plan, w: World, id: int, wins: int, losses: int) -> Step {
    match plan.nodes[id].kind {
        NodeKind::Parallel { succeed, fail } => if wins >= succeed {
            Step { world: w.clear(plan.first(id), id), result: TickResult::Success }
        } else if losses >= fail {
            Step { world: w.clear(plan.first(id), id), result: TickResult::Failure(None) }
        } else {
            Step { world: w.hold(id), result: TickResult::Running }
        },
        _ => stuck(w),
    }
}

/// The number of children of node `id` from position `k` on.
pub open spec fn left(plan: Plan, id: int, k: int) -> nat {
    if k <= plan.arity(id) {
        (plan.arity(id) - k) as nat
    } else {
        0
    }
}

/// One tick of node `id`.
pub open spec fn tick(plan: Plan, w: World, id: int) -> Step
    decreases id, plan.arity(id) + 1,
{
    match plan.nodes[id].kind {
        NodeKind::Sequence => sequence_from(plan, w, id, w.states[id].cursor as int),
        NodeKind::Fallback => fallback_from(plan, w, id, w.states[id].cursor as int),
        NodeKind::Parallel { .. } => parallel_from(plan, w, id, 0, 0, 0),
        NodeKind::Decorator(decorator) => {
            let c = plan.child(id, 0);
            if 0 <= c < id {
                let s = tick(plan, w, c);
                decorated(plan, s.world, id, decorator, s.result)
            } else {
                stuck(w)
            }
        },
        NodeKind::Action(b) => leaf_tick(w, id, plan.bindings[b as int].implementation),
        NodeKind::Condition(b) => leaf_tick(w, id, plan.bindings[b as int].implementation),
    }
}

/// A sequence `id` that goes on at its child `k`: the children are ticked in
/// order for as long as they succeed. The first that fails ends the tick
/// with its failure, the first that is `Running` suspends the sequence at
/// that child, and after the last the sequence succeeds.
pub open spec fn sequence_from(plan: Plan, w: World, id: int, k: int) -> Step
    decreases id, left(plan, id, k),
{
    if 0 <= k < plan.arity(id) {
        let c = plan.child(id, k);
        if 0 <= c < id {
            let s = tick(plan, w, c);
            match s.result {
                TickResult::Success => sequence_from(plan, s.world, id, k + 1),
                TickResult::Failure(reason) => Step {
                    world: s.world.settle(id),
                    result: TickResult::Failure(reason),
                },
                TickResult::Running => Step {
                    world: s.world.put(
                        id,
                        NodeState { active: true, cursor: k as usize, ..s.world.states[id] },
                    ),
                    result: TickResult::Running,
                },
            }
        } else {
            stuck(w)
        }
    } else {
        Step { world: w.settle(id), result: TickResult::Success }
    }
}

/// A fallback `id` that goes on at its child `k`: the children are ticked in
/// order for as long as they fail. The first that succeeds ends the tick
/// with success, the first that is `Running` suspends the fallback at that
/// child, and after the last the fallback fails as the last child did.
pub open spec fn fallback_from(plan: Plan, w: World, id: int, k: int) -> Step
    decreases id, left(plan, id, k),
{
    if 0 <= k < plan.arity(id) {
        let c = plan.child(id, k);
        if 0 <= c < id {
            let s = tick(plan, w, c);
            match s.result {
                TickResult::Success => Step { world: s.world.settle(id), result: TickResult::Success },
                TickResult::Failure(reason) => if k + 1 < plan.arity(id) {
                    fallback_from(plan, s.world, id, k + 1)
                } else {
                    Step { world: s.world.settle(id), result: TickResult::Failure(reason) }
                },
                TickResult::Running => Step {
                    world: s.world.put(
                        id,
                        NodeState { active: true, cursor: k as usize, ..s.world.states[id] },
                    ),
                    result: TickResult::Running,
                },
            }
        } else {
            stuck(w)
        }
    } else {
        Step { world: w.settle(id), result: TickResult::Failure(None) }
    }
}

/// A parallel node `id` that has ticked its children before `k` and goes on
/// at `k`, with the successes and failures counted so far.
pub open spec fn parallel_from(plan: Plan, w: World, id: int, k: int, wins: int, losses: int) -> Step
    decreases id, left(plan, id, k),
{
    if 0 <= k < plan.arity(id) {
        let c = plan.child(id, k);
        if 0 <= c < id {
            let s = tick(plan, w, c);
            parallel_from(
                plan,
                s.world,
                id,
                k + 1,
                if s.result is Success {
                    wins + 1
                } else {
                    wins
                },
                if s.result is Failure {
                    losses + 1
                } else {
                    losses
                },
            )
        } else {
            stuck(w)
        }
    } else {
        parallel_verdict(plan, w, id, wins, losses)
    }
}

/// The plan that the nodes and the registry of a graph stand for.
pub open spec fn plan_of(nodes: &Vec<Node>, registry: &Registry) -> Plan {
    Plan { nodes: nodes@, bindings: registry.bindings() }
}

/// The world that the states and the blackboard of a graph stand for.
pub open spec fn world_of(states: &Vec<NodeState>, board: &Blackboard) -> World {
    World { states: states@, board: board@ }
}

/// Resets the running-state of the nodes from `lo` to `hi`.
fn clear_range(states: &mut Vec<NodeState>, lo: usize, hi: usize)
    requires
        lo <= hi < old(states)@.len(),
    ensures
        final(states)@ == cleared(old(states)@, lo as int, hi as int),
{
    let n = states.len();
    let mut j: usize = lo;
    while j <= hi
        invariant
            lo <= j <= hi + 1,
            hi < n,
            n == states@.len(),
            states@.len() == old(states)@.len(),
            forall|i: int|
                0 <= i < states@.len() ==> states@[i] == if lo <= i < j {
                    old(states)@[i].reset()
                } else {
                    old(states)@[i]
                },
        decreases hi + 1 - j,
    {
        let state = states[j];
        states.set(j, NodeState { active: false, cursor: 0, count: 0, ..state });
        j = j + 1;
    }
    assert(states@ =~= cleared(old(states)@, lo as int, hi as int));
}

/// Resets the running-state of node `id`.
fn settle(states: &mut Vec<NodeState>, id: usize)
    requires
        id < old(states)@.len(),
    ensures
        final(states)@ == old(states)@.update(id as int, old(states)@[id as int].reset()),
{
    let state = states[id];
    states.set(id, NodeState { active: false, cursor: 0, count: 0, ..state });
}

/// Marks node `id` as running.
fn hold(states: &mut Vec<NodeState>, id: usize)
    requires
        id < old(states)@.len(),
    ensures
        final(states)@ == old(states)@.update(
            id as int,
            NodeState { active: true, ..old(states)@[id as int] },
        ),
{
    let state = states[id];
    states.set(id, NodeState { active: true, ..state });
}

/// Ticks the leaf `id`.
fn tick_leaf(
    implementation: &Implementation,
    states: &mut Vec<NodeState>,
    board: &mut Blackboard,
    id: usize,
) -> (r: TickResult)
    requires
        id < old(states)@.len(),
        old(board).wf(),
    ensures
        final(board).wf(),
        (Step { world: World { states: final(states)@, board: final(board)@ }, result: r })
            == leaf_tick(
            World { states: old(states)@, board: old(board)@ },
            id as int,
            *implementation,
        ),
{
    let state = states[id];
    let seen: u64 = if state.invocations < u64::MAX {
        state.invocations + 1
    } else {
        state.invocations
    };
    let is_action = match implementation {
        Implementation::Action(_) => true,
        Implementation::Condition(_) => false,
    };
    let overridden = match state.forced {
        Some(r) => is_action || r.is_terminal(),
        None => false,
    };
    if overridden {
        let r = state.forced.unwrap();
        let running = r.is_running();
        let count: u64 = if running {
            state.count
        } else {
            0
        };
        states.set(
            id,
            NodeState { active: running, cursor: 0, count, invocations: seen, forced: None },
        );
        r
    } else {
        match implementation {
            Implementation::Condition(predicate) => {
                let r = predicate.judge(board);
                states.set(
                    id,
                    NodeState { active: false, cursor: 0, count: 0, invocations: seen, forced: None },
                );
                r
            },
            Implementation::Action(routine) => {
                let (r, progress) = routine.run(state.count, board);
                states.set(
                    id,
                    NodeState {
                        active: r.is_running(),
                        cursor: 0,
                        count: progress,
                        invocations: seen,
                        forced: None,
                    },
                );
                r
            },
        }
    }
}

/// Applies the decorator `id` to the report of its child.
fn decorate(
    nodes: &Vec<Node>,
    registry: &Registry,
    decorator: Decorator,
    states: &mut Vec<NodeState>,
    board: &Blackboard,
    id: usize,
    r: TickResult,
) -> (out: TickResult)
    requires
        id < old(states)@.len(),
        old(states)@.len() == nodes@.len(),
        nodes@[id as int].first <= id,
        decorator matches Decorator::RepeatWhile(b) ==> b < registry.bindings().len(),
        board.wf(),
    ensures
        (Step { world: World { states: final(states)@, board: board@ }, result: out })
            == decorated(
            plan_of(nodes, registry),
            World { states: old(states)@, board: board@ },
            id as int,
            decorator,
            r,
        ),
{
    let state = states[id];
    match decorator {
        Decorator::Invert => match r {
            TickResult::Success => {
                settle(states, id);
                TickResult::Failure(None)
            },
            TickResult::Failure(_) => {
                settle(states, id);
                TickResult::Success
            },
            TickResult::Running => {
                hold(states, id);
                TickResult::Running
            },
        },
        Decorator::Retry(limit) => match r {
            TickResult::Success => {
                settle(states, id);
                TickResult::Success
            },
            TickResult::Failure(reason) => {
                if state.count < limit {
                    states.set(id, NodeState { active: true, count: state.count + 1, ..state });
                    TickResult::Running
                } else {
                    settle(states, id);
                    TickResult::Failure(reason)
                }
            },
            TickResult::Running => {
                hold(states, id);
                TickResult::Running
            },
        },
        Decorator::Timeout(limit) => match r {
            TickResult::Running => {
                if state.count < limit {
                    states.set(id, NodeState { active: true, count: state.count + 1, ..state });
                    TickResult::Running
                } else {
                    clear_range(states, nodes[id].first, id);
                    TickResult::Failure(None)
                }
            },
            _ => {
                settle(states, id);
                r
            },
        },
        Decorator::RepeatWhile(b) => match r {
            TickResult::Running => {
                hold(states, id);
                TickResult::Running
            },
            _ => {
                let again = match &registry.binding(b).implementation {
                    Implementation::Condition(predicate) => match predicate.eval(board) {
                        Ok(true) => true,
                        _ => false,
                    },
                    Implementation::Action(_) => false,
                };
                if again {
                    hold(states, id);
                    TickResult::Running
                } else {
                    settle(states, id);
                    r
                }
            },
        },
    }
}

/// Ticks node `id`.
pub(crate) fn tick_node(
    nodes: &Vec<Node>,
    registry: &Registry,
    states: &mut Vec<NodeState>,
    board: &mut Blackboard,
    id: usize,
) -> (r: TickResult)
    requires
        plan_of(nodes, registry).wf(),
        old(states)@.len() == nodes@.len(),
        id < nodes@.len(),
        old(board).wf(),
    ensures
        final(board).wf(),
        final(states)@.len() == nodes@.len(),
        (Step { world: world_of(final(states), final(board)), result: r }) == tick(
            plan_of(nodes, registry),
            world_of(old(states), old(board)),
            id as int,
        ),
    decreases id, 1nat,
{
    let ghost plan = plan_of(nodes, registry);
    proof {
        assert(plan.kind_wf(id as int));
        assert(plan.layout_wf(id as int));
    }
    match nodes[id].kind {
        NodeKind::Sequence => tick_sequence(nodes, registry, states, board, id),
        NodeKind::Fallback => tick_fallback(nodes, registry, states, board, id),
        NodeKind::Parallel { succeed, fail } => tick_parallel(
            nodes,
            registry,
            states,
            board,
            id,
            succeed,
            fail,
        ),
        NodeKind::Decorator(decorator) => {
            let c = nodes[id].children[0];
            proof {
                assert(plan.child(id as int, 0) == c);
            }
            let r = tick_node(nodes, registry, states, board, c);
            decorate(nodes, registry, decorator, states, board, id, r)
        },
        NodeKind::Action(b) => tick_leaf(&registry.binding(b).implementation, states, board, id),
        NodeKind::Condition(b) => tick_leaf(
            &registry.binding(b).implementation,
            states,
            board,
            id,
        ),
    }
}

/// Ticks the sequence `id` from its cursor on.
fn tick_sequence(
    nodes: &Vec<Node>,
    registry: &Registry,
    states: &mut Vec<NodeState>,
    board: &mut Blackboard,
    id: usize,
) -> (r: TickResult)
    requires
        plan_of(nodes, registry).wf(),
        old(states)@.len() == nodes@.len(),
        id < nodes@.len(),
        old(board).wf(),
    ensures
        final(board).wf(),
        final(states)@.len() == nodes@.len(),
        (Step { world: world_of(final(states), final(board)), result: r }) == sequence_from(
            plan_of(nodes, registry),
            world_of(old(states), old(board)),
            id as int,
            old(states)@[id as int].cursor as int,
        ),
    decreases id, 0nat,
{
    let ghost plan = plan_of(nodes, registry);
    let ghost goal = sequence_from(
        plan,
        world_of(states, board),
        id as int,
        states@[id as int].cursor as int,
    );
    let n = nodes[id].children.len();
    let mut k = states[id].cursor;
    while k < n
        invariant
            plan == plan_of(nodes, registry),
            plan.wf(),
            states@.len() == nodes@.len(),
            id < nodes@.len(),
            board.wf(),
            n == plan.arity(id as int),
            sequence_from(plan, world_of(states, board), id as int, k as int) == goal,
            goal == sequence_from(
                plan,
                world_of(old(states), old(board)),
                id as int,
                old(states)@[id as int].cursor as int,
            ),
        decreases n - k,
    {
        let c = nodes[id].children[k];
        proof {
            assert(plan.kind_wf(id as int));
            assert(plan.layout_wf(id as int));
            assert(plan.child(id as int, k as int) == c);
        }
        let r = tick_node(nodes, registry, states, board, c);
        match r {
            TickResult::Success => {
                k = k + 1;
            },
            TickResult::Failure(reason) => {
                settle(states, id);
                return TickResult::Failure(reason);
            },
            TickResult::Running => {
                let state = states[id];
                states.set(id, NodeState { active: true, cursor: k, ..state });
                return TickResult::Running;
            },
        }
    }
    settle(states, id);
    TickResult::Success
}

/// Ticks the fallback `id` from its cursor on.
fn tick_fallback(
    nodes: &Vec<Node>,
    registry: &Registry,
    states: &mut Vec<NodeState>,
    board: &mut Blackboard,
    id: usize,
) -> (r: TickResult)
    requires
        plan_of(nodes, registry).wf(),
        old(states)@.len() == nodes@.len(),
        id < nodes@.len(),
        old(board).wf(),
    ensures
        final(board).wf(),
        final(states)@.len() == nodes@.len(),
        (Step { world: world_of(final(states), final(board)), result: r }) == fallback_from(
            plan_of(nodes, registry),
            world_of(old(states), old(board)),
            id as int,
            old(states)@[id as int].cursor as int,
        ),
    decreases id, 0nat,
{
    let ghost plan = plan_of(nodes, registry);
    let ghost goal = fallback_from(
        plan,
        world_of(states, board),
        id as int,
        states@[id as int].cursor as int,
    );
    let n = nodes[id].children.len();
    let mut k = states[id].cursor;
    while k < n
        invariant
            plan == plan_of(nodes, registry),
            plan.wf(),
            states@.len() == nodes@.len(),
            id < nodes@.len(),
            board.wf(),
            n == plan.arity(id as int),
            fallback_from(plan, world_of(states, board), id as int, k as int) == goal,
            goal == fallback_from(
                plan,
                world_of(old(states), old(board)),
                id as int,
                old(states)@[id as int].cursor as int,
            ),
        decreases n - k,
    {
        let c = nodes[id].children[k];
        proof {
            assert(plan.kind_wf(id as int));
            assert(plan.layout_wf(id as int));
            assert(plan.child(id as int, k as int) == c);
        }
        let r = tick_node(nodes, registry, states, board, c);
        match r {
            TickResult::Success => {
                settle(states, id);
                return TickResult::Success;
            },
            TickResult::Failure(reason) => {
                if k + 1 < n {
                    k = k + 1;
                } else {
                    settle(states, id);
                    return TickResult::Failure(reason);
                }
            },
            TickResult::Running => {
                let state = states[id];
                states.set(id, NodeState { active: true, cursor: k, ..state });
                return TickResult::Running;
            },
        }
    }
    settle(states, id);
    TickResult::Failure(None)
}

/// Ticks all children of the parallel node `id` and counts their reports.
fn tick_parallel(
    nodes: &Vec<Node>,
    registry: &Registry,
    states: &mut Vec<NodeState>,
    board: &mut Blackboard,
    id: usize,
    succeed: usize,
    fail: usize,
) -> (r: TickResult)
    requires
        plan_of(nodes, registry).wf(),
        old(states)@.len() == nodes@.len(),
        id < nodes@.len(),
        old(board).wf(),
        nodes@[id as int].kind == (NodeKind::Parallel { succeed, fail }),
    ensures
        final(board).wf(),
        final(states)@.len() == nodes@.len(),
        (Step { world: world_of(final(states), final(board)), result: r }) == parallel_from(
            plan_of(nodes, registry),
            world_of(old(states), old(board)),
            id as int,
            0,
            0,
            0,
        ),
    decreases id, 0nat,
{
    let ghost plan = plan_of(nodes, registry);
    let ghost goal = parallel_from(plan, world_of(states, board), id as int, 0, 0, 0);
    let n = nodes[id].children.len();
    let mut k: usize = 0;
    let mut wins: usize = 0;
    let mut losses: usize = 0;
    while k < n
        invariant
            plan == plan_of(nodes, registry),
            plan.wf(),
            states@.len() == nodes@.len(),
            id < nodes@.len(),
            board.wf(),
            n == plan.arity(id as int),
            k <= n,
            wins <= k,
            losses <= k,
            parallel_from(
                plan,
                world_of(states, board),
                id as int,
                k as int,
                wins as int,
                losses as int,
            ) == goal,
        decreases n - k,
    {
        let c = nodes[id].children[k];
        proof {
            assert(plan.kind_wf(id as int));
            assert(plan.layout_wf(id as int));
            assert(plan.child(id as int, k as int) == c);
        }
        let r = tick_node(nodes, registry, states, board, c);
        match r {
            TickResult::Success => {
                wins = wins + 1;
            },
            TickResult::Failure(_) => {
                losses = losses + 1;
            },
            TickResult::Running => {},
        }
        k = k + 1;
    }
    proof {
        assert(plan.kind_wf(id as int));
            assert(plan.layout_wf(id as int));
    }
    if wins >= succeed {
        clear_range(states, nodes[id].first, id);
        TickResult::Success
    } else if losses >= fail {
        clear_range(states, nodes[id].first, id);
        TickResult::Failure(None)
    } else {
        hold(states, id);
        TickResult::Running
    }
}

impl Graph {
    /// Ticks the tree once, from its root.
    pub fn tick(&mut self) -> (r: TickResult)
        requires
            old(self).wf(),
        ensures
            final(self).wf(),
            final(self).plan() == old(self).plan(),
            (Step { world: final(self).world(), result: r }) == tick(
                old(self).plan(),
                old(self).world(),
                old(self).plan().root(),
            ),
    {
        proof {
            self.lemma_parts();
            lemma_tick(self.plan(), self.world(), self.plan().root());
        }
        let root = self.nodes.len() - 1;
        let r = tick_node(&self.nodes, &self.registry, &mut self.states, &mut self.board, root);
        proof {
            self.lemma_parts();
        }
        r
    }

    /// Resets the tree: no node holds running-state after it. The counts of
    /// invocations and the blackboard stay.
    pub fn reset(&mut self)
        requires
            old(self).wf(),
        ensures
            final(self).wf(),
            final(self).plan() == old(self).plan(),
            final(self).world() == old(self).world().clear(0, old(self).plan().root()),
            final(self).world().quiet(0, old(self).plan().root()),
    {
        proof {
            self.lemma_parts();
            lemma_clear(self.plan(), self.world(), self.plan().root());
        }
        let root = self.nodes.len() - 1;
        clear_range(&mut self.states, 0, root);
        proof {
            self.lemma_parts();
        }
    }
}

} // verus!
