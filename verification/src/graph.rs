//! The node graph: an arena of nodes in which every relation is an index,
//! the running-state that each node keeps between ticks, and the rules that
//! a well-formed arena obeys.
//!
//! The arena lists the tree in post-order: the nodes below a node stand
//! directly before it, child after child, so a subtree is a range of the
//! arena that ends at its root, and the root of the tree is the last node.

use vstd::prelude::*;
use crate::blackboard::{Blackboard, Datum, Value};
use crate::leaf::Implementation;
use crate::registry::{Binding, Registry};
use crate::status::{RuntimeError, TickResult};

verus! {

/// How a decorator treats the report of its child.
#[derive(Clone, Copy, Debug, PartialEq, Eq)]
pub enum Decorator {
    /// Swaps success and failure.
    Invert,
    /// Ticks a failed child again, on later ticks, up to the given number
    /// of times before it fails itself.
    Retry(u64),
    /// Fails once the child has reported `Running` on more than the given
    /// number of ticks.
    Timeout(u64),
    /// Ticks the child again, on later ticks, for as long as the condition
    /// bound at the given place of the registry holds when the child ends.
    RepeatWhile(usize),
}

/// The kinds of node.
#[derive(Clone, Copy, Debug, PartialEq, Eq)]
pub enum NodeKind {
    /// Succeeds when all children succeed, one after the other.
    Sequence,
    /// Succeeds with the first child that succeeds.
    Fallback,
    /// Ticks all children at every tick and counts their reports.
    Parallel {
        /// The number of successes in one tick with which the node succeeds.
        succeed: usize,
        /// The number of failures in one tick with which the node fails.
        fail: usize,
    },
    /// Changes the report of its one child.
    Decorator(Decorator),
    /// A leaf that runs the action bound at the given place of the registry.
    Action(usize),
    /// A leaf that judges the condition bound at the given place of the
    /// registry.
    Condition(usize),
}

/// A node of the arena.
#[derive(Debug, PartialEq, Eq)]
pub struct Node {
    /// What the node does.
    pub kind: NodeKind,
    /// The children, in the order in which they are ticked.
    pub children: Vec<usize>,
    /// The first node of the subtree: the subtree is the range from there to
    /// the node itself.
    pub first: usize,
}

/// What a node keeps between ticks.
#[derive(Clone, Copy, Debug, PartialEq, Eq)]
pub struct NodeState {
    /// The node reported `Running` at its last tick and has not been reset.
    pub active: bool,
    /// The child at which a sequence or a fallback goes on.
    pub cursor: usize,
    /// What the node has counted since it was activated: the retries of a
    /// retry, the ticks of a timeout, the progress of an action.
    pub count: u64,
    /// How often the leaf has been invoked. It is kept through resets.
    pub invocations: u64,
    /// A report that the next invocation of the leaf gives in place of its
    /// implementation.
    pub forced: Option<TickResult>,
}

impl NodeState {
    /// The node holds no running-state.
    pub open spec fn fresh(self) -> bool {
        !self.active && self.cursor == 0 && self.count == 0
    }

    /// The state without its running-state.
    pub open spec fn reset(self) -> NodeState {
        NodeState { active: false, cursor: 0, count: 0, ..self }
    }

    /// The state of a node that was never ticked.
    pub open spec fn initial() -> NodeState {
        NodeState { active: false, cursor: 0, count: 0, invocations: 0, forced: None }
    }
}

/// The fixed part of a graph: the nodes, and the bindings of their leaves.
pub struct Plan {
    pub nodes: Seq<Node>,
    pub bindings: Seq<Binding>,
}

impl Plan {
    /// The number of children of node `id`.
    pub open spec fn arity(self, id: int) -> int {
        self.nodes[id].children@.len() as int
    }

    /// The child of node `id` at position `k`.
    pub open spec fn child(self, id: int, k: int) -> int {
        self.nodes[id].children@[k] as int
    }

    /// The first node of the subtree of node `id`.
    pub open spec fn first(self, id: int) -> int {
        self.nodes[id].first as int
    }

    /// The root of the tree.
    pub open spec fn root(self) -> int {
        self.nodes.len() - 1
    }

    /// Whether the condition bound at place `b` holds of `board`. A
    /// condition that cannot be read does not hold.
    pub open spec fn condition_holds(self, b: usize, board: Map<Seq<char>, Datum>) -> bool {
        match self.bindings[b as int].implementation {
            Implementation::Condition(predicate) => predicate.holds(board),
            Implementation::Action(_) => false,
        }
    }

    /// The number of children fits the kind, and a leaf is bound to an
    /// implementation of its kind.
    pub open spec fn kind_wf(self, id: int) -> bool {
        match self.nodes[id].kind {
            NodeKind::Sequence => self.arity(id) >= 1,
            NodeKind::Fallback => self.arity(id) >= 1,
            NodeKind::Parallel { .. } => self.arity(id) >= 1,
            NodeKind::Decorator(decorator) => self.arity(id) == 1 && (decorator matches Decorator::RepeatWhile(
                b,
            ) ==> b < self.bindings.len() && self.bindings[b as int].implementation is Condition),
            NodeKind::Action(b) => self.arity(id) == 0 && b < self.bindings.len()
                && self.bindings[b as int].implementation is Action,
            NodeKind::Condition(b) => self.arity(id) == 0 && b < self.bindings.len()
                && self.bindings[b as int].implementation is Condition,
        }
    }

    /// The subtrees of the children of node `id` follow one another and fill
    /// the range from the first node of the subtree to the node before `id`.
    pub open spec fn layout_wf(self, id: int) -> bool {
        &&& 0 <= self.first(id) <= id
        &&& self.arity(id) == 0 ==> self.first(id) == id
        &&& self.arity(id) > 0 ==> {
            &&& self.first(self.child(id, 0)) == self.first(id)
            &&& self.child(id, self.arity(id) - 1) == id - 1
        }
        &&& forall|k: int| 0 <= k < self.arity(id) ==> 0 <= #[trigger] self.child(id, k) < id
        &&& forall|k: int|
            0 <= k < self.arity(id) - 1 ==> self.first(#[trigger] self.child(id, k + 1))
                == self.child(id, k) + 1
    }

    /// The rules of a well-formed arena.
    pub open spec fn wf(self) -> bool {
        &&& self.nodes.len() > 0
        &&& self.first(self.root()) == 0
        &&& forall|id: int|
            0 <= id < self.nodes.len() ==> #[trigger] self.kind_wf(id) && self.layout_wf(id)
    }
}

/// The subtree of a child lies inside the subtree of its parent, before the
/// parent.
pub proof fn lemma_child_range(plan: Plan, id: int, k: int)
    requires
        plan.wf(),
        0 <= id < plan.nodes.len(),
        0 <= k < plan.arity(id),
    ensures
        plan.first(id) <= plan.first(plan.child(id, k)) <= plan.child(id, k) < id,
    decreases k,
{
    assert(plan.kind_wf(id));
    assert(plan.layout_wf(id));
    let c = plan.child(id, k);
    assert(plan.kind_wf(c));
    assert(plan.layout_wf(c));
    if k > 0 {
        lemma_child_range(plan, id, k - 1);
        assert(plan.first(plan.child(id, (k - 1) + 1)) == plan.child(id, k - 1) + 1);
    }
}

/// The subtrees of the children of a node follow one another in the arena.
pub proof fn lemma_child_order(plan: Plan, id: int, j: int, k: int)
    requires
        plan.wf(),
        0 <= id < plan.nodes.len(),
        0 <= j < k < plan.arity(id),
    ensures
        plan.child(id, j) < plan.first(plan.child(id, k)),
    decreases k - j,
{
    assert(plan.kind_wf(id));
    assert(plan.layout_wf(id));
    if j + 1 == k {
        assert(plan.first(plan.child(id, j + 1)) == plan.child(id, j) + 1);
    } else {
        lemma_child_order(plan, id, j + 1, k);
        lemma_child_range(plan, id, j + 1);
        assert(plan.first(plan.child(id, j + 1)) == plan.child(id, j) + 1);
    }
}

/// A well-formed arena obeys its rules at every node.
pub proof fn lemma_node_wf(plan: Plan, id: int)
    requires
        plan.wf(),
        0 <= id < plan.nodes.len(),
    ensures
        plan.kind_wf(id),
        plan.layout_wf(id),
        0 <= plan.first(id) <= id,
        plan.arity(id) <= usize::MAX,
{
    assert(plan.kind_wf(id));
    assert(plan.layout_wf(id));
    assert(plan.nodes[id].children.len() == plan.arity(id));
}

/// Every node of a subtree but its root lies in the subtree of one child of
/// the root. Returns the position of that child.
pub proof fn lemma_cover(plan: Plan, id: int, a: int) -> (m: int)
    requires
        plan.wf(),
        0 <= id < plan.nodes.len(),
        plan.first(id) <= a < id,
    ensures
        0 <= m < plan.arity(id),
        plan.first(plan.child(id, m)) <= a <= plan.child(id, m),
{
    lemma_node_wf(plan, id);
    lemma_cover_below(plan, id, a, plan.arity(id) - 1)
}

/// The search behind `lemma_cover`, among the children up to position `top`.
proof fn lemma_cover_below(plan: Plan, id: int, a: int, top: int) -> (m: int)
    requires
        plan.wf(),
        0 <= id < plan.nodes.len(),
        0 <= top < plan.arity(id),
        plan.first(id) <= a <= plan.child(id, top),
    ensures
        0 <= m < plan.arity(id),
        plan.first(plan.child(id, m)) <= a <= plan.child(id, m),
    decreases top,
{
    lemma_node_wf(plan, id);
    if plan.first(plan.child(id, top)) <= a {
        top
    } else {
        assert(top > 0);
        assert(plan.first(plan.child(id, (top - 1) + 1)) == plan.child(id, top - 1) + 1);
        lemma_cover_below(plan, id, a, top - 1)
    }
}

/// Subtrees nest: a node inside the subtree of another has its own subtree
/// inside it.
pub proof fn lemma_nested(plan: Plan, a: int, b: int)
    requires
        plan.wf(),
        0 <= a < b < plan.nodes.len(),
        plan.first(b) <= a,
    ensures
        plan.first(b) <= plan.first(a),
    decreases b,
{
    let m = lemma_cover(plan, b, a);
    let c = plan.child(b, m);
    lemma_child_range(plan, b, m);
    if a != c {
        lemma_nested(plan, a, c);
    }
}

/// A node below `id` that lies outside the subtree of a child of `id` has
/// its whole subtree outside it.
pub proof fn lemma_apart(plan: Plan, id: int, k: int, i: int)
    requires
        plan.wf(),
        0 <= id < plan.nodes.len(),
        0 <= k < plan.arity(id),
        plan.first(id) <= i < id,
        !(plan.first(plan.child(id, k)) <= i <= plan.child(id, k)),
    ensures
        0 <= plan.first(i) <= i,
        i < plan.first(plan.child(id, k)) || plan.child(id, k) < plan.first(i),
{
    let c = plan.child(id, k);
    lemma_node_wf(plan, i);
    lemma_child_range(plan, id, k);
    if i > c {
        let m = lemma_cover(plan, id, i);
        let d = plan.child(id, m);
        lemma_child_range(plan, id, m);
        if m < k {
            lemma_child_order(plan, id, m, k);
        } else if m > k {
            lemma_child_order(plan, id, k, m);
            if i != d {
                lemma_nested(plan, i, d);
            }
        }
    }
}

/// The states with the running-state of the nodes from `lo` to `hi` reset.
pub open spec fn cleared(states: Seq<NodeState>, lo: int, hi: int) -> Seq<NodeState> {
    Seq::new(
        states.len(),
        |j: int|
            if lo <= j <= hi {
                states[j].reset()
            } else {
                states[j]
            },
    )
}

/// The part of a graph that ticks change: the running-state of each node,
/// and the blackboard.
pub struct World {
    pub states: Seq<NodeState>,
    pub board: Map<Seq<char>, Datum>,
}

impl World {
    /// The world with the state of node `id` replaced.
    pub open spec fn put(self, id: int, state: NodeState) -> World {
        World { states: self.states.update(id, state), ..self }
    }

    /// The world with the running-state of node `id` reset.
    pub open spec fn settle(self, id: int) -> World {
        self.put(id, self.states[id].reset())
    }

    /// The world with node `id` marked as running.
    pub open spec fn hold(self, id: int) -> World {
        self.put(id, NodeState { active: true, ..self.states[id] })
    }

    /// The world with the running-state of the nodes from `lo` to `hi` reset.
    pub open spec fn clear(self, lo: int, hi: int) -> World {
        World { states: cleared(self.states, lo, hi), ..self }
    }

    /// No node from `lo` to `hi` holds running-state.
    pub open spec fn quiet(self, lo: int, hi: int) -> bool {
        forall|j: int| lo <= j <= hi ==> (#[trigger] self.states[j]).fresh()
    }
}

/// What holds of a node between ticks: one that is not running has no
/// running-state in its subtree; of the children of a sequence or a fallback
/// only the one at the cursor can be running, and it is running where the
/// node is.
pub open spec fn node_settled(plan: Plan, w: World, id: int) -> bool {
    &&& !w.states[id].active ==> w.quiet(plan.first(id), id)
    &&& (plan.nodes[id].kind is Sequence || plan.nodes[id].kind is Fallback) ==> {
        &&& forall|k: int|
            0 <= k < plan.arity(id) && k != w.states[id].cursor ==> !(#[trigger] w.states[plan.child(
                id,
                k,
            )]).active
        &&& w.states[id].active ==> 0 <= w.states[id].cursor < plan.arity(id)
            && w.states[plan.child(id, w.states[id].cursor as int)].active
    }
}

/// Every node from `lo` to `hi` is settled.
pub open spec fn settled(plan: Plan, w: World, lo: int, hi: int) -> bool {
    forall|id: int| lo <= id <= hi ==> #[trigger] node_settled(plan, w, id)
}

/// A runnable tree with all that a session owns: the arena of nodes, the
/// running-state of each node, the registry that the leaves are bound to,
/// and the blackboard.
#[derive(Debug)]
pub struct Graph {
    pub(crate) nodes: Vec<Node>,
    pub(crate) states: Vec<NodeState>,
    pub(crate) registry: Registry,
    pub(crate) board: Blackboard,
}

impl Graph {
    /// The fixed part of the graph.
    pub closed spec fn plan(&self) -> Plan {
        Plan { nodes: self.nodes@, bindings: self.registry.bindings() }
    }

    /// The part of the graph that ticks change.
    pub closed spec fn world(&self) -> World {
        World { states: self.states@, board: self.board@ }
    }

    /// The invariants of the parts that the graph owns.
    pub closed spec fn parts_wf(&self) -> bool {
        self.registry.wf() && self.board.wf()
    }

    /// What the parts of the graph stand for.
    pub(crate) proof fn lemma_parts(&self)
        ensures
            self.plan() == (Plan { nodes: self.nodes@, bindings: self.registry.bindings() }),
            self.world() == (World { states: self.states@, board: self.board@ }),
            self.parts_wf() == (self.registry.wf() && self.board.wf()),
    {
    }

    /// The invariant of a graph: the arena is well formed, every node has
    /// its state, and the tree is settled.
    pub open spec fn wf(&self) -> bool {
        &&& self.parts_wf()
        &&& self.plan().wf()
        &&& self.world().states.len() == self.plan().nodes.len()
        &&& settled(self.plan(), self.world(), 0, self.plan().root())
    }

    /// The number of nodes.
    pub fn len(&self) -> (n: usize)
        ensures
            n == self.plan().nodes.len(),
    {
        self.nodes.len()
    }

    /// The root of the tree: the last node of the arena.
    pub fn root(&self) -> (id: usize)
        requires
            self.wf(),
        ensures
            id == self.plan().root(),
    {
        self.nodes.len() - 1
    }

    /// The kind of node `id`.
    pub fn kind(&self, id: usize) -> (kind: NodeKind)
        requires
            id < self.plan().nodes.len(),
        ensures
            kind == self.plan().nodes[id as int].kind,
    {
        self.nodes[id].kind
    }

    /// The children of node `id`, in the order in which they are ticked.
    pub fn children(&self, id: usize) -> (children: &Vec<usize>)
        requires
            id < self.plan().nodes.len(),
        ensures
            children@ == self.plan().nodes[id as int].children@,
    {
        &self.nodes[id].children
    }

    /// The first node of the subtree of node `id`.
    pub fn first(&self, id: usize) -> (first: usize)
        requires
            id < self.plan().nodes.len(),
        ensures
            first == self.plan().first(id as int),
    {
        self.nodes[id].first
    }

    /// The name that the leaf `id` is bound to; none for a node that is no
    /// leaf.
    pub fn name(&self, id: usize) -> (name: Option<&String>)
        requires
            self.wf(),
            id < self.plan().nodes.len(),
        ensures
            match self.plan().nodes[id as int].kind {
                NodeKind::Action(b) => name == Some(&self.plan().bindings[b as int].name),
                NodeKind::Condition(b) => name == Some(&self.plan().bindings[b as int].name),
                _ => name is None,
            },
    {
        proof {
            lemma_node_wf(self.plan(), id as int);
        }
        match self.nodes[id].kind {
            NodeKind::Action(b) => Some(&self.registry.binding(b).name),
            NodeKind::Condition(b) => Some(&self.registry.binding(b).name),
            _ => None,
        }
    }

    /// What node `id` keeps between ticks.
    pub fn state(&self, id: usize) -> (state: NodeState)
        requires
            id < self.world().states.len(),
        ensures
            state == self.world().states[id as int],
    {
        self.states[id]
    }

    /// Tells whether node `id` reported `Running` at its last tick and has
    /// not been reset since.
    pub fn is_running(&self, id: usize) -> (r: bool)
        requires
            id < self.world().states.len(),
        ensures
            r == self.world().states[id as int].active,
    {
        self.states[id].active
    }

    /// How often the leaf `id` has been invoked.
    pub fn invocations(&self, id: usize) -> (n: u64)
        requires
            id < self.world().states.len(),
        ensures
            n == self.world().states[id as int].invocations,
    {
        self.states[id].invocations
    }

    /// The blackboard.
    pub fn board(&self) -> (board: &Blackboard)
        requires
            self.wf(),
        ensures
            board.wf(),
            board@ == self.world().board,
    {
        &self.board
    }

    /// The registry that the leaves are bound to.
    pub fn registry(&self) -> (registry: &Registry)
        requires
            self.wf(),
        ensures
            registry.wf(),
            registry.bindings() == self.plan().bindings,
    {
        &self.registry
    }

    /// Reads the value that the blackboard holds under `key`.
    pub fn get(&self, key: &str) -> (r: Result<&Value, RuntimeError>)
        requires
            self.wf(),
        ensures
            match r {
                Ok(value) => self.world().board.contains_key(key@) && value@
                    == self.world().board[key@],
                Err(e) => !self.world().board.contains_key(key@) && e
                    == RuntimeError::BlackboardNotFound,
            },
    {
        self.board.get(key)
    }

    /// Writes `value` under `key` of the blackboard, between ticks. Fails
    /// with `BlackboardTypeMismatch`, and changes nothing, where the key
    /// holds a value of another kind.
    pub fn set(&mut self, key: &str, value: Value) -> (r: Result<(), RuntimeError>)
        requires
            old(self).wf(),
        ensures
            final(self).wf(),
            final(self).plan() == old(self).plan(),
            final(self).world().states == old(self).world().states,
            final(self).world().board == crate::blackboard::written(
                old(self).world().board,
                key@,
                value@,
            ),
            match r {
                Ok(_) => !crate::blackboard::refused(old(self).world().board, key@, value@),
                Err(e) => crate::blackboard::refused(old(self).world().board, key@, value@) && e
                    == RuntimeError::BlackboardTypeMismatch,
            },
    {
        let ghost plan = self.plan();
        let ghost before = self.world();
        let r = self.board.set(key, value);
        proof {
            let after = self.world();
            assert forall|id: int| 0 <= id <= plan.root() implies #[trigger] node_settled(
                plan,
                after,
                id,
            ) by {
                assert(node_settled(plan, before, id));
            }
        }
        r
    }
}

} // verus!
