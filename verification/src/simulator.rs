//! The simulator: it ticks a graph again and again under a profile, which
//! bounds the number of ticks and may force the reports of leaves, until
//! the tree ends or the budget is used up.

use vstd::prelude::*;
use crate::engine::{tick, tick_node};
use crate::graph::{lemma_node_wf, node_settled, settled, Graph, Node, NodeKind, NodeState, Plan, World};
use crate::invariants::lemma_tick;
use crate::leaf::Implementation;
use crate::registry::{bound, slot, Binding, Registry};
use crate::status::TickResult;

verus! {

/// What a perturbation makes of an invocation.
#[derive(Clone, Copy, Debug, PartialEq, Eq)]
pub enum Effect {
    /// The leaf succeeds without running.
    Succeed,
    /// The leaf fails without running.
    Fail,
    /// The leaf is held up for this tick: it reports `Running`, and keeps
    /// what progress it has.
    Delay,
}

impl Effect {
    /// The report that the effect forces.
    pub open spec fn report(self) -> TickResult {
        match self {
            Effect::Succeed => TickResult::Success,
            Effect::Fail => TickResult::Failure(None),
            Effect::Delay => TickResult::Running,
        }
    }

    /// The report that the effect forces.
    pub fn forced(self) -> (r: TickResult)
        ensures
            r == self.report(),
    {
        match self {
            Effect::Succeed => TickResult::Success,
            Effect::Fail => TickResult::Failure(None),
            Effect::Delay => TickResult::Running,
        }
    }
}

/// A perturbation: at the given invocation of every leaf that is bound to
/// the name, counted from 1, the effect takes the place of the
/// implementation.
#[derive(Debug, PartialEq, Eq)]
pub struct Perturbation {
    pub action: String,
    pub invocation: u64,
    pub effect: Effect,
}

/// A profile: the perturbations of a run, and the number of ticks that the
/// run may take.
#[derive(Debug, PartialEq, Eq)]
pub struct Profile {
    pub perturbations: Vec<Perturbation>,
    pub max_ticks: u64,
}

/// The states of a simulation.
#[derive(Clone, Copy, Debug, PartialEq, Eq)]
pub enum SimState {
    /// No tick was made yet.
    NotStarted,
    /// The tree was ticked and is `Running`.
    Running,
    /// The tree has succeeded.
    Succeeded,
    /// The tree has failed.
    Failed,
    /// The run was given up: the profile is invalid, or the budget of ticks
    /// was used up while the tree was `Running`.
    Aborted,
}

impl SimState {
    /// The states that a simulation does not leave.
    pub open spec fn terminal(self) -> bool {
        self is Succeeded || self is Failed || self is Aborted
    }

    /// Tells whether the simulation has ended.
    pub fn is_terminal(self) -> (r: bool)
        ensures
            r == self.terminal(),
    {
        match self {
            SimState::NotStarted => false,
            SimState::Running => false,
            _ => true,
        }
    }
}

/// Why a simulation was given up.
#[derive(Clone, Copy, Debug, PartialEq, Eq)]
pub enum SimulationError {
    /// The budget of ticks was used up while the tree was `Running`.
    BudgetExhausted,
    /// A perturbation names no leaf of the registry, counts its invocation
    /// from 0, or delays a condition.
    ProfileInvalid,
}

/// Where a simulation stands, and at its end the result of the run.
#[derive(Clone, Copy, Debug, PartialEq, Eq)]
pub struct SimResult {
    /// The state of the simulation.
    pub state: SimState,
    /// The number of ticks made.
    pub ticks: u64,
    /// The report of the last tick.
    pub last: Option<TickResult>,
    /// Why the run was given up, where it was.
    pub error: Option<SimulationError>,
}

impl SimResult {
    /// A simulation that has not started.
    pub open spec fn fresh() -> SimResult {
        SimResult { state: SimState::NotStarted, ticks: 0, last: None, error: None }
    }
}

/// A perturbation is valid where it names a leaf of the registry, counts
/// its invocation from 1, and delays nothing but an action.
pub open spec fn perturbation_valid(bindings: Seq<Binding>, p: Perturbation) -> bool {
    &&& p.invocation >= 1
    &&& bound(bindings, p.action@)
    &&& p.effect is Delay ==> bindings[slot(bindings, p.action@)].implementation is Action
}

/// A profile is valid where each of its perturbations is.
pub open spec fn profile_valid(bindings: Seq<Binding>, perturbations: Seq<Perturbation>) -> bool {
    forall|i: int|
        0 <= i < perturbations.len() ==> perturbation_valid(bindings, #[trigger] perturbations[i])
}

/// The report that the perturbations from position `k` on force on the
/// invocation after `invocations` of a leaf bound to `name`: that of the
/// first perturbation that names the leaf and the invocation.
pub open spec fn pending(
    perturbations: Seq<Perturbation>,
    name: Seq<char>,
    invocations: u64,
    k: int,
) -> Option<TickResult>
    decreases perturbations.len() - k,
{
    if 0 <= k < perturbations.len() {
        if perturbations[k].action@ == name && perturbations[k].invocation == invocations + 1 {
            Some(perturbations[k].effect.report())
        } else {
            pending(perturbations, name, invocations, k + 1)
        }
    } else {
        None
    }
}

/// The report that the perturbations force on the next invocation of node
/// `id`; none on a node that is no leaf.
pub open spec fn pending_at(
    plan: Plan,
    perturbations: Seq<Perturbation>,
    id: int,
    invocations: u64,
) -> Option<TickResult> {
    match plan.nodes[id].kind {
        NodeKind::Action(b) => pending(perturbations, plan.bindings[b as int].name@, invocations, 0),
        NodeKind::Condition(b) => pending(
            perturbations,
            plan.bindings[b as int].name@,
            invocations,
            0,
        ),
        _ => None,
    }
}

/// The states with every leaf armed for its next invocation: it holds the
/// report that the perturbations force on that invocation, or none.
pub open spec fn armed_states(
    plan: Plan,
    states: Seq<NodeState>,
    perturbations: Seq<Perturbation>,
) -> Seq<NodeState> {
    Seq::new(
        states.len(),
        |i: int|
            NodeState {
                forced: pending_at(plan, perturbations, i, states[i].invocations),
                ..states[i]
            },
    )
}

/// The world with every leaf armed for its next invocation.
pub open spec fn armed(plan: Plan, w: World, perturbations: Seq<Perturbation>) -> World {
    World { states: armed_states(plan, w.states, perturbations), board: w.board }
}

/// Where a simulation stands after one step, and the world it leaves.
pub struct Advance {
    pub at: SimResult,
    pub world: World,
}

/// One step of the simulation that stands at `at`.
///
/// A simulation that has ended stays as it is. One that has not started
/// under an invalid profile is given up, with no tick made. One whose
/// budget of ticks is used up is given up. Else the leaves are armed, the
/// tree is ticked once from its root, and the report of the tick is the new
/// state.
pub open spec fn stepped(plan: Plan, w: World, profile: Profile, at: SimResult) -> Advance {
    if at.state.terminal() {
        Advance { at, world: w }
    } else if at.state is NotStarted && !profile_valid(plan.bindings, profile.perturbations@) {
        Advance {
            at: SimResult {
                state: SimState::Aborted,
                error: Some(SimulationError::ProfileInvalid),
                ..at
            },
            world: w,
        }
    } else if at.ticks >= profile.max_ticks {
        Advance {
            at: SimResult {
                state: SimState::Aborted,
                error: Some(SimulationError::BudgetExhausted),
                ..at
            },
            world: w,
        }
    } else {
        let s = tick(plan, armed(plan, w, profile.perturbations@), plan.root());
        Advance {
            at: SimResult {
                state: match s.result {
                    TickResult::Success => SimState::Succeeded,
                    TickResult::Failure(_) => SimState::Failed,
                    TickResult::Running => SimState::Running,
                },
                ticks: (at.ticks + 1) as u64,
                last: Some(s.result),
                error: None,
            },
            world: s.world,
        }
    }
}

/// The steps that a simulation at `at` may still need.
pub open spec fn steps_left(profile: Profile, at: SimResult) -> nat {
    if at.state.terminal() {
        0
    } else if at.ticks >= profile.max_ticks {
        1
    } else {
        (profile.max_ticks - at.ticks + 1) as nat
    }
}

/// The end of the simulation that stands at `at`: step follows step until
/// the simulation has ended.
pub open spec fn finished(plan: Plan, w: World, profile: Profile, at: SimResult) -> Advance
    decreases steps_left(profile, at),
{
    if at.state.terminal() {
        Advance { at, world: w }
    } else {
        let next = stepped(plan, w, profile, at);
        finished(plan, next.world, profile, next.at)
    }
}

/// A simulation that has ended stays as it is; one that runs never returns
/// to its start; and every step counts at most one tick.
pub proof fn law_transitions(plan: Plan, w: World, profile: Profile, at: SimResult)
    ensures
        at.state.terminal() ==> stepped(plan, w, profile, at) == (Advance { at, world: w }),
        !(stepped(plan, w, profile, at).at.state is NotStarted),
        stepped(plan, w, profile, at).at.ticks == at.ticks || (at.ticks < profile.max_ticks
            && stepped(plan, w, profile, at).at.ticks == at.ticks + 1),
        stepped(plan, w, profile, at).at.state is Running ==> stepped(
            plan,
            w,
            profile,
            at,
        ).at.last == Some(TickResult::Running),
{
}

/// What holds at the end of every run from the start: the simulation has
/// ended, within its budget of ticks. It has succeeded or failed exactly
/// where the last tick did; it was given up for the profile before any
/// tick, or for the budget after a last tick that was `Running`, or none.
pub proof fn law_run_ends(plan: Plan, w: World, profile: Profile, at: SimResult)
    requires
        at == SimResult::fresh() || (at.state is Running && at.last == Some(TickResult::Running)
            && at.error is None && at.ticks <= profile.max_ticks),
    ensures
        ({
            let end = finished(plan, w, profile, at).at;
            &&& end.state.terminal()
            &&& end.ticks <= profile.max_ticks
            &&& end.state is Succeeded <==> end.last == Some(TickResult::Success)
            &&& end.state is Failed <==> end.last is Some && end.last.unwrap() is Failure
            &&& end.state is Aborted <==> end.error is Some
            &&& end.error == Some(SimulationError::ProfileInvalid) <==> !profile_valid(
                plan.bindings,
                profile.perturbations@,
            ) && at.state is NotStarted
            &&& end.error == Some(SimulationError::ProfileInvalid) ==> end.ticks == 0 && finished(
                plan,
                w,
                profile,
                at,
            ).world == w
            &&& end.error == Some(SimulationError::BudgetExhausted) ==> end.ticks
                == profile.max_ticks && (end.last is None || end.last == Some(TickResult::Running))
        }),
    decreases steps_left(profile, at),
{
    let next = stepped(plan, w, profile, at);
    assert(finished(plan, w, profile, at) == finished(plan, next.world, profile, next.at));
    if next.at.state.terminal() {
        assert(finished(plan, next.world, profile, next.at) == next);
    } else {
        law_run_ends(plan, next.world, profile, next.at);
    }
}

/// Tells whether every perturbation is valid.
fn profile_ok(registry: &Registry, perturbations: &Vec<Perturbation>) -> (r: bool)
    requires
        registry.wf(),
    ensures
        r == profile_valid(registry.bindings(), perturbations@),
{
    let mut i: usize = 0;
    while i < perturbations.len()
        invariant
            registry.wf(),
            i <= perturbations@.len(),
            forall|j: int|
                0 <= j < i ==> perturbation_valid(registry.bindings(), #[trigger] perturbations@[j]),
        decreases perturbations@.len() - i,
    {
        let p = &perturbations[i];
        let valid = p.invocation >= 1 && match registry.find(p.action.as_str()) {
            Some(b) => match p.effect {
                Effect::Delay => match &registry.binding(b).implementation {
                    Implementation::Action(_) => true,
                    Implementation::Condition(_) => false,
                },
                _ => true,
            },
            None => false,
        };
        if !valid {
            assert(!perturbation_valid(registry.bindings(), perturbations@[i as int]));
            return false;
        }
        i = i + 1;
    }
    true
}

/// The report that the perturbations force on the invocation after
/// `invocations` of a leaf bound to `name`.
fn pending_for(perturbations: &Vec<Perturbation>, name: &String, invocations: u64) -> (r: Option<
    TickResult,
>)
    ensures
        r == pending(perturbations@, name@, invocations, 0),
{
    let mut i: usize = 0;
    while i < perturbations.len()
        invariant
            i <= perturbations@.len(),
            pending(perturbations@, name@, invocations, i as int) == pending(
                perturbations@,
                name@,
                invocations,
                0,
            ),
        decreases perturbations@.len() - i,
    {
        let p = &perturbations[i];
        if p.invocation >= 1 && p.invocation - 1 == invocations && p.action == *name {
            return Some(p.effect.forced());
        }
        i = i + 1;
    }
    None
}

/// Arms every leaf for its next invocation.
fn arm(
    nodes: &Vec<Node>,
    registry: &Registry,
    states: &mut Vec<NodeState>,
    perturbations: &Vec<Perturbation>,
)
    requires
        (Plan { nodes: nodes@, bindings: registry.bindings() }).wf(),
        old(states)@.len() == nodes@.len(),
    ensures
        final(states)@ == armed_states(
            Plan { nodes: nodes@, bindings: registry.bindings() },
            old(states)@,
            perturbations@,
        ),
{
    let ghost plan = Plan { nodes: nodes@, bindings: registry.bindings() };
    let ghost before = states@;
    let mut i: usize = 0;
    while i < nodes.len()
        invariant
            plan == (Plan { nodes: nodes@, bindings: registry.bindings() }),
            plan.wf(),
            before == old(states)@,
            before.len() == nodes@.len(),
            i <= nodes@.len(),
            states@.len() == nodes@.len(),
            forall|j: int| 0 <= j < i ==> states@[j] == armed_states(plan, before, perturbations@)[j],
            forall|j: int| i <= j < nodes@.len() ==> states@[j] == before[j],
        decreases nodes@.len() - i,
    {
        let state = states[i];
        proof {
            lemma_node_wf(plan, i as int);
        }
        let forced = match nodes[i].kind {
            NodeKind::Action(b) => pending_for(
                perturbations,
                &registry.binding(b).name,
                state.invocations,
            ),
            NodeKind::Condition(b) => pending_for(
                perturbations,
                &registry.binding(b).name,
                state.invocations,
            ),
            _ => None,
        };
        states.set(i, NodeState { forced, ..state });
        i = i + 1;
    }
    assert(states@ =~= armed_states(plan, before, perturbations@));
}

/// Arming the leaves keeps a tree settled.
proof fn lemma_armed_settled(plan: Plan, w: World, perturbations: Seq<Perturbation>)
    requires
        plan.wf(),
        w.states.len() == plan.nodes.len(),
        settled(plan, w, 0, plan.root()),
    ensures
        settled(plan, armed(plan, w, perturbations), 0, plan.root()),
        armed(plan, w, perturbations).states.len() == w.states.len(),
{
    let after = armed(plan, w, perturbations);
    assert forall|id: int| 0 <= id <= plan.root() implies #[trigger] node_settled(plan, after, id) by {
        assert(node_settled(plan, w, id));
        lemma_node_wf(plan, id);
        if !after.states[id].active {
            assert forall|j: int| plan.first(id) <= j <= id implies (#[trigger] after.states[j]).fresh() by {
                assert(w.states[j].fresh());
            }
        }
        if plan.nodes[id].kind is Sequence || plan.nodes[id].kind is Fallback {
            assert forall|k: int|
                0 <= k < plan.arity(id) && k != after.states[id].cursor implies !(
            #[trigger] after.states[plan.child(id, k)]).active by {
                assert(0 <= plan.child(id, k) < id);
                assert(!w.states[plan.child(id, k)].active);
            }
            if after.states[id].active {
                assert(0 <= plan.child(id, w.states[id].cursor as int) < id);
            }
        }
    }
}

/// A simulation of one graph under one profile.
#[derive(Debug)]
pub struct Simulator {
    profile: Profile,
    at: SimResult,
}

impl Simulator {
    /// The profile of the simulation.
    pub closed spec fn profile(&self) -> Profile {
        self.profile
    }

    /// Where the simulation stands.
    pub closed spec fn progress(&self) -> SimResult {
        self.at
    }

    /// A simulation under `profile` that has not started.
    pub fn new(profile: Profile) -> (simulator: Simulator)
        ensures
            simulator.profile() == profile,
            simulator.progress() == SimResult::fresh(),
    {
        Simulator {
            profile,
            at: SimResult { state: SimState::NotStarted, ticks: 0, last: None, error: None },
        }
    }

    /// Where the simulation stands.
    pub fn result(&self) -> (r: SimResult)
        ensures
            r == self.progress(),
    {
        self.at
    }

    /// Makes one step of the simulation.
    pub fn step(&mut self, graph: &mut Graph)
        requires
            old(graph).wf(),
        ensures
            final(graph).wf(),
            final(graph).plan() == old(graph).plan(),
            final(self).profile() == old(self).profile(),
            (Advance { at: final(self).progress(), world: final(graph).world() }) == stepped(
                old(graph).plan(),
                old(graph).world(),
                old(self).profile(),
                old(self).progress(),
            ),
    {
        proof {
            graph.lemma_parts();
        }
        if self.at.state.is_terminal() {
            return ;
        }
        let starting = match self.at.state {
            SimState::NotStarted => true,
            _ => false,
        };
        if starting && !profile_ok(&graph.registry, &self.profile.perturbations) {
            let at = self.at;
            self.at =
            SimResult { state: SimState::Aborted, error: Some(SimulationError::ProfileInvalid), ..at };
            return ;
        }
        if self.at.ticks >= self.profile.max_ticks {
            let at = self.at;
            self.at =
            SimResult {
                state: SimState::Aborted,
                error: Some(SimulationError::BudgetExhausted),
                ..at
            };
            return ;
        }
        let ghost plan = graph.plan();
        let ghost before = graph.world();
        arm(&graph.nodes, &graph.registry, &mut graph.states, &self.profile.perturbations);
        proof {
            graph.lemma_parts();
            lemma_armed_settled(plan, before, self.profile.perturbations@);
            lemma_tick(plan, armed(plan, before, self.profile.perturbations@), plan.root());
        }
        let root = graph.nodes.len() - 1;
        let r = tick_node(&graph.nodes, &graph.registry, &mut graph.states, &mut graph.board, root);
        proof {
            graph.lemma_parts();
        }
        let state = match r {
            TickResult::Success => SimState::Succeeded,
            TickResult::Failure(_) => SimState::Failed,
            TickResult::Running => SimState::Running,
        };
        self.at = SimResult { state, ticks: self.at.ticks + 1, last: Some(r), error: None };
    }

    /// Runs the simulation to its end and returns the result.
    pub fn run(&mut self, graph: &mut Graph) -> (r: SimResult)
        requires
            old(graph).wf(),
        ensures
            final(graph).wf(),
            final(graph).plan() == old(graph).plan(),
            final(self).profile() == old(self).profile(),
            r == final(self).progress(),
            r.state.terminal(),
            (Advance { at: r, world: final(graph).world() }) == finished(
                old(graph).plan(),
                old(graph).world(),
                old(self).profile(),
                old(self).progress(),
            ),
    {
        let ghost plan = graph.plan();
        let ghost goal = finished(plan, graph.world(), self.profile(), self.progress());
        while !self.at.state.is_terminal()
            invariant
                graph.wf(),
                graph.plan() == plan,
                self.profile() == old(self).profile(),
                finished(plan, graph.world(), self.profile(), self.progress()) == goal,
            decreases steps_left(self.profile(), self.progress()),
        {
            self.step(graph);
        }
        self.at
    }
}

/// Runs a simulation of `graph` under `profile`, from its start to its end.
///
/// The run ends within the budget of ticks. It is `Aborted` exactly where
/// it ends with an error: `ProfileInvalid`, with no tick made, where the
/// profile is invalid, else `BudgetExhausted` where the tree is still
/// `Running` after the last tick of the budget.
pub fn run(graph: &mut Graph, profile: Profile) -> (r: SimResult)
    requires
        old(graph).wf(),
    ensures
        final(graph).wf(),
        final(graph).plan() == old(graph).plan(),
        (Advance { at: r, world: final(graph).world() }) == finished(
            old(graph).plan(),
            old(graph).world(),
            profile,
            SimResult::fresh(),
        ),
        r.state.terminal(),
        r.ticks <= profile.max_ticks,
        r.state is Aborted <==> r.error is Some,
        r.error == Some(SimulationError::ProfileInvalid) <==> !profile_valid(
            old(graph).plan().bindings,
            profile.perturbations@,
        ),
{
    proof {
        law_run_ends(graph.plan(), graph.world(), profile, SimResult::fresh());
    }
    let mut simulator = Simulator::new(profile);
    simulator.run(graph)
}

} // verus!
