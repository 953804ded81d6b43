use f_tree::builder::build;
use f_tree::description::{Definition, Description, Shape, Wrapper};
use f_tree::graph::Graph;
use f_tree::leaf::{Implementation, Predicate, Routine};
use f_tree::registry::Registry;
use f_tree::simulator::{
    run, Effect, Perturbation, Profile, SimResult, SimState, SimulationError, Simulator,
};
use f_tree::status::{RuntimeError, TickResult};

fn sim_graph(body: Shape) -> Graph {
    let mut registry = Registry::new();
    assert_eq!(registry.register("ActionX", Implementation::Action(Routine::Succeed)), Ok(()));
    assert_eq!(registry.register("ActionY", Implementation::Action(Routine::Fail(1))), Ok(()));
    assert_eq!(registry.register("Slow", Implementation::Action(Routine::Work(3))), Ok(()));
    assert_eq!(registry.register("Check", Implementation::Condition(Predicate::Always)), Ok(()));
    let description = Description {
        definitions: vec![Definition { name: "main".to_string(), root: true, body }],
    };
    match build(&description, registry, None) {
        Ok(graph) => graph,
        Err(e) => panic!("{:?}", e),
    }
}

fn sim_call(name: &str) -> Shape {
    Shape::Call(name.to_string())
}

fn force(action: &str, invocation: u64, effect: Effect) -> Perturbation {
    Perturbation { action: action.to_string(), invocation, effect }
}

#[test]
fn forced_failure_is_retried_to_success() {
    let mut graph = sim_graph(Shape::Decorator(Wrapper::Retry(2), vec![sim_call("ActionX")]));
    let profile = Profile { perturbations: vec![force("ActionX", 1, Effect::Fail)], max_ticks: 10 };
    let result = run(&mut graph, profile);
    assert_eq!(
        result,
        SimResult {
            state: SimState::Succeeded,
            ticks: 2,
            last: Some(TickResult::Success),
            error: None
        }
    );
    assert_eq!(graph.invocations(0), 2);
}

#[test]
fn run_without_perturbation_follows_the_tree() {
    let mut graph = sim_graph(Shape::Sequence(vec![sim_call("Check"), sim_call("Slow")]));
    let result = run(&mut graph, Profile { perturbations: vec![], max_ticks: 10 });
    assert_eq!(result.state, SimState::Succeeded);
    assert_eq!(result.ticks, 4);
    assert_eq!(result.error, None);

    let mut graph = sim_graph(Shape::Sequence(vec![sim_call("Check"), sim_call("ActionY")]));
    let result = run(&mut graph, Profile { perturbations: vec![], max_ticks: 10 });
    assert_eq!(result.state, SimState::Failed);
    assert_eq!(result.ticks, 1);
    assert_eq!(
        result.last,
        Some(TickResult::Failure(Some(RuntimeError::ActionExecutionFailure(1))))
    );
}

#[test]
fn run_is_aborted_when_the_budget_is_used_up() {
    let mut graph = sim_graph(sim_call("Slow"));
    let result = run(&mut graph, Profile { perturbations: vec![], max_ticks: 3 });
    assert_eq!(
        result,
        SimResult {
            state: SimState::Aborted,
            ticks: 3,
            last: Some(TickResult::Running),
            error: Some(SimulationError::BudgetExhausted)
        }
    );
    assert!(graph.is_running(0));

    let mut graph = sim_graph(sim_call("ActionX"));
    let result = run(&mut graph, Profile { perturbations: vec![], max_ticks: 0 });
    assert_eq!(
        result,
        SimResult {
            state: SimState::Aborted,
            ticks: 0,
            last: None,
            error: Some(SimulationError::BudgetExhausted)
        }
    );
    assert_eq!(graph.invocations(0), 0);
}

#[test]
fn run_uses_the_last_tick_of_the_budget() {
    let mut graph = sim_graph(sim_call("Slow"));
    let result = run(&mut graph, Profile { perturbations: vec![], max_ticks: 4 });
    assert_eq!(result.state, SimState::Succeeded);
    assert_eq!(result.ticks, 4);
}

#[test]
fn invalid_profile_aborts_before_the_first_tick() {
    let invalid = vec![
        force("Nobody", 1, Effect::Fail),
        force("ActionX", 0, Effect::Fail),
        force("Check", 1, Effect::Delay),
    ];
    for perturbation in invalid {
        let mut graph = sim_graph(Shape::Sequence(vec![sim_call("Check"), sim_call("ActionX")]));
        let result = run(&mut graph, Profile { perturbations: vec![perturbation], max_ticks: 5 });
        assert_eq!(
            result,
            SimResult {
                state: SimState::Aborted,
                ticks: 0,
                last: None,
                error: Some(SimulationError::ProfileInvalid)
            }
        );
        assert_eq!(graph.invocations(0), 0);
    }
}

#[test]
fn forced_success_replaces_the_implementation() {
    let mut graph = sim_graph(Shape::Sequence(vec![sim_call("ActionY"), sim_call("Check")]));
    let profile =
        Profile { perturbations: vec![force("ActionY", 1, Effect::Succeed)], max_ticks: 5 };
    let result = run(&mut graph, profile);
    assert_eq!(result.state, SimState::Succeeded);
    assert_eq!(result.ticks, 1);
    assert_eq!(graph.invocations(0), 1);
}

#[test]
fn forced_failure_of_a_condition_lets_a_fallback_go_on() {
    let mut graph = sim_graph(Shape::Fallback(vec![sim_call("Check"), sim_call("ActionX")]));
    let profile = Profile { perturbations: vec![force("Check", 1, Effect::Fail)], max_ticks: 5 };
    let result = run(&mut graph, profile);
    assert_eq!(result.state, SimState::Succeeded);
    assert_eq!(graph.invocations(0), 1);
    assert_eq!(graph.invocations(1), 1);
}

#[test]
fn delay_holds_a_leaf_up_for_a_tick() {
    let mut graph = sim_graph(sim_call("ActionX"));
    let profile = Profile {
        perturbations: vec![force("ActionX", 1, Effect::Delay), force("ActionX", 2, Effect::Delay)],
        max_ticks: 5,
    };
    let result = run(&mut graph, profile);
    assert_eq!(result.state, SimState::Succeeded);
    assert_eq!(result.ticks, 3);
    assert_eq!(graph.invocations(0), 3);

    let mut graph = sim_graph(sim_call("Slow"));
    let profile = Profile { perturbations: vec![force("Slow", 2, Effect::Delay)], max_ticks: 9 };
    let result = run(&mut graph, profile);
    assert_eq!(result.state, SimState::Succeeded);
    assert_eq!(result.ticks, 5);
}

#[test]
fn first_matching_perturbation_wins() {
    let mut graph = sim_graph(sim_call("ActionX"));
    let profile = Profile {
        perturbations: vec![force("ActionX", 1, Effect::Fail), force("ActionX", 1, Effect::Succeed)],
        max_ticks: 5,
    };
    let result = run(&mut graph, profile);
    assert_eq!(result.state, SimState::Failed);
    assert_eq!(result.last, Some(TickResult::Failure(None)));
}

#[test]
fn simulator_steps_through_its_states() {
    let mut graph = sim_graph(sim_call("Slow"));
    let mut simulator = Simulator::new(Profile { perturbations: vec![], max_ticks: 2 });
    assert_eq!(simulator.result().state, SimState::NotStarted);
    assert!(!simulator.result().state.is_terminal());
    simulator.step(&mut graph);
    assert_eq!(simulator.result().state, SimState::Running);
    assert_eq!(simulator.result().ticks, 1);
    simulator.step(&mut graph);
    assert_eq!(simulator.result().state, SimState::Running);
    assert_eq!(simulator.result().ticks, 2);
    simulator.step(&mut graph);
    assert_eq!(simulator.result().state, SimState::Aborted);
    assert_eq!(simulator.result().ticks, 2);
    assert_eq!(simulator.result().error, Some(SimulationError::BudgetExhausted));
    assert!(simulator.result().state.is_terminal());
    let ended = simulator.result();
    simulator.step(&mut graph);
    assert_eq!(simulator.result(), ended);
    assert_eq!(simulator.run(&mut graph), ended);
    assert_eq!(graph.invocations(0), 2);
}

#[test]
fn effects_force_their_reports() {
    assert_eq!(Effect::Succeed.forced(), TickResult::Success);
    assert_eq!(Effect::Fail.forced(), TickResult::Failure(None));
    assert_eq!(Effect::Delay.forced(), TickResult::Running);
}
