use f_tree::blackboard::Value;
use f_tree::builder::build;
use f_tree::description::{Definition, Description, Shape, Wrapper};
use f_tree::graph::{Graph, NodeKind};
use f_tree::leaf::{Implementation, Predicate, Routine};
use f_tree::registry::Registry;
use f_tree::status::{RuntimeError, TickResult};

fn engine_registry() -> Registry {
    let mut registry = Registry::new();
    let bindings = vec![
        ("ConditionTrue", Implementation::Condition(Predicate::Always)),
        ("ConditionFalse", Implementation::Condition(Predicate::Never)),
        ("ActionAlwaysSuccess", Implementation::Action(Routine::Succeed)),
        ("ActionOther", Implementation::Action(Routine::Succeed)),
        ("ActionAlwaysFailure", Implementation::Action(Routine::Fail(7))),
        ("ActionRunningThenSuccess", Implementation::Action(Routine::Work(1))),
        ("ActionLong", Implementation::Action(Routine::Work(5))),
        ("DoorOpen", Implementation::Condition(Predicate::Holds("door_open".to_string()))),
        (
            "ModeIsAuto",
            Implementation::Condition(Predicate::Equals(
                "mode".to_string(),
                Value::Text("auto".to_string()),
            )),
        ),
        (
            "SetModeAuto",
            Implementation::Action(Routine::Store(
                "mode".to_string(),
                Value::Text("auto".to_string()),
            )),
        ),
        (
            "SetModeNumber",
            Implementation::Action(Routine::Store("mode".to_string(), Value::Number(3))),
        ),
        ("AwaitArrival", Implementation::Action(Routine::Poll("arrived".to_string()))),
        ("KeepGoing", Implementation::Condition(Predicate::Holds("keep_going".to_string()))),
    ];
    for (name, implementation) in bindings {
        assert_eq!(registry.register(name, implementation), Ok(()));
    }
    registry
}

fn engine_graph(body: Shape) -> Graph {
    let description = Description {
        definitions: vec![Definition { name: "main".to_string(), root: true, body }],
    };
    match build(&description, engine_registry(), None) {
        Ok(graph) => graph,
        Err(e) => panic!("the tree does not build: {:?}", e),
    }
}

fn call(name: &str) -> Shape {
    Shape::Call(name.to_string())
}

fn nobody_runs(graph: &Graph) -> bool {
    (0..graph.len()).all(|id| {
        let state = graph.state(id);
        !state.active && state.cursor == 0 && state.count == 0
    })
}

#[test]
fn sequence_of_condition_and_action_succeeds_in_one_tick() {
    let mut graph =
        engine_graph(Shape::Sequence(vec![call("ConditionTrue"), call("ActionAlwaysSuccess")]));
    assert_eq!(graph.tick(), TickResult::Success);
    assert_eq!(graph.invocations(0), 1);
    assert_eq!(graph.invocations(1), 1);
    assert!(nobody_runs(&graph));
}

#[test]
fn sequence_with_running_action_takes_two_ticks() {
    let mut graph = engine_graph(Shape::Sequence(vec![
        call("ConditionTrue"),
        call("ActionRunningThenSuccess"),
    ]));
    assert_eq!(graph.tick(), TickResult::Running);
    assert!(graph.is_running(2));
    assert!(graph.is_running(1));
    assert_eq!(graph.state(2).cursor, 1);
    assert_eq!(graph.tick(), TickResult::Success);
    assert_eq!(graph.invocations(1), 2);
    assert_eq!(graph.invocations(0), 1);
    assert!(nobody_runs(&graph));
}

#[test]
fn sequence_stops_at_the_first_failure() {
    let mut graph = engine_graph(Shape::Sequence(vec![
        call("ActionAlwaysSuccess"),
        call("ActionAlwaysFailure"),
        call("ActionOther"),
    ]));
    assert_eq!(
        graph.tick(),
        TickResult::Failure(Some(RuntimeError::ActionExecutionFailure(7)))
    );
    assert_eq!(graph.invocations(0), 1);
    assert_eq!(graph.invocations(1), 1);
    assert_eq!(graph.invocations(2), 0);
    assert!(nobody_runs(&graph));
}

#[test]
fn fallback_takes_the_first_success() {
    let mut graph = engine_graph(Shape::Fallback(vec![
        call("ActionAlwaysFailure"),
        call("ConditionFalse"),
        call("ActionAlwaysSuccess"),
        call("ActionOther"),
    ]));
    assert_eq!(graph.tick(), TickResult::Success);
    assert_eq!(graph.invocations(0), 1);
    assert_eq!(graph.invocations(1), 1);
    assert_eq!(graph.invocations(2), 1);
    assert_eq!(graph.invocations(3), 0);
    assert!(nobody_runs(&graph));
}

#[test]
fn fallback_fails_as_its_last_child() {
    let mut graph =
        engine_graph(Shape::Fallback(vec![call("ConditionFalse"), call("ActionAlwaysFailure")]));
    assert_eq!(
        graph.tick(),
        TickResult::Failure(Some(RuntimeError::ActionExecutionFailure(7)))
    );
    let mut graph =
        engine_graph(Shape::Fallback(vec![call("ActionAlwaysFailure"), call("ConditionFalse")]));
    assert_eq!(graph.tick(), TickResult::Failure(None));
}

#[test]
fn fallback_resumes_at_the_running_child() {
    let mut graph = engine_graph(Shape::Fallback(vec![
        call("ActionAlwaysFailure"),
        call("ActionRunningThenSuccess"),
        call("ActionOther"),
    ]));
    assert_eq!(graph.tick(), TickResult::Running);
    assert_eq!(graph.state(3).cursor, 1);
    assert_eq!(graph.tick(), TickResult::Success);
    assert_eq!(graph.invocations(0), 1);
    assert_eq!(graph.invocations(1), 2);
    assert_eq!(graph.invocations(2), 0);
}

#[test]
fn terminal_tree_gives_the_same_result_again() {
    let mut graph = engine_graph(Shape::Sequence(vec![
        call("ConditionTrue"),
        Shape::Fallback(vec![call("ConditionFalse"), call("ActionAlwaysSuccess")]),
    ]));
    let first = graph.tick();
    let second = graph.tick();
    assert_eq!(first, TickResult::Success);
    assert_eq!(second, first);
    assert_eq!(graph.invocations(0), 2);

    let mut failing =
        engine_graph(Shape::Sequence(vec![call("ConditionTrue"), call("ActionAlwaysFailure")]));
    let first = failing.tick();
    assert_eq!(failing.tick(), first);
}

#[test]
fn nested_sequence_resumes_deep_inside() {
    let mut graph = engine_graph(Shape::Sequence(vec![
        call("ActionAlwaysSuccess"),
        Shape::Sequence(vec![call("ActionOther"), call("ActionLong")]),
        call("ConditionTrue"),
    ]));
    for _ in 0..5 {
        assert_eq!(graph.tick(), TickResult::Running);
    }
    assert_eq!(graph.tick(), TickResult::Success);
    assert_eq!(graph.invocations(0), 1);
    assert_eq!(graph.invocations(1), 1);
    assert_eq!(graph.invocations(2), 6);
    assert_eq!(graph.invocations(4), 1);
    assert!(nobody_runs(&graph));
}

#[test]
fn parallel_counts_the_reports_of_one_tick() {
    let body = |succeed: usize, fail: usize| {
        Shape::Parallel(
            succeed,
            fail,
            vec![
                call("ActionAlwaysSuccess"),
                call("ActionAlwaysFailure"),
                call("ActionRunningThenSuccess"),
            ],
        )
    };
    let mut graph = engine_graph(body(1, 1));
    assert_eq!(graph.tick(), TickResult::Success);
    assert!(nobody_runs(&graph));
    assert_eq!(graph.invocations(2), 1);

    let mut graph = engine_graph(body(2, 1));
    assert_eq!(graph.tick(), TickResult::Failure(None));
    assert!(nobody_runs(&graph));

    let mut graph = engine_graph(body(2, 2));
    assert_eq!(graph.tick(), TickResult::Running);
    assert!(graph.is_running(3));
    assert!(graph.is_running(2));
    assert_eq!(graph.tick(), TickResult::Success);
    assert_eq!(graph.invocations(0), 2);
    assert_eq!(graph.invocations(1), 2);
    assert_eq!(graph.invocations(2), 2);
    assert!(nobody_runs(&graph));
}

#[test]
fn invert_swaps_success_and_failure() {
    let mut graph =
        engine_graph(Shape::Decorator(Wrapper::Invert, vec![call("ActionAlwaysSuccess")]));
    assert_eq!(graph.tick(), TickResult::Failure(None));
    let mut graph =
        engine_graph(Shape::Decorator(Wrapper::Invert, vec![call("ActionAlwaysFailure")]));
    assert_eq!(graph.tick(), TickResult::Success);
    let mut graph =
        engine_graph(Shape::Decorator(Wrapper::Invert, vec![call("ActionRunningThenSuccess")]));
    assert_eq!(graph.tick(), TickResult::Running);
    assert_eq!(graph.tick(), TickResult::Failure(None));
}

#[test]
fn retry_ticks_a_failed_child_again() {
    let mut graph =
        engine_graph(Shape::Decorator(Wrapper::Retry(2), vec![call("ActionAlwaysFailure")]));
    assert_eq!(graph.tick(), TickResult::Running);
    assert_eq!(graph.state(1).count, 1);
    assert_eq!(graph.tick(), TickResult::Running);
    assert_eq!(
        graph.tick(),
        TickResult::Failure(Some(RuntimeError::ActionExecutionFailure(7)))
    );
    assert_eq!(graph.invocations(0), 3);
    assert!(nobody_runs(&graph));

    let mut graph =
        engine_graph(Shape::Decorator(Wrapper::Retry(0), vec![call("ActionAlwaysFailure")]));
    assert_eq!(
        graph.tick(),
        TickResult::Failure(Some(RuntimeError::ActionExecutionFailure(7)))
    );
}

#[test]
fn retry_succeeds_once_the_child_does() {
    let mut graph = engine_graph(Shape::Decorator(
        Wrapper::Retry(3),
        vec![Shape::Sequence(vec![call("DoorOpen"), call("ActionAlwaysSuccess")])],
    ));
    assert_eq!(graph.tick(), TickResult::Running);
    assert_eq!(graph.tick(), TickResult::Running);
    assert_eq!(graph.set("door_open", Value::Boolean(true)), Ok(()));
    assert_eq!(graph.tick(), TickResult::Success);
    assert_eq!(graph.state(3).count, 0);
    assert_eq!(graph.invocations(0), 3);
    assert_eq!(graph.invocations(1), 1);
}

#[test]
fn timeout_fails_a_child_that_runs_too_long() {
    let mut graph = engine_graph(Shape::Decorator(Wrapper::Timeout(2), vec![call("ActionLong")]));
    assert_eq!(graph.tick(), TickResult::Running);
    assert_eq!(graph.tick(), TickResult::Running);
    assert_eq!(graph.state(0).count, 2);
    assert_eq!(graph.tick(), TickResult::Failure(None));
    assert!(nobody_runs(&graph));
    assert_eq!(graph.invocations(0), 3);

    let mut graph =
        engine_graph(Shape::Decorator(Wrapper::Timeout(2), vec![call("ActionRunningThenSuccess")]));
    assert_eq!(graph.tick(), TickResult::Running);
    assert_eq!(graph.tick(), TickResult::Success);

    let mut graph =
        engine_graph(Shape::Decorator(Wrapper::Timeout(0), vec![call("ActionRunningThenSuccess")]));
    assert_eq!(graph.tick(), TickResult::Failure(None));
}

#[test]
fn repeat_while_ticks_again_while_the_condition_holds() {
    let mut graph = engine_graph(Shape::Decorator(
        Wrapper::RepeatWhile("KeepGoing".to_string()),
        vec![call("ActionAlwaysSuccess")],
    ));
    assert_eq!(graph.set("keep_going", Value::Boolean(true)), Ok(()));
    assert_eq!(graph.tick(), TickResult::Running);
    assert_eq!(graph.tick(), TickResult::Running);
    assert_eq!(graph.set("keep_going", Value::Boolean(false)), Ok(()));
    assert_eq!(graph.tick(), TickResult::Success);
    assert_eq!(graph.invocations(0), 3);

    let mut graph = engine_graph(Shape::Decorator(
        Wrapper::RepeatWhile("KeepGoing".to_string()),
        vec![call("ActionAlwaysFailure")],
    ));
    assert_eq!(
        graph.tick(),
        TickResult::Failure(Some(RuntimeError::ActionExecutionFailure(7)))
    );
}

#[test]
fn condition_reads_the_blackboard() {
    let mut graph = engine_graph(call("DoorOpen"));
    assert_eq!(graph.tick(), TickResult::Failure(Some(RuntimeError::BlackboardNotFound)));
    assert_eq!(graph.set("door_open", Value::Number(1)), Ok(()));
    assert_eq!(graph.tick(), TickResult::Failure(Some(RuntimeError::BlackboardTypeMismatch)));

    let mut graph = engine_graph(call("DoorOpen"));
    assert_eq!(graph.set("door_open", Value::Boolean(false)), Ok(()));
    assert_eq!(graph.tick(), TickResult::Failure(None));
    assert_eq!(graph.set("door_open", Value::Boolean(true)), Ok(()));
    assert_eq!(graph.tick(), TickResult::Success);
}

#[test]
fn action_writes_are_seen_by_later_nodes_of_the_tick() {
    let mut graph = engine_graph(Shape::Sequence(vec![
        Shape::Decorator(Wrapper::Invert, vec![call("ModeIsAuto")]),
        call("SetModeAuto"),
        call("ModeIsAuto"),
    ]));
    assert_eq!(graph.tick(), TickResult::Success);
    assert_eq!(graph.get("mode"), Ok(&Value::Text("auto".to_string())));
    assert_eq!(graph.tick(), TickResult::Failure(None));
}

#[test]
fn store_of_another_kind_fails_the_leaf() {
    let mut graph = engine_graph(Shape::Fallback(vec![
        Shape::Sequence(vec![call("SetModeAuto"), call("SetModeNumber")]),
        call("ActionAlwaysSuccess"),
    ]));
    assert_eq!(graph.tick(), TickResult::Success);
    assert_eq!(graph.get("mode"), Ok(&Value::Text("auto".to_string())));
    assert_eq!(graph.invocations(3), 1);

    let mut graph = engine_graph(call("SetModeNumber"));
    assert_eq!(graph.set("mode", Value::Boolean(true)), Ok(()));
    assert_eq!(graph.tick(), TickResult::Failure(Some(RuntimeError::BlackboardTypeMismatch)));
}

#[test]
fn poll_runs_until_the_outcome_is_posted() {
    let mut graph = engine_graph(call("AwaitArrival"));
    assert_eq!(graph.tick(), TickResult::Running);
    assert_eq!(graph.tick(), TickResult::Running);
    assert_eq!(graph.set("arrived", Value::Boolean(true)), Ok(()));
    assert_eq!(graph.tick(), TickResult::Success);
    assert!(!graph.is_running(0));

    let mut graph = engine_graph(call("AwaitArrival"));
    assert_eq!(graph.set("arrived", Value::Boolean(false)), Ok(()));
    assert_eq!(graph.tick(), TickResult::Failure(None));

    let mut graph = engine_graph(call("AwaitArrival"));
    assert_eq!(graph.set("arrived", Value::Text("yes".to_string())), Ok(()));
    assert_eq!(graph.tick(), TickResult::Failure(Some(RuntimeError::BlackboardTypeMismatch)));
}

#[test]
fn reset_clears_the_running_state() {
    let mut graph = engine_graph(Shape::Sequence(vec![
        call("ActionAlwaysSuccess"),
        call("ActionLong"),
    ]));
    assert_eq!(graph.tick(), TickResult::Running);
    assert_eq!(graph.tick(), TickResult::Running);
    assert_eq!(graph.state(1).count, 2);
    graph.reset();
    assert!(nobody_runs(&graph));
    assert_eq!(graph.invocations(1), 2);
    assert_eq!(graph.tick(), TickResult::Running);
    assert_eq!(graph.invocations(0), 2);
    assert_eq!(graph.state(1).count, 1);
}

#[test]
fn graph_can_be_walked_read_only() {
    let graph = engine_graph(Shape::Sequence(vec![
        call("ConditionTrue"),
        Shape::Decorator(Wrapper::Retry(2), vec![call("ActionAlwaysSuccess")]),
    ]));
    assert_eq!(graph.len(), 4);
    assert_eq!(graph.root(), 3);
    assert_eq!(graph.kind(3), NodeKind::Sequence);
    assert_eq!(graph.children(3), &vec![0, 2]);
    assert_eq!(graph.children(2), &vec![1]);
    assert_eq!(graph.first(2), 1);
    assert_eq!(graph.first(3), 0);
    assert_eq!(graph.name(0), Some(&"ConditionTrue".to_string()));
    assert_eq!(graph.name(1), Some(&"ActionAlwaysSuccess".to_string()));
    assert_eq!(graph.name(3), None);
    assert!(!graph.is_running(3));
    assert_eq!(graph.board().len(), 0);
    assert_eq!(graph.registry().len(), 13);
}

#[test]
fn tick_results_tell_their_kind() {
    assert!(TickResult::Success.is_terminal());
    assert!(TickResult::Failure(None).is_terminal());
    assert!(!TickResult::Running.is_terminal());
    assert!(TickResult::Success.is_success());
    assert!(!TickResult::Running.is_success());
    assert!(TickResult::Running.is_running());
    assert!(TickResult::Failure(Some(RuntimeError::BlackboardNotFound)).is_failure());
    assert!(!TickResult::Success.is_failure());
}
