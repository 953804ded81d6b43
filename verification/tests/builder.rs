use f_tree::builder::build;
use f_tree::description::{BuildError, Definition, Description, Shape, Wrapper};
use f_tree::graph::{Decorator, NodeKind};
use f_tree::leaf::{Implementation, Predicate, Routine};
use f_tree::registry::Registry;
use f_tree::status::TickResult;

fn builder_registry() -> Registry {
    let mut registry = Registry::new();
    assert_eq!(registry.register("check", Implementation::Condition(Predicate::Always)), Ok(()));
    assert_eq!(registry.register("act", Implementation::Action(Routine::Succeed)), Ok(()));
    assert_eq!(registry.register("work", Implementation::Action(Routine::Work(1))), Ok(()));
    registry
}

fn leaf(name: &str) -> Shape {
    Shape::Call(name.to_string())
}

fn tree(name: &str, root: bool, body: Shape) -> Definition {
    Definition { name: name.to_string(), root, body }
}

fn error_of(definitions: Vec<Definition>, root: Option<&str>) -> Option<BuildError> {
    build(&Description { definitions }, builder_registry(), root).err()
}

#[test]
fn build_rejects_a_decorator_with_two_children() {
    let body = Shape::Decorator(Wrapper::Invert, vec![leaf("act"), leaf("check")]);
    assert_eq!(error_of(vec![tree("main", true, body)], None), Some(BuildError::ArityMismatch));
}

#[test]
fn build_rejects_a_decorator_without_child() {
    let body = Shape::Decorator(Wrapper::Retry(1), vec![]);
    assert_eq!(error_of(vec![tree("main", true, body)], None), Some(BuildError::ArityMismatch));
}

#[test]
fn build_rejects_a_composite_without_children() {
    assert_eq!(
        error_of(vec![tree("main", true, Shape::Sequence(vec![]))], None),
        Some(BuildError::ArityMismatch)
    );
    assert_eq!(
        error_of(vec![tree("main", true, Shape::Fallback(vec![]))], None),
        Some(BuildError::ArityMismatch)
    );
    assert_eq!(
        error_of(vec![tree("main", true, Shape::Parallel(1, 1, vec![]))], None),
        Some(BuildError::ArityMismatch)
    );
}

#[test]
fn build_rejects_an_unregistered_action() {
    let body = Shape::Sequence(vec![leaf("check"), leaf("fly")]);
    assert_eq!(error_of(vec![tree("main", true, body)], None), Some(BuildError::UnknownAction));
}

#[test]
fn build_rejects_a_repeat_over_no_condition() {
    let unknown = Shape::Decorator(Wrapper::RepeatWhile("fly".to_string()), vec![leaf("act")]);
    assert_eq!(error_of(vec![tree("main", true, unknown)], None), Some(BuildError::UnknownAction));
    let action = Shape::Decorator(Wrapper::RepeatWhile("act".to_string()), vec![leaf("act")]);
    assert_eq!(error_of(vec![tree("main", true, action)], None), Some(BuildError::UnknownAction));
}

#[test]
fn build_reports_the_first_fault_of_the_walk() {
    let body = Shape::Sequence(vec![
        leaf("fly"),
        Shape::Decorator(Wrapper::Invert, vec![leaf("act"), leaf("act")]),
    ]);
    assert_eq!(error_of(vec![tree("main", true, body)], None), Some(BuildError::UnknownAction));
    let body = Shape::Sequence(vec![
        Shape::Decorator(Wrapper::Invert, vec![leaf("act"), leaf("act")]),
        leaf("fly"),
    ]);
    assert_eq!(error_of(vec![tree("main", true, body)], None), Some(BuildError::ArityMismatch));
    let body = Shape::Decorator(Wrapper::RepeatWhile("fly".to_string()), vec![]);
    assert_eq!(error_of(vec![tree("main", true, body)], None), Some(BuildError::ArityMismatch));
}

#[test]
fn build_needs_one_root_or_a_name() {
    let two = || vec![tree("a", true, leaf("act")), tree("b", true, leaf("check"))];
    assert_eq!(error_of(two(), None), Some(BuildError::AmbiguousRoot));
    assert_eq!(error_of(two(), Some("c")), Some(BuildError::AmbiguousRoot));
    assert_eq!(error_of(vec![], None), Some(BuildError::AmbiguousRoot));
    assert_eq!(
        error_of(vec![tree("a", false, leaf("act"))], None),
        Some(BuildError::AmbiguousRoot)
    );
    assert_eq!(
        error_of(vec![tree("a", false, leaf("act")), tree("b", true, leaf("act"))], Some("a")),
        Some(BuildError::AmbiguousRoot)
    );
    let graph = build(&Description { definitions: two() }, builder_registry(), Some("b"));
    match graph {
        Ok(graph) => assert_eq!(graph.kind(0), NodeKind::Condition(0)),
        Err(e) => panic!("{:?}", e),
    }
    let graph = build(
        &Description {
            definitions: vec![tree("a", false, leaf("act")), tree("b", true, leaf("check"))],
        },
        builder_registry(),
        None,
    );
    match graph {
        Ok(graph) => assert_eq!(graph.kind(0), NodeKind::Condition(0)),
        Err(e) => panic!("{:?}", e),
    }
}

#[test]
fn build_rejects_two_trees_of_one_name() {
    let twice = vec![tree("a", true, leaf("act")), tree("a", false, leaf("check"))];
    assert_eq!(error_of(twice, Some("a")), Some(BuildError::DuplicateRoot));
    let twice = vec![
        tree("main", true, leaf("act")),
        tree("a", false, leaf("fly")),
        tree("a", false, leaf("check")),
    ];
    assert_eq!(error_of(twice, None), Some(BuildError::DuplicateRoot));
}

#[test]
fn build_rejects_a_tree_that_includes_itself() {
    let direct = vec![tree("main", true, Shape::Sequence(vec![leaf("act"), leaf("main")]))];
    assert_eq!(error_of(direct, None), Some(BuildError::CyclicReference));
    let through = vec![
        tree("main", true, Shape::Sequence(vec![leaf("act"), leaf("left")])),
        tree("left", false, Shape::Fallback(vec![leaf("right"), leaf("act")])),
        tree("right", false, Shape::Decorator(Wrapper::Invert, vec![leaf("left")])),
    ];
    assert_eq!(error_of(through, None), Some(BuildError::CyclicReference));
}

#[test]
fn build_includes_a_tree_wherever_it_is_called() {
    let definitions = vec![
        tree("main", true, Shape::Sequence(vec![leaf("pair"), leaf("check"), leaf("pair")])),
        tree("pair", false, Shape::Fallback(vec![leaf("work"), leaf("act")])),
    ];
    let mut graph = match build(&Description { definitions }, builder_registry(), None) {
        Ok(graph) => graph,
        Err(e) => panic!("{:?}", e),
    };
    assert_eq!(graph.len(), 8);
    assert_eq!(graph.root(), 7);
    assert_eq!(graph.kind(7), NodeKind::Sequence);
    assert_eq!(graph.children(7), &vec![2, 3, 6]);
    assert_eq!(graph.first(7), 0);
    assert_eq!(graph.kind(2), NodeKind::Fallback);
    assert_eq!(graph.children(2), &vec![0, 1]);
    assert_eq!(graph.first(2), 0);
    assert_eq!(graph.kind(0), NodeKind::Action(2));
    assert_eq!(graph.kind(1), NodeKind::Action(1));
    assert_eq!(graph.children(0), &Vec::<usize>::new());
    assert_eq!(graph.first(1), 1);
    assert_eq!(graph.kind(3), NodeKind::Condition(0));
    assert_eq!(graph.kind(6), NodeKind::Fallback);
    assert_eq!(graph.children(6), &vec![4, 5]);
    assert_eq!(graph.first(6), 4);
    for id in 0..8 {
        let state = graph.state(id);
        assert!(!state.active);
        assert_eq!(state.invocations, 0);
        assert_eq!(state.forced, None);
    }
    assert_eq!(graph.tick(), TickResult::Running);
    assert_eq!(graph.tick(), TickResult::Running);
    assert_eq!(graph.tick(), TickResult::Success);
    assert_eq!(graph.invocations(0), 2);
    assert_eq!(graph.invocations(4), 2);
    assert_eq!(graph.invocations(1), 0);
}

#[test]
fn build_lays_out_decorators_and_parallels() {
    let body = Shape::Parallel(
        2,
        1,
        vec![
            Shape::Decorator(Wrapper::Timeout(4), vec![leaf("work")]),
            Shape::Decorator(Wrapper::RepeatWhile("check".to_string()), vec![leaf("act")]),
            Shape::Decorator(Wrapper::Retry(9), vec![leaf("act")]),
            Shape::Decorator(Wrapper::Invert, vec![leaf("check")]),
        ],
    );
    let graph = match build(
        &Description { definitions: vec![tree("main", true, body)] },
        builder_registry(),
        Some("main"),
    ) {
        Ok(graph) => graph,
        Err(e) => panic!("{:?}", e),
    };
    assert_eq!(graph.len(), 9);
    assert_eq!(graph.kind(8), NodeKind::Parallel { succeed: 2, fail: 1 });
    assert_eq!(graph.children(8), &vec![1, 3, 5, 7]);
    assert_eq!(graph.kind(1), NodeKind::Decorator(Decorator::Timeout(4)));
    assert_eq!(graph.kind(3), NodeKind::Decorator(Decorator::RepeatWhile(0)));
    assert_eq!(graph.kind(5), NodeKind::Decorator(Decorator::Retry(9)));
    assert_eq!(graph.kind(7), NodeKind::Decorator(Decorator::Invert));
    assert_eq!(graph.children(3), &vec![2]);
    assert_eq!(graph.first(3), 2);
}
