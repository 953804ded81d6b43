use f_tree::leaf::{Implementation, Predicate, Routine};
use f_tree::registry::{list_builtin_actions, Registry, RegistryError};
use f_tree::status::RuntimeError;

#[test]
fn register_binds_a_new_name() {
    let mut registry = Registry::new();
    assert_eq!(registry.len(), 0);
    assert_eq!(registry.register("go", Implementation::Action(Routine::Succeed)), Ok(()));
    assert_eq!(registry.register("wait", Implementation::Action(Routine::Work(3))), Ok(()));
    assert_eq!(registry.len(), 2);
    assert_eq!(registry.resolve("go"), Ok(&Implementation::Action(Routine::Succeed)));
    assert_eq!(registry.resolve("wait"), Ok(&Implementation::Action(Routine::Work(3))));
    assert_eq!(registry.find("wait"), Some(1));
    assert_eq!(registry.binding(0).name, "go");
}

#[test]
fn register_refuses_a_bound_name() {
    let mut registry = Registry::new();
    assert_eq!(registry.register("go", Implementation::Action(Routine::Succeed)), Ok(()));
    assert_eq!(
        registry.register("go", Implementation::Condition(Predicate::Never)),
        Err(RegistryError::DuplicateName)
    );
    assert_eq!(registry.len(), 1);
    assert_eq!(registry.resolve("go"), Ok(&Implementation::Action(Routine::Succeed)));
}

#[test]
fn resolve_fails_on_an_unknown_name() {
    let mut registry = Registry::new();
    assert_eq!(registry.resolve("go"), Err(RuntimeError::RegistryUnknownAction));
    assert_eq!(registry.register("go", Implementation::Action(Routine::Succeed)), Ok(()));
    assert_eq!(registry.resolve("g"), Err(RuntimeError::RegistryUnknownAction));
    assert_eq!(registry.resolve("goo"), Err(RuntimeError::RegistryUnknownAction));
    assert_eq!(registry.find("stop"), None);
}

#[test]
fn standard_registry_holds_the_builtin_leaves() {
    let registry = Registry::standard();
    assert_eq!(registry.len(), 4);
    assert_eq!(registry.resolve("success"), Ok(&Implementation::Action(Routine::Succeed)));
    assert_eq!(registry.resolve("fail"), Ok(&Implementation::Action(Routine::Fail(0))));
    assert_eq!(registry.resolve("always"), Ok(&Implementation::Condition(Predicate::Always)));
    assert_eq!(registry.resolve("never"), Ok(&Implementation::Condition(Predicate::Never)));
    assert_eq!(registry.find("success"), Some(0));
    assert_eq!(registry.find("never"), Some(3));
}

#[test]
fn builtin_actions_are_listed_with_their_signatures() {
    let listing = list_builtin_actions();
    let expected = vec![
        ("success".to_string(), "action success()".to_string()),
        ("fail".to_string(), "action fail()".to_string()),
        ("always".to_string(), "condition always()".to_string()),
        ("never".to_string(), "condition never()".to_string()),
    ];
    assert_eq!(listing, expected);
    let registry = Registry::standard();
    for (place, (name, _)) in listing.iter().enumerate() {
        assert_eq!(registry.find(name.as_str()), Some(place));
    }
}

#[test]
fn standard_registry_takes_further_leaves() {
    let mut registry = Registry::standard();
    assert_eq!(
        registry.register("fail", Implementation::Action(Routine::Succeed)),
        Err(RegistryError::DuplicateName)
    );
    assert_eq!(registry.register("patrol", Implementation::Action(Routine::Work(2))), Ok(()));
    assert_eq!(registry.len(), 5);
}
