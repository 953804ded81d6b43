use f_tree::blackboard::{Blackboard, Kind, Value};
use f_tree::leaf::{Predicate, Routine};
use f_tree::status::{RuntimeError, TickResult};

#[test]
fn empty_blackboard_holds_nothing() {
    let board = Blackboard::new();
    assert_eq!(board.len(), 0);
    assert!(!board.contains("speed"));
    assert_eq!(board.get("speed"), Err(RuntimeError::BlackboardNotFound));
    assert_eq!(board.get_number("speed"), Err(RuntimeError::BlackboardNotFound));
    assert_eq!(board.get_boolean("speed"), Err(RuntimeError::BlackboardNotFound));
    assert_eq!(board.get_text("speed"), Err(RuntimeError::BlackboardNotFound));
}

#[test]
fn set_initializes_and_overwrites() {
    let mut board = Blackboard::new();
    assert_eq!(board.set("speed", Value::Number(3)), Ok(()));
    assert_eq!(board.get("speed"), Ok(&Value::Number(3)));
    assert_eq!(board.set("speed", Value::Number(-8)), Ok(()));
    assert_eq!(board.get_number("speed"), Ok(-8));
    assert_eq!(board.len(), 1);
    assert_eq!(board.set("name", Value::Text("r2".to_string())), Ok(()));
    assert_eq!(board.set("ready", Value::Boolean(true)), Ok(()));
    assert_eq!(board.set("blob", Value::Opaque(vec![1, 2, 3])), Ok(()));
    assert_eq!(board.len(), 4);
    assert!(board.contains("name"));
    assert_eq!(board.get_text("name"), Ok(&"r2".to_string()));
    assert_eq!(board.get_boolean("ready"), Ok(true));
    assert_eq!(board.get("blob"), Ok(&Value::Opaque(vec![1, 2, 3])));
    assert_eq!(board.get_number("speed"), Ok(-8));
}

#[test]
fn kind_of_a_key_is_fixed_at_first_write() {
    let mut board = Blackboard::new();
    assert_eq!(board.set("speed", Value::Number(3)), Ok(()));
    assert_eq!(
        board.set("speed", Value::Text("fast".to_string())),
        Err(RuntimeError::BlackboardTypeMismatch)
    );
    assert_eq!(board.set("speed", Value::Boolean(true)), Err(RuntimeError::BlackboardTypeMismatch));
    assert_eq!(board.get("speed"), Ok(&Value::Number(3)));
    assert_eq!(board.len(), 1);
}

#[test]
fn typed_reads_refuse_another_kind() {
    let mut board = Blackboard::new();
    assert_eq!(board.set("speed", Value::Number(3)), Ok(()));
    assert_eq!(board.set("name", Value::Text("r2".to_string())), Ok(()));
    assert_eq!(board.get_boolean("speed"), Err(RuntimeError::BlackboardTypeMismatch));
    assert_eq!(board.get_text("speed"), Err(RuntimeError::BlackboardTypeMismatch));
    assert_eq!(board.get_number("name"), Err(RuntimeError::BlackboardTypeMismatch));
}

#[test]
fn keys_are_told_apart_exactly() {
    let mut board = Blackboard::new();
    assert_eq!(board.set("a", Value::Number(1)), Ok(()));
    assert_eq!(board.set("ab", Value::Number(2)), Ok(()));
    assert_eq!(board.set("", Value::Number(0)), Ok(()));
    assert_eq!(board.get_number("a"), Ok(1));
    assert_eq!(board.get_number("ab"), Ok(2));
    assert_eq!(board.get_number(""), Ok(0));
    assert!(!board.contains("b"));
}

#[test]
fn values_know_their_kind_and_compare() {
    assert_eq!(Value::Number(1).kind(), Kind::Number);
    assert_eq!(Value::Boolean(false).kind(), Kind::Boolean);
    assert_eq!(Value::Text(String::new()).kind(), Kind::Text);
    assert_eq!(Value::Opaque(vec![]).kind(), Kind::Opaque);
    assert!(Value::Number(4).same(&Value::Number(4)));
    assert!(!Value::Number(4).same(&Value::Number(5)));
    assert!(!Value::Number(1).same(&Value::Boolean(true)));
    assert!(Value::Text("x".to_string()).same(&Value::Text("x".to_string())));
    assert!(!Value::Text("x".to_string()).same(&Value::Text("y".to_string())));
    assert!(Value::Opaque(vec![1, 2]).same(&Value::Opaque(vec![1, 2])));
    assert!(!Value::Opaque(vec![1, 2]).same(&Value::Opaque(vec![1, 3])));
    assert!(!Value::Opaque(vec![1, 2]).same(&Value::Opaque(vec![1])));
    let blob = Value::Opaque(vec![9, 8, 7]);
    assert_eq!(blob.duplicate(), blob);
    let text = Value::Text("copy".to_string());
    assert_eq!(text.duplicate(), text);
}

#[test]
fn predicates_judge_the_board() {
    let mut board = Blackboard::new();
    assert_eq!(Predicate::Always.eval(&board), Ok(true));
    assert_eq!(Predicate::Never.eval(&board), Ok(false));
    assert_eq!(Predicate::Always.judge(&board), TickResult::Success);
    assert_eq!(Predicate::Never.judge(&board), TickResult::Failure(None));
    let ready = Predicate::Holds("ready".to_string());
    assert_eq!(ready.eval(&board), Err(RuntimeError::BlackboardNotFound));
    assert_eq!(
        ready.judge(&board),
        TickResult::Failure(Some(RuntimeError::BlackboardNotFound))
    );
    assert_eq!(board.set("ready", Value::Boolean(true)), Ok(()));
    assert_eq!(ready.eval(&board), Ok(true));
    let five = Predicate::Equals("n".to_string(), Value::Number(5));
    assert_eq!(five.eval(&board), Err(RuntimeError::BlackboardNotFound));
    assert_eq!(board.set("n", Value::Number(4)), Ok(()));
    assert_eq!(five.eval(&board), Ok(false));
    assert_eq!(board.set("n", Value::Number(5)), Ok(()));
    assert_eq!(five.eval(&board), Ok(true));
    let wrong = Predicate::Equals("n".to_string(), Value::Boolean(true));
    assert_eq!(wrong.eval(&board), Err(RuntimeError::BlackboardTypeMismatch));
}

#[test]
fn routines_step_with_their_progress() {
    let mut board = Blackboard::new();
    assert_eq!(Routine::Succeed.run(0, &mut board), (TickResult::Success, 0));
    assert_eq!(
        Routine::Fail(-2).run(0, &mut board),
        (TickResult::Failure(Some(RuntimeError::ActionExecutionFailure(-2))), 0)
    );
    let work = Routine::Work(2);
    assert_eq!(work.run(0, &mut board), (TickResult::Running, 1));
    assert_eq!(work.run(1, &mut board), (TickResult::Running, 2));
    assert_eq!(work.run(2, &mut board), (TickResult::Success, 0));
    assert_eq!(Routine::Work(0).run(0, &mut board), (TickResult::Success, 0));
    let store = Routine::Store("n".to_string(), Value::Number(1));
    assert_eq!(store.run(0, &mut board), (TickResult::Success, 0));
    assert_eq!(board.get_number("n"), Ok(1));
    let poll = Routine::Poll("done".to_string());
    assert_eq!(poll.run(3, &mut board), (TickResult::Running, 3));
    assert_eq!(board.set("done", Value::Boolean(true)), Ok(()));
    assert_eq!(poll.run(3, &mut board), (TickResult::Success, 0));
}
