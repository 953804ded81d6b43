//! What a leaf of a tree does when it is ticked: a condition judges the
//! blackboard, an action works on it and may take several ticks.

use vstd::prelude::*;
use crate::blackboard::{boolean_at, refused, written, Blackboard, Datum, Value};
use crate::status::{RuntimeError, TickResult};

verus! {

/// A predicate over the blackboard. It reads and never writes.
#[derive(Debug, PartialEq, Eq)]
pub enum Predicate {
    /// Holds always.
    Always,
    /// Holds never.
    Never,
    /// Holds where the key holds the truth value `true`.
    Holds(String),
    /// Holds where the key holds a value equal to the given one.
    Equals(String, Value),
}

impl Predicate {
    /// Whether the predicate holds of `board`, or the error that reading the
    /// board gives: a missing key, or a value of another kind than the
    /// predicate speaks of.
    pub open spec fn verdict(&self, board: Map<Seq<char>, Datum>) -> Result<bool, RuntimeError> {
        match self {
            Predicate::Always => Ok(true),
            Predicate::Never => Ok(false),
            Predicate::Holds(key) => boolean_at(board, key@),
            Predicate::Equals(key, value) => if !board.contains_key(key@) {
                Err(RuntimeError::BlackboardNotFound)
            } else if board[key@].kind() != value@.kind() {
                Err(RuntimeError::BlackboardTypeMismatch)
            } else {
                Ok(board[key@] == value@)
            },
        }
    }

    /// True where the predicate can be read and holds.
    pub open spec fn holds(&self, board: Map<Seq<char>, Datum>) -> bool {
        self.verdict(board) == Ok::<bool, RuntimeError>(true)
    }

    /// What a condition leaf with this predicate reports: success where it
    /// holds, failure where it does not, and failure with the error as its
    /// reason where the board cannot be read. It is never `Running`.
    pub open spec fn judged(&self, board: Map<Seq<char>, Datum>) -> TickResult {
        match self.verdict(board) {
            Ok(true) => TickResult::Success,
            Ok(false) => TickResult::Failure(None),
            Err(e) => TickResult::Failure(Some(e)),
        }
    }

    /// Evaluates the predicate.
    pub fn eval(&self, board: &Blackboard) -> (r: Result<bool, RuntimeError>)
        requires
            board.wf(),
        ensures
            r == self.verdict(board@),
    {
        match self {
            Predicate::Always => Ok(true),
            Predicate::Never => Ok(false),
            Predicate::Holds(key) => board.get_boolean(key.as_str()),
            Predicate::Equals(key, value) => match board.get(key.as_str()) {
                Err(e) => Err(e),
                Ok(held) => {
                    if held.kind() != value.kind() {
                        Err(RuntimeError::BlackboardTypeMismatch)
                    } else {
                        Ok(held.same(value))
                    }
                },
            },
        }
    }

    /// Ticks a condition leaf with this predicate.
    pub fn judge(&self, board: &Blackboard) -> (r: TickResult)
        requires
            board.wf(),
        ensures
            r == self.judged(board@),
            r.terminal(),
    {
        match self.eval(board) {
            Ok(true) => TickResult::Success,
            Ok(false) => TickResult::Failure(None),
            Err(e) => TickResult::Failure(Some(e)),
        }
    }
}

/// What an action does in one tick.
#[derive(Debug, PartialEq, Eq)]
pub enum Routine {
    /// Succeeds at once.
    Succeed,
    /// Fails at once, with the given code.
    Fail(i64),
    /// Works for the given number of ticks, reporting `Running`, and succeeds
    /// at the tick after them.
    Work(u64),
    /// Writes the value under the key; fails where the key holds another kind.
    Store(String, Value),
    /// Reports on work that is done elsewhere and posts its outcome under
    /// the key: `Running` while nothing is posted, then success for `true`
    /// and failure for `false`.
    Poll(String),
}

/// What one tick of an action gives: its report, the progress it keeps for
/// the next tick, and the blackboard it leaves.
pub struct Outcome {
    pub result: TickResult,
    pub progress: u64,
    pub board: Map<Seq<char>, Datum>,
}

impl Routine {
    /// One tick of the action, from the progress kept since it was
    /// activated (0 at activation) and the blackboard. Progress returns
    /// to 0 with every terminal report.
    pub open spec fn step(&self, progress: u64, board: Map<Seq<char>, Datum>) -> Outcome {
        match self {
            Routine::Succeed => Outcome { result: TickResult::Success, progress: 0, board },
            Routine::Fail(code) => Outcome {
                result: TickResult::Failure(Some(RuntimeError::ActionExecutionFailure(*code))),
                progress: 0,
                board,
            },
            Routine::Work(ticks) => if progress < *ticks {
                Outcome { result: TickResult::Running, progress: (progress + 1) as u64, board }
            } else {
                Outcome { result: TickResult::Success, progress: 0, board }
            },
            Routine::Store(key, value) => if refused(board, key@, value@) {
                Outcome {
                    result: TickResult::Failure(Some(RuntimeError::BlackboardTypeMismatch)),
                    progress: 0,
                    board,
                }
            } else {
                Outcome {
                    result: TickResult::Success,
                    progress: 0,
                    board: written(board, key@, value@),
                }
            },
            Routine::Poll(key) => match boolean_at(board, key@) {
                Ok(true) => Outcome { result: TickResult::Success, progress: 0, board },
                Ok(false) => Outcome { result: TickResult::Failure(None), progress: 0, board },
                Err(RuntimeError::BlackboardNotFound) => Outcome {
                    result: TickResult::Running,
                    progress,
                    board,
                },
                Err(e) => Outcome { result: TickResult::Failure(Some(e)), progress: 0, board },
            },
        }
    }

    /// Runs the action for one tick. Returns its report and the progress to
    /// keep.
    pub fn run(&self, progress: u64, board: &mut Blackboard) -> (r: (TickResult, u64))
        requires
            old(board).wf(),
        ensures
            final(board).wf(),
            (Outcome { result: r.0, progress: r.1, board: final(board)@ }) == self.step(
                progress,
                old(board)@,
            ),
    {
        match self {
            Routine::Succeed => (TickResult::Success, 0),
            Routine::Fail(code) => (
                TickResult::Failure(Some(RuntimeError::ActionExecutionFailure(*code))),
                0,
            ),
            Routine::Work(ticks) => {
                if progress < *ticks {
                    (TickResult::Running, progress + 1)
                } else {
                    (TickResult::Success, 0)
                }
            },
            Routine::Store(key, value) => {
                match board.set(key.as_str(), value.duplicate()) {
                    Ok(_) => (TickResult::Success, 0),
                    Err(e) => (TickResult::Failure(Some(e)), 0),
                }
            },
            Routine::Poll(key) => {
                match board.get_boolean(key.as_str()) {
                    Ok(true) => (TickResult::Success, 0),
                    Ok(false) => (TickResult::Failure(None), 0),
                    Err(RuntimeError::BlackboardNotFound) => (TickResult::Running, progress),
                    Err(e) => (TickResult::Failure(Some(e)), 0),
                }
            },
        }
    }
}

/// What is bound to the name of a leaf: a condition or an action.
#[derive(Debug, PartialEq, Eq)]
pub enum Implementation {
    Condition(Predicate),
    Action(Routine),
}

} // verus!
