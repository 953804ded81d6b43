//! What a tick reports, and the errors of a running tree.

use vstd::prelude::*;

verus! {

/// An error raised by a leaf while it runs. It never leaves the tick as an
/// error: the leaf fails, and the error travels as the reason of the failure.
#[derive(Clone, Copy, Debug, PartialEq, Eq)]
pub enum RuntimeError {
    /// A key of the blackboard holds a value of another kind than asked for.
    BlackboardTypeMismatch,
    /// The blackboard holds nothing under the key.
    BlackboardNotFound,
    /// An action failed; the payload is the action's own code.
    ActionExecutionFailure(i64),
    /// No implementation is registered under the name.
    RegistryUnknownAction,
}

/// The outcome of one tick of a node.
#[derive(Clone, Copy, Debug, PartialEq, Eq)]
pub enum TickResult {
    /// The node has done its work.
    Success,
    /// The node has failed, for the reason given where one is known.
    Failure(Option<RuntimeError>),
    /// The node needs further ticks.
    Running,
}

impl TickResult {
    /// True for `Success` and `Failure`, the outcomes that end an activation.
    pub open spec fn terminal(self) -> bool {
        !(self is Running)
    }

    /// Tells whether the outcome ends an activation.
    pub fn is_terminal(&self) -> (r: bool)
        ensures
            r == self.terminal(),
    {
        match self {
            TickResult::Running => false,
            _ => true,
        }
    }

    /// Tells whether the outcome is `Success`.
    pub fn is_success(&self) -> (r: bool)
        ensures
            r == (*self is Success),
    {
        match self {
            TickResult::Success => true,
            _ => false,
        }
    }

    /// Tells whether the outcome is `Running`.
    pub fn is_running(&self) -> (r: bool)
        ensures
            r == (*self is Running),
    {
        match self {
            TickResult::Running => true,
            _ => false,
        }
    }

    /// Tells whether the outcome is a failure, whatever the reason.
    pub fn is_failure(&self) -> (r: bool)
        ensures
            r == (*self is Failure),
    {
        match self {
            TickResult::Failure(_) => true,
            _ => false,
        }
    }
}

} // verus!
