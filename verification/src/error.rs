//! The ways in which an operation on a task can be refused.

use vstd::prelude::*;

verus! {

/// Why an operation on a task or on the repository was refused.
#[derive(Clone, Copy, Debug, PartialEq, Eq, Structural)]
pub enum TaskError {
    /// The value model of the task does not carry the field asked for.
    WrongModel,
    /// The repository holds no task with the given id.
    NotFound,
    /// The expected length of the task is zero.
    ZeroLength,
    /// A point in time lies before one that it has to follow.
    TimeOrder,
}

impl TaskError {
    /// A short message for the user.
    pub fn message(&self) -> (res: &'static str)
        ensures
            res@ == match *self {
                TaskError::WrongModel => "this kind of task has no such setting"@,
                TaskError::NotFound => "no such task"@,
                TaskError::ZeroLength => "the length of a task must be more than zero"@,
                TaskError::TimeOrder => "the times of the task are out of order"@,
            },
    {
        match self {
            TaskError::WrongModel => "this kind of task has no such setting",
            TaskError::NotFound => "no such task",
            TaskError::ZeroLength => "the length of a task must be more than zero",
            TaskError::TimeOrder => "the times of the task are out of order",
        }
    }
}

} // verus!
