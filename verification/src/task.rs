//! The task data type: a line of text together with a completion flag.

use vstd::prelude::*;

verus! {

/// Completion state of a single task.
#[derive(Debug, Copy, Clone, PartialEq, Eq, Structural)]
pub enum TaskStatus {
    Incomplete,
    Complete,
}

/// One entry of the task collection. A task has no identity beyond its
/// position in the collection; the position is 1-based in user-facing
/// patterns and 0-based internally.
#[derive(Debug, Clone)]
pub struct Task {
    pub text: String,
    pub status: TaskStatus,
}

impl Task {
    /// A fresh task starts out incomplete.
    pub fn new(task: &str) -> (t: Task)
        ensures
            t.text@ == task@,
            t.status == TaskStatus::Incomplete,
    {
        Task { text: task.to_owned(), status: TaskStatus::Incomplete }
    }

    /// Overwrites the completion flag; the text is untouched.
    pub fn set_status(&mut self, status: TaskStatus)
        ensures
            final(self).status == status,
            final(self).text == old(self).text,
    {
        self.status = status;
    }

    pub fn is_complete(&self) -> (r: bool)
        ensures
            r == (self.status == TaskStatus::Complete),
    {
        self.status == TaskStatus::Complete
    }
}

impl PartialEq for Task {
    fn eq(&self, other: &Task) -> (r: bool) {
        self.text == other.text && self.status == other.status
    }
}

impl vstd::std_specs::cmp::PartialEqSpecImpl for Task {
    open spec fn obeys_eq_spec() -> bool {
        true
    }

    open spec fn eq_spec(&self, other: &Task) -> bool {
        self.text@ == other.text@ && self.status == other.status
    }
}

} // verus!
