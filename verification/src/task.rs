//! The task data model: `Priority`, `Task`, and the mathematical view of a
//! task that contracts speak about.

use vstd::prelude::*;
use crate::date::Date;

verus! {

/// Importance of a task. Mutable through the change-priority command.
#[derive(Clone, Copy, PartialEq, Eq, Structural, Debug)]
pub enum Priority {
    Low,
    Medium,
    High,
}

/// One managed item of the store.
#[derive(Debug)]
pub struct Task {
    pub id: u128,
    pub title: String,
    pub description: String,
    pub done: bool,
    pub priority: Priority,
    pub due_date: Date,
}

/// The mathematical value of a `Task`: text fields as character sequences,
/// everything else as plain values.
#[verifier::ext_equal]
pub struct TaskView {
    pub id: u128,
    pub title: Seq<char>,
    pub description: Seq<char>,
    pub done: bool,
    pub priority: Priority,
    pub due_date: Date,
}

impl View for Task {
    type V = TaskView;

    open spec fn view(&self) -> TaskView {
        TaskView {
            id: self.id,
            title: self.title@,
            description: self.description@,
            done: self.done,
            priority: self.priority,
            due_date: self.due_date,
        }
    }
}

impl DeepView for Task {
    type V = TaskView;

    open spec fn deep_view(&self) -> TaskView {
        self.view()
    }
}

impl TaskView {
    /// A well-formed task carries a well-formed due date.
    pub open spec fn wf(self) -> bool {
        self.due_date.wf()
    }
}

} // verus!
