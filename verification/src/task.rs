//! Tasks and the errors the store reports.

use vstd::prelude::*;

verus! {

/// One to-do item: an identifier, a short description, and a completion flag.
pub struct Task {
    pub id: usize,
    pub description: String,
    pub completed: bool,
}

/// The mathematical content of a task.
#[verifier::ext_equal]
pub struct TaskView {
    pub id: nat,
    pub description: Seq<char>,
    pub completed: bool,
}

impl View for Task {
    type V = TaskView;

    open spec fn view(&self) -> TaskView {
        TaskView { id: self.id as nat, description: self.description@, completed: self.completed }
    }
}

impl DeepView for Task {
    type V = TaskView;

    open spec fn deep_view(&self) -> TaskView {
        self.view()
    }
}

/// What can go wrong in the store: an empty description on add, an unknown
/// identifier on complete or remove, a bad identifier field while reading the
/// stored text (with its one-based line number), or a failure of the
/// surrounding file handling.
#[derive(Clone, Copy, Debug, PartialEq, Eq, Structural)]
pub enum TodoError {
    ValidationError,
    NotFoundError(usize),
    ParseError(usize),
    IOError,
}

} // verus!
