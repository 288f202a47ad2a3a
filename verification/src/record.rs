use vstd::prelude::*;

verus! {

/// A labelled entry of a to-do list: a task text and a flag that says
/// whether the task has been ticked off.
///
/// The fields are public. Whoever owns a `Todo`, or holds the one mutable
/// reference to it, may change it in place.
#[derive(Debug, PartialEq, Eq)]
pub struct Todo {
    pub task: String,
    pub checked: bool,
}

/// What a `Todo` holds, as plain values: the characters of its task and its
/// flag.
pub struct TodoView {
    pub task: Seq<char>,
    pub checked: bool,
}

impl View for Todo {
    type V = TodoView;

    open spec fn view(&self) -> TodoView {
        TodoView { task: self.task@, checked: self.checked }
    }
}

} // verus!
