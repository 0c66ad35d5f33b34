//! The task store: an insertion-ordered list of tasks and the counter that
//! assigns their identifiers.

use vstd::prelude::*;
use vstd::string::*;
use crate::num::{digits_of, fmt_usize};
use crate::task::{Task, TaskView, TodoError};
use crate::text::{
    append_str_chars, chars_to_string, lemma_trimmed_idempotent, push_all, trim_str, trimmed,
};

verus! {

/// The in-memory collection of tasks plus the id-assignment counter.
pub struct TodoList {
    pub tasks: Vec<Task>,
    pub next_id: usize,
}

/// The mathematical content of a store.
#[verifier::ext_equal]
pub struct StoreView {
    pub tasks: Seq<TaskView>,
    pub next_id: nat,
}

impl View for TodoList {
    type V = StoreView;

    open spec fn view(&self) -> StoreView {
        StoreView {
            tasks: Seq::new(self.tasks@.len(), |i: int| self.tasks@[i]@),
            next_id: self.next_id as nat,
        }
    }
}

impl StoreView {
    /// The store's invariant: identifiers are unique and below `next_id`,
    /// `next_id` starts at one, and every stored description is non-empty
    /// and already trimmed.
    pub open spec fn wf(self) -> bool {
        &&& self.next_id >= 1
        &&& forall|i: int| 0 <= i < self.tasks.len() ==> #[trigger] self.tasks[i].id < self.next_id
        &&& forall|i: int, j: int|
            0 <= i < j < self.tasks.len() ==> self.tasks[i].id != self.tasks[j].id
        &&& forall|i: int|
            0 <= i < self.tasks.len() ==> trimmed(#[trigger] self.tasks[i].description)
                == self.tasks[i].description && self.tasks[i].description.len() > 0
    }
}

/// Whether some task in the sequence has the given identifier.
pub open spec fn has_id(tasks: Seq<TaskView>, id: nat) -> bool {
    exists|i: int| 0 <= i < tasks.len() && #[trigger] tasks[i].id == id
}

/// The first position holding the given identifier (meaningful only when
/// `has_id` holds).
pub open spec fn index_of_id(tasks: Seq<TaskView>, id: nat) -> int
    decreases tasks.len(),
{
    if tasks.len() == 0 {
        0
    } else if tasks[0].id == id {
        0
    } else {
        1 + index_of_id(tasks.drop_first(), id)
    }
}

proof fn lemma_index_of_id(tasks: Seq<TaskView>, id: nat, i: int)
    requires
        0 <= i < tasks.len(),
        tasks[i].id == id,
        forall|k: int| 0 <= k < i ==> tasks[k].id != id,
    ensures
        index_of_id(tasks, id) == i,
        has_id(tasks, id),
    decreases i,
{
    if i == 0 {
    } else {
        assert(tasks[0].id != id);
        lemma_index_of_id(tasks.drop_first(), id, i - 1);
    }
}

/// The one display line for a task: a done or pending marker, the
/// identifier, and the description.
pub open spec fn display_line(t: TaskView) -> Seq<char> {
    (if t.completed {
        "[x]"@
    } else {
        "[ ]"@
    }) + " ID: "@ + digits_of(t.id) + ", "@ + t.description
}

impl TodoList {
    /// An empty store whose first assigned identifier will be one.
    pub fn new() -> (r: TodoList)
        ensures
            r@.tasks == Seq::<TaskView>::empty(),
            r@.next_id == 1,
            r@.wf(),
    {
        let r = TodoList { tasks: Vec::new(), next_id: 1 };
        proof {
            assert(r@.tasks =~= Seq::<TaskView>::empty());
        }
        r
    }

    /// Adds a task. The description is trimmed; when nothing is left the add
    /// is refused and the store is unchanged; otherwise the task is appended
    /// with the current `next_id`, not yet completed, and the counter moves
    /// on by one.
    pub fn add_task(&mut self, description: String) -> (r: Result<usize, TodoError>)
        requires
            old(self).next_id < usize::MAX,
        ensures
            old(self)@.wf() ==> final(self)@.wf(),
            match r {
                Ok(id) => {
                    &&& trimmed(description@).len() > 0
                    &&& id == old(self).next_id
                    &&& final(self)@.next_id == old(self)@.next_id + 1
                    &&& final(self)@.tasks == old(self)@.tasks.push(
                        TaskView {
                            id: old(self).next_id as nat,
                            description: trimmed(description@),
                            completed: false,
                        },
                    )
                },
                Err(e) => {
                    &&& e == TodoError::ValidationError
                    &&& trimmed(description@).len() == 0
                    &&& *final(self) == *old(self)
                },
            },
    {
        let t = trim_str(description.as_str());
        if t.is_empty() {
            return Err(TodoError::ValidationError);
        }
        let desc = String::from_str(t);
        let id: usize = self.next_id;
        self.tasks.push(Task { id, description: desc, completed: false });
        self.next_id = id + 1;
        proof {
            let tv = TaskView {
                id: old(self).next_id as nat,
                description: trimmed(description@),
                completed: false,
            };
            assert(final(self)@.tasks =~= old(self)@.tasks.push(tv));
            if old(self)@.wf() {
                lemma_trimmed_idempotent(description@);
                assert(final(self)@.wf());
            }
        }
        Ok(id)
    }

    /// The display lines for the tasks, in insertion order.
    pub fn list_tasks(&self) -> (lines: Vec<String>)
        ensures
            lines@.len() == self@.tasks.len(),
            forall|i: int|
                0 <= i < lines@.len() ==> #[trigger] lines@[i]@ == display_line(self@.tasks[i]),
    {
        let mut lines: Vec<String> = Vec::new();
        let mut i: usize = 0;
        while i < self.tasks.len()
            invariant
                i <= self.tasks.len(),
                lines@.len() == i,
                forall|k: int|
                    0 <= k < i ==> #[trigger] lines@[k]@ == display_line(self@.tasks[k]),
            decreases self.tasks.len() - i,
        {
            let t = &self.tasks[i];
            let mut line: Vec<char> = Vec::new();
            if t.completed {
                append_str_chars(&mut line, "[x]");
            } else {
                append_str_chars(&mut line, "[ ]");
            }
            append_str_chars(&mut line, " ID: ");
            let digits = fmt_usize(t.id);
            push_all(&mut line, &digits);
            append_str_chars(&mut line, ", ");
            append_str_chars(&mut line, t.description.as_str());
            let s = chars_to_string(&line);
            proof {
                assert(s@ =~= display_line(self@.tasks[i as int]));
            }
            lines.push(s);
            i = i + 1;
        }
        lines
    }

    /// Marks the first task carrying the identifier as completed; reports
    /// `NotFoundError` and leaves the store unchanged when no task has it.
    pub fn complete_task(&mut self, id: usize) -> (r: Result<(), TodoError>)
        ensures
            old(self)@.wf() ==> final(self)@.wf(),
            final(self)@.next_id == old(self)@.next_id,
            match r {
                Ok(u) => {
                    &&& has_id(old(self)@.tasks, id as nat)
                    &&& {
                        let k = index_of_id(old(self)@.tasks, id as nat);
                        final(self)@.tasks == old(self)@.tasks.update(
                            k,
                            (TaskView { completed: true, ..old(self)@.tasks[k] }),
                        )
                    }
                },
                Err(e) => {
                    &&& e == TodoError::NotFoundError(id)
                    &&& !has_id(old(self)@.tasks, id as nat)
                    &&& *final(self) == *old(self)
                },
            },
    {
        let mut i: usize = 0;
        while i < self.tasks.len()
            invariant
                i <= self.tasks.len(),
                forall|k: int| 0 <= k < i ==> old(self)@.tasks[k].id != id as nat,
                *self == *old(self),
            decreases self.tasks.len() - i,
        {
            if self.tasks[i].id == id {
                let done = Task {
                    id: self.tasks[i].id,
                    description: self.tasks[i].description.clone(),
                    completed: true,
                };
                self.tasks.set(i, done);
                proof {
                    lemma_index_of_id(old(self)@.tasks, id as nat, i as int);
                    let k = index_of_id(old(self)@.tasks, id as nat);
                    assert(final(self)@.tasks =~= old(self)@.tasks.update(
                        k,
                        (TaskView { completed: true, ..old(self)@.tasks[k] }),
                    ));
                    if old(self)@.wf() {
                        assert(final(self)@.wf());
                    }
                }
                return Ok(());
            }
            i = i + 1;
        }
        proof {
            assert(!has_id(old(self)@.tasks, id as nat));
        }
        Err(TodoError::NotFoundError(id))
    }

    /// Removes the first task carrying the identifier, leaving every other
    /// task and the counter as they were; reports `NotFoundError` and leaves
    /// the store unchanged when no task has it.
    pub fn remove_task(&mut self, id: usize) -> (r: Result<(), TodoError>)
        ensures
            old(self)@.wf() ==> final(self)@.wf(),
            final(self)@.next_id == old(self)@.next_id,
            match r {
                Ok(u) => {
                    &&& has_id(old(self)@.tasks, id as nat)
                    &&& final(self)@.tasks == old(self)@.tasks.remove(
                        index_of_id(old(self)@.tasks, id as nat),
                    )
                },
                Err(e) => {
                    &&& e == TodoError::NotFoundError(id)
                    &&& !has_id(old(self)@.tasks, id as nat)
                    &&& *final(self) == *old(self)
                },
            },
    {
        let mut i: usize = 0;
        while i < self.tasks.len()
            invariant
                i <= self.tasks.len(),
                forall|k: int| 0 <= k < i ==> old(self)@.tasks[k].id != id as nat,
                *self == *old(self),
            decreases self.tasks.len() - i,
        {
            if self.tasks[i].id == id {
                self.tasks.remove(i);
                proof {
                    lemma_index_of_id(old(self)@.tasks, id as nat, i as int);
                    assert(final(self)@.tasks =~= old(self)@.tasks.remove(i as int));
                    if old(self)@.wf() {
                        assert forall|a: int, b: int|
                            0 <= a < b < final(self)@.tasks.len() implies final(self)@.tasks[a].id
                            != final(self)@.tasks[b].id by {
                            let ra = if a < i as int { a } else { a + 1 };
                            let rb = if b < i as int { b } else { b + 1 };
                            assert(final(self)@.tasks[a] == old(self)@.tasks[ra]);
                            assert(final(self)@.tasks[b] == old(self)@.tasks[rb]);
                        }
                        assert(final(self)@.wf());
                    }
                }
                return Ok(());
            }
            i = i + 1;
        }
        proof {
            assert(!has_id(old(self)@.tasks, id as nat));
        }
        Err(TodoError::NotFoundError(id))
    }
}

} // verus!
