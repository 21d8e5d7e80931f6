//! The mathematical model of a task and of a store of tasks, and what each
//! operation on a store computes.
//!
//! The executable types of [`crate::todos`] have these as their views, and
//! their contracts say that each method computes the function of the same
//! name given here.

use crate::text::position;
use vstd::prelude::*;

verus! {

/// A task as a value: its number, whether it is done, and its text.
pub struct TodoView {
    pub id: nat,
    pub is_complete: bool,
    pub text: Seq<char>,
}

impl TodoView {
    /// The same task, done.
    pub open spec fn completed(self) -> TodoView {
        TodoView { id: self.id, is_complete: true, text: self.text }
    }
}

/// A store as a value: the tasks in their order, and the number that the next
/// new task will get.
pub struct TodosView {
    pub next_id: nat,
    pub list: Seq<TodoView>,
}

/// The test that a task has the number `id`.
pub open spec fn has_id(id: nat) -> spec_fn(TodoView) -> bool {
    |t: TodoView| t.id == id
}

/// The test that a task has another number than `id`.
pub open spec fn lacks_id(id: nat) -> spec_fn(TodoView) -> bool {
    |t: TodoView| t.id != id
}

/// The test that a task is done.
pub open spec fn is_done() -> spec_fn(TodoView) -> bool {
    |t: TodoView| t.is_complete
}

/// The test that a task is still to do.
pub open spec fn is_open() -> spec_fn(TodoView) -> bool {
    |t: TodoView| !t.is_complete
}

/// The numbers of the tasks of `list`, in order.
pub open spec fn ids(list: Seq<TodoView>) -> Seq<nat> {
    Seq::new(list.len(), |i: int| list[i].id)
}

/// The tasks of `list` that have the number `id`, in order.
pub open spec fn with_id(list: Seq<TodoView>, id: nat) -> Seq<TodoView> {
    list.filter(has_id(id))
}

/// Whether the numbers of `list` never go down from one task to a later one.
pub open spec fn ordered_by_id(list: Seq<TodoView>) -> bool {
    forall|i: int, j: int| 0 <= i < j < list.len() ==> list[i].id <= list[j].id
}

/// Whether `after` is `before` sorted by number, stably: `after` is ordered,
/// and for every number it holds the same tasks in the same order as
/// `before`.
pub open spec fn is_stable_sort_by_id(before: Seq<TodoView>, after: Seq<TodoView>) -> bool {
    &&& ordered_by_id(after)
    &&& forall|id: nat| #[trigger] with_id(after, id) == with_id(before, id)
}

/// `list` sorted by number, tasks of one number staying in their order.
/// [`crate::order::lemma_sorted_by_id`] shows that there is exactly one such
/// sequence.
pub open spec fn sorted_by_id(list: Seq<TodoView>) -> Seq<TodoView> {
    choose|sorted: Seq<TodoView>| is_stable_sort_by_id(list, sorted)
}

/// `list` with the first task numbered `id` done; `list` itself if no task
/// has that number.
pub open spec fn with_first_completed(list: Seq<TodoView>, id: nat) -> Seq<TodoView> {
    let k = position(ids(list), id);
    if 0 <= k < list.len() {
        list.update(k, list[k].completed())
    } else {
        list
    }
}

/// New tasks for `texts`, numbered from `first_id` on, none of them done.
pub open spec fn fresh(first_id: nat, texts: Seq<Seq<char>>) -> Seq<TodoView> {
    Seq::new(
        texts.len(),
        |i: int| TodoView { id: (first_id + i) as nat, is_complete: false, text: texts[i] },
    )
}

/// The least number that is greater than every number in `list`: zero for
/// no tasks, else the greatest number plus one.
pub open spec fn next_id_after(list: Seq<TodoView>) -> nat
    decreases list.len(),
{
    if list.len() == 0 {
        0
    } else {
        let before = next_id_after(list.drop_last());
        if list.last().id < before {
            before
        } else {
            list.last().id + 1
        }
    }
}

impl TodosView {
    /// The store with no tasks that numbers from zero.
    pub open spec fn empty() -> TodosView {
        TodosView { next_id: 0, list: Seq::empty() }
    }

    /// The invariant of every store: the next number is greater than the
    /// number of every task held.
    pub open spec fn wf(self) -> bool {
        forall|i: int| 0 <= i < self.list.len() ==> (#[trigger] self.list[i]).id < self.next_id
    }

    /// Whether no two tasks have the same number.
    pub open spec fn ids_distinct(self) -> bool {
        forall|i: int, j: int|
            0 <= i < j < self.list.len() ==> (#[trigger] self.list[i]).id != (
            #[trigger] self.list[j]).id
    }

    /// Whether some task has the number `id`.
    pub open spec fn contains_id(self, id: nat) -> bool {
        exists|i: int| 0 <= i < self.list.len() && (#[trigger] self.list[i]).id == id
    }

    /// One new task for each of `texts`, in their order, behind the tasks
    /// already held; they take the numbers from `next_id` on.
    pub open spec fn add_todos(self, texts: Seq<Seq<char>>) -> TodosView {
        TodosView {
            next_id: self.next_id + texts.len(),
            list: self.list + fresh(self.next_id, texts),
        }
    }

    /// Every task but those numbered `id`, in order.
    pub open spec fn remove_todo(self, id: nat) -> TodosView {
        TodosView { next_id: self.next_id, list: self.list.filter(lacks_id(id)) }
    }

    /// The tasks sorted by number, stably.
    pub open spec fn sort_by_id(self) -> TodosView {
        TodosView { next_id: self.next_id, list: sorted_by_id(self.list) }
    }

    /// The tasks still to do, in order, then the tasks done, in order.
    pub open spec fn sort_by_is_complete(self) -> TodosView {
        TodosView {
            next_id: self.next_id,
            list: self.list.filter(is_open()) + self.list.filter(is_done()),
        }
    }

    /// The tasks sorted by number, and the first one numbered `id` done.
    pub open spec fn complete_todo(self, id: nat) -> TodosView {
        TodosView {
            next_id: self.next_id,
            list: with_first_completed(sorted_by_id(self.list), id),
        }
    }

    /// The tasks done, in order.
    pub open spec fn completed(self) -> Seq<TodoView> {
        self.list.filter(is_done())
    }

    /// The tasks still to do, in order.
    pub open spec fn incomplete(self) -> Seq<TodoView> {
        self.list.filter(is_open())
    }
}

/// One change to a store.
pub enum Op {
    /// New tasks with these texts.
    Add(Seq<Seq<char>>),
    /// The tasks of this number leave.
    Remove(nat),
    /// The store is sorted by number and the task of this number is done.
    Complete(nat),
    /// The store is sorted by number.
    SortById,
    /// The store is sorted by whether the tasks are done.
    SortByIsComplete,
}

impl TodosView {
    /// The store after one change.
    pub open spec fn apply(self, op: Op) -> TodosView {
        match op {
            Op::Add(texts) => self.add_todos(texts),
            Op::Remove(id) => self.remove_todo(id),
            Op::Complete(id) => self.complete_todo(id),
            Op::SortById => self.sort_by_id(),
            Op::SortByIsComplete => self.sort_by_is_complete(),
        }
    }

    /// The store after a run of changes, the first of `ops` first.
    pub open spec fn apply_all(self, ops: Seq<Op>) -> TodosView
        decreases ops.len(),
    {
        if ops.len() == 0 {
            self
        } else {
            self.apply_all(ops.drop_last()).apply(ops.last())
        }
    }
}

/// `next_id_after` is above every number in the sequence, and is the least
/// such number: zero for no tasks, else one above a number that occurs.
pub proof fn lemma_next_id_after(list: Seq<TodoView>)
    ensures
        forall|i: int| 0 <= i < list.len() ==> (#[trigger] list[i]).id < next_id_after(list),
        list.len() == 0 ==> next_id_after(list) == 0,
        list.len() > 0 ==> exists|i: int|
            0 <= i < list.len() && (#[trigger] list[i]).id + 1 == next_id_after(list),
    decreases list.len(),
{
    if list.len() > 0 {
        let shorter = list.drop_last();
        lemma_next_id_after(shorter);
        assert forall|i: int| 0 <= i < list.len() implies (#[trigger] list[i]).id < next_id_after(
            list,
        ) by {
            if i < shorter.len() {
                assert(shorter[i].id < next_id_after(shorter));
            }
        }
        if list.last().id < next_id_after(shorter) {
            let i = choose|i: int|
                0 <= i < shorter.len() && (#[trigger] shorter[i]).id + 1 == next_id_after(shorter);
            assert(list[i].id + 1 == next_id_after(list));
        } else {
            assert(list[list.len() - 1].id + 1 == next_id_after(list));
        }
    }
}

} // verus!
