//! Sorting tasks by number: what the stable order is, that it exists and is
//! unique, what it keeps, and the merge sort and the search that work on it.

use crate::model::{
    has_id, is_stable_sort_by_id, ordered_by_id, sorted_by_id, with_id, TodoView, TodosView,
};
use crate::todos::{views, Todo};
use vstd::prelude::*;

verus! {

/// The tasks numbered `id` of a sequence that ends in `t`.
pub proof fn lemma_with_id_push(list: Seq<TodoView>, t: TodoView, id: nat)
    ensures
        with_id(list.push(t), id) == if t.id == id {
            with_id(list, id).push(t)
        } else {
            with_id(list, id)
        },
{
    list.lemma_filter_push(t, has_id(id));
}

/// The tasks numbered `id` of two sequences joined.
pub proof fn lemma_with_id_concat(a: Seq<TodoView>, b: Seq<TodoView>, id: nat)
    ensures
        with_id(a + b, id) == with_id(a, id) + with_id(b, id),
{
    Seq::filter_distributes_over_add(a, b, has_id(id));
}

/// Every task among those numbered `id` has that number and comes from the
/// sequence.
pub proof fn lemma_with_id_member(list: Seq<TodoView>, id: nat, j: int)
    requires
        0 <= j < with_id(list, id).len(),
    ensures
        with_id(list, id)[j].id == id,
        list.contains(with_id(list, id)[j]),
{
    list.lemma_filter_pred(has_id(id), j);
    let t = with_id(list, id)[j];
    assert(with_id(list, id).contains(t));
    list.lemma_filter_contains_rev(has_id(id), t);
}

/// A task of the sequence is among those that have its number.
pub proof fn lemma_with_id_holds(list: Seq<TodoView>, i: int)
    requires
        0 <= i < list.len(),
    ensures
        with_id(list, list[i].id).contains(list[i]),
        with_id(list, list[i].id).len() > 0,
{
    list.lemma_filter_contains(has_id(list[i].id), i);
}

/// Where no task has the number `id`, none is selected.
pub proof fn lemma_with_id_absent(list: Seq<TodoView>, id: nat)
    requires
        forall|i: int| 0 <= i < list.len() ==> (#[trigger] list[i]).id != id,
    ensures
        with_id(list, id) == Seq::<TodoView>::empty(),
{
    if with_id(list, id).len() > 0 {
        lemma_with_id_member(list, id, 0);
        let t = with_id(list, id)[0];
        let i = choose|i: int| 0 <= i < list.len() && list[i] == t;
        assert(list[i].id == id);
    }
    assert(with_id(list, id) =~= Seq::<TodoView>::empty());
}

/// Two ordered sequences that agree, for every number, on the tasks of that
/// number are the same sequence.
pub proof fn lemma_stable_sort_unique(a: Seq<TodoView>, b: Seq<TodoView>)
    requires
        ordered_by_id(a),
        ordered_by_id(b),
        forall|id: nat| #[trigger] with_id(a, id) == with_id(b, id),
    ensures
        a == b,
    decreases a.len(),
{
    if a.len() == 0 {
        if b.len() > 0 {
            lemma_with_id_holds(b, 0);
            assert(with_id(a, b[0].id) == with_id(b, b[0].id));
            lemma_with_id_absent(a, b[0].id);
        }
        assert(a =~= b);
    } else {
        let x = a.last();
        let a0 = a.drop_last();
        assert(a =~= a0.push(x));
        lemma_with_id_push(a0, x, x.id);
        assert(with_id(a, x.id) == with_id(b, x.id));
        // b holds a task numbered like x, so b is not empty
        if b.len() == 0 {
            lemma_with_id_absent(b, x.id);
        }
        let y = b.last();
        let b0 = b.drop_last();
        assert(b =~= b0.push(y));
        lemma_with_id_push(b0, y, y.id);
        assert(with_id(a, y.id) == with_id(b, y.id));
        // the last numbers agree: each sequence holds the other's last number
        let in_a = with_id(a, y.id).last();
        lemma_with_id_member(a, y.id, with_id(a, y.id).len() - 1);
        let ia = choose|i: int| 0 <= i < a.len() && a[i] == in_a;
        assert(a[ia].id <= a[a.len() - 1].id);
        let in_b = with_id(b, x.id).last();
        lemma_with_id_member(b, x.id, with_id(b, x.id).len() - 1);
        let ib = choose|i: int| 0 <= i < b.len() && b[i] == in_b;
        assert(b[ib].id <= b[b.len() - 1].id);
        assert(x.id == y.id);
        assert(x == y);
        assert forall|id: nat| #[trigger] with_id(a0, id) == with_id(b0, id) by {
            lemma_with_id_push(a0, x, id);
            lemma_with_id_push(b0, y, id);
            assert(with_id(a, id) == with_id(b, id));
            if id == x.id {
                assert(with_id(a0, id) =~= with_id(a, id).drop_last());
                assert(with_id(b0, id) =~= with_id(b, id).drop_last());
            }
        }
        assert(ordered_by_id(a0)) by {
            assert forall|i: int, j: int| 0 <= i < j < a0.len() implies a0[i].id <= a0[j].id by {
                assert(a[i].id <= a[j].id);
            }
        }
        assert(ordered_by_id(b0)) by {
            assert forall|i: int, j: int| 0 <= i < j < b0.len() implies b0[i].id <= b0[j].id by {
                assert(b[i].id <= b[j].id);
            }
        }
        lemma_stable_sort_unique(a0, b0);
    }
}

/// In an ordered sequence, the place in front of the first task numbered
/// above `id`.
proof fn lemma_insertion_point(list: Seq<TodoView>, id: nat) -> (p: int)
    requires
        ordered_by_id(list),
    ensures
        0 <= p <= list.len(),
        forall|i: int| 0 <= i < p ==> (#[trigger] list[i]).id <= id,
        forall|i: int| p <= i < list.len() ==> (#[trigger] list[i]).id > id,
    decreases list.len(),
{
    if list.len() == 0 {
        0
    } else if list.last().id <= id {
        assert forall|i: int| 0 <= i < list.len() implies (#[trigger] list[i]).id <= id by {
            if i < list.len() - 1 {
                assert(list[i].id <= list[list.len() - 1].id);
            }
        }
        list.len() as int
    } else {
        let shorter = list.drop_last();
        assert(ordered_by_id(shorter)) by {
            assert forall|i: int, j: int| 0 <= i < j < shorter.len() implies shorter[i].id
                <= shorter[j].id by {
                assert(list[i].id <= list[j].id);
            }
        }
        let p = lemma_insertion_point(shorter, id);
        assert forall|i: int| p <= i < list.len() implies (#[trigger] list[i]).id > id by {
            if i < list.len() - 1 {
                assert(shorter[i].id > id);
            }
        }
        assert forall|i: int| 0 <= i < p implies (#[trigger] list[i]).id <= id by {
            assert(shorter[i].id <= id);
        }
        p
    }
}

/// Every sequence of tasks has a stable sort by number, of the same length.
proof fn lemma_stable_sort_exists(list: Seq<TodoView>) -> (sorted: Seq<TodoView>)
    ensures
        is_stable_sort_by_id(list, sorted),
        sorted.len() == list.len(),
    decreases list.len(),
{
    if list.len() == 0 {
        list
    } else {
        let x = list.last();
        let shorter = list.drop_last();
        assert(list =~= shorter.push(x));
        let inner = lemma_stable_sort_exists(shorter);
        let p = lemma_insertion_point(inner, x.id);
        let head = inner.take(p);
        let tail = inner.skip(p);
        let sorted = head.push(x) + tail;
        assert(inner =~= head + tail);
        assert(ordered_by_id(sorted)) by {
            assert forall|i: int, j: int| 0 <= i < j < sorted.len() implies sorted[i].id
                <= sorted[j].id by {
                if j < p {
                    assert(inner[i].id <= inner[j].id);
                } else if j == p {
                    assert(inner[i].id <= x.id);
                } else if i < p {
                    assert(inner[i].id <= x.id);
                    assert(inner[j - 1].id > x.id);
                } else if i == p {
                    assert(inner[j - 1].id > x.id);
                } else {
                    assert(inner[i - 1].id <= inner[j - 1].id);
                }
            }
        }
        assert forall|id: nat| #[trigger] with_id(sorted, id) == with_id(list, id) by {
            lemma_with_id_concat(head, tail, id);
            lemma_with_id_concat(head.push(x), tail, id);
            lemma_with_id_push(head, x, id);
            lemma_with_id_push(shorter, x, id);
            assert(with_id(inner, id) == with_id(shorter, id));
            if id == x.id {
                assert forall|i: int| 0 <= i < tail.len() implies (#[trigger] tail[i]).id
                    != id by {
                    assert(inner[p + i].id > x.id);
                }
                lemma_with_id_absent(tail, id);
                assert(with_id(head, id).push(x) + Seq::<TodoView>::empty() =~= (with_id(head, id)
                    + Seq::<TodoView>::empty()).push(x));
            }
        }
        sorted
    }
}

/// `sorted_by_id` is the stable sort: it meets the definition, nothing else
/// does, and it has as many tasks as the sequence it sorts.
pub proof fn lemma_sorted_by_id(list: Seq<TodoView>)
    ensures
        is_stable_sort_by_id(list, sorted_by_id(list)),
        sorted_by_id(list).len() == list.len(),
        forall|other: Seq<TodoView>| #[trigger]
            is_stable_sort_by_id(list, other) ==> other == sorted_by_id(list),
{
    let witness = lemma_stable_sort_exists(list);
    let chosen = sorted_by_id(list);
    assert(is_stable_sort_by_id(list, chosen));
    assert forall|other: Seq<TodoView>| #[trigger]
        is_stable_sort_by_id(list, other) implies other == chosen by {
        assert forall|id: nat| #[trigger] with_id(other, id) == with_id(chosen, id) by {
            assert(with_id(other, id) == with_id(list, id));
            assert(with_id(chosen, id) == with_id(list, id));
        }
        lemma_stable_sort_unique(other, chosen);
    }
    assert(witness == chosen);
}

/// A sequence that is ordered already is its own stable sort.
pub proof fn lemma_sorted_by_id_of_ordered(list: Seq<TodoView>)
    requires
        ordered_by_id(list),
    ensures
        sorted_by_id(list) == list,
{
    lemma_sorted_by_id(list);
    assert(is_stable_sort_by_id(list, list));
}

/// No two tasks share a number exactly if no number selects more than one
/// task.
pub proof fn lemma_distinct_by_groups(s: TodosView)
    ensures
        s.ids_distinct() <==> forall|id: nat| #[trigger] with_id(s.list, id).len() <= 1,
    decreases s.list.len(),
{
    let list = s.list;
    if list.len() > 0 {
        let x = list.last();
        let shorter = TodosView { next_id: s.next_id, list: list.drop_last() };
        assert(list =~= shorter.list.push(x));
        lemma_distinct_by_groups(shorter);
        if s.ids_distinct() {
            assert(shorter.ids_distinct()) by {
                assert forall|i: int, j: int| 0 <= i < j < shorter.list.len() implies (
                #[trigger] shorter.list[i]).id != (#[trigger] shorter.list[j]).id by {
                    assert(list[i].id != list[j].id);
                }
            }
            assert forall|id: nat| #[trigger] with_id(list, id).len() <= 1 by {
                lemma_with_id_push(shorter.list, x, id);
                assert(with_id(shorter.list, id).len() <= 1);
                if id == x.id && with_id(shorter.list, id).len() > 0 {
                    lemma_with_id_member(shorter.list, id, 0);
                    let t = with_id(shorter.list, id)[0];
                    let i = choose|i: int| 0 <= i < shorter.list.len() && shorter.list[i] == t;
                    assert(list[i].id != list[list.len() - 1].id);
                }
            }
        }
        if forall|id: nat| #[trigger] with_id(list, id).len() <= 1 {
            assert forall|id: nat| #[trigger] with_id(shorter.list, id).len() <= 1 by {
                lemma_with_id_push(shorter.list, x, id);
                assert(with_id(list, id).len() <= 1);
            }
            assert(shorter.ids_distinct());
            assert forall|i: int, j: int| 0 <= i < j < list.len() implies (#[trigger] list[i]).id
                != (#[trigger] list[j]).id by {
                if j < list.len() - 1 {
                    assert(shorter.list[i].id != shorter.list[j].id);
                } else if list[i].id == x.id {
                    lemma_with_id_holds(shorter.list, i);
                    lemma_with_id_push(shorter.list, x, x.id);
                    assert(with_id(list, x.id).len() <= 1);
                }
            }
        }
    } else {
        assert forall|id: nat| #[trigger] with_id(list, id).len() <= 1 by {
            lemma_with_id_absent(list, id);
        }
    }
}

/// Sorting by number keeps what a store must keep: the bound on the numbers,
/// and that they differ from each other.
pub proof fn lemma_stable_sort_keeps(s: TodosView, sorted: Seq<TodoView>)
    requires
        is_stable_sort_by_id(s.list, sorted),
    ensures
        sorted.len() == s.list.len(),
        s.wf() ==> (TodosView { next_id: s.next_id, list: sorted }).wf(),
        s.ids_distinct() <==> (TodosView { next_id: s.next_id, list: sorted }).ids_distinct(),
        forall|id: nat|
            s.contains_id(id) <==> (#[trigger] (TodosView {
                next_id: s.next_id,
                list: sorted,
            }).contains_id(id)),
{
    let after = TodosView { next_id: s.next_id, list: sorted };
    lemma_sorted_by_id(s.list);
    assert(sorted == sorted_by_id(s.list));
    lemma_distinct_by_groups(s);
    lemma_distinct_by_groups(after);
    if s.ids_distinct() {
        assert forall|id: nat| #[trigger] with_id(after.list, id).len() <= 1 by {
            assert(with_id(sorted, id) == with_id(s.list, id));
            assert(with_id(s.list, id).len() <= 1);
        }
        assert(after.ids_distinct());
    }
    if after.ids_distinct() {
        assert forall|id: nat| #[trigger] with_id(s.list, id).len() <= 1 by {
            assert(with_id(sorted, id) == with_id(s.list, id));
            assert(with_id(after.list, id).len() <= 1);
        }
        assert(s.ids_distinct());
    }
    assert forall|id: nat| s.contains_id(id) <==> #[trigger] after.contains_id(id) by {
        assert(with_id(sorted, id) == with_id(s.list, id));
        if s.contains_id(id) {
            let i = choose|i: int| 0 <= i < s.list.len() && (#[trigger] s.list[i]).id == id;
            lemma_with_id_holds(s.list, i);
            lemma_with_id_member(sorted, id, 0);
            let t = with_id(sorted, id)[0];
            let j = choose|j: int| 0 <= j < sorted.len() && sorted[j] == t;
            assert(after.list[j].id == id);
        }
        if after.contains_id(id) {
            let i = choose|i: int| 0 <= i < sorted.len() && (#[trigger] after.list[i]).id == id;
            lemma_with_id_holds(sorted, i);
            lemma_with_id_member(s.list, id, 0);
            let t = with_id(s.list, id)[0];
            let j = choose|j: int| 0 <= j < s.list.len() && s.list[j] == t;
            assert(s.list[j].id == id);
        }
    }
    if s.wf() {
        assert forall|i: int| 0 <= i < sorted.len() implies (#[trigger] after.list[i]).id
            < after.next_id by {
            let id = after.list[i].id;
            assert(after.contains_id(id));
            assert(s.contains_id(id));
        }
    }
}

/// The tasks numbered `id` of a single task.
proof fn lemma_with_id_one(t: TodoView, id: nat)
    ensures
        with_id(seq![t], id) == if t.id == id {
            seq![t]
        } else {
            Seq::<TodoView>::empty()
        },
{
    lemma_with_id_push(Seq::<TodoView>::empty(), t, id);
    lemma_with_id_absent(Seq::<TodoView>::empty(), id);
    assert(seq![t] =~= Seq::<TodoView>::empty().push(t));
    assert(Seq::<TodoView>::empty().push(t) =~= seq![t]);
}

/// The state of a merge that works from the back: of the ordered runs `a` and
/// `b`, the first `i` and the first `j` tasks are still to be merged, and
/// `taken` is the merged rest.
spec fn merging(a: Seq<TodoView>, b: Seq<TodoView>, i: int, j: int, taken: Seq<TodoView>) -> bool {
    &&& ordered_by_id(a)
    &&& ordered_by_id(b)
    &&& 0 <= i <= a.len()
    &&& 0 <= j <= b.len()
    &&& ordered_by_id(taken)
    &&& forall|id: nat| #[trigger]
        with_id(taken, id) == with_id(a.skip(i), id) + with_id(b.skip(j), id)
    &&& forall|p: int, q: int| i <= p < a.len() && 0 <= q < j ==> a[p].id > b[q].id
    &&& forall|t: int, p: int| 0 <= t < taken.len() && 0 <= p < i ==> a[p].id <= taken[t].id
    &&& forall|t: int, q: int| 0 <= t < taken.len() && 0 <= q < j ==> b[q].id <= taken[t].id
}

/// A merge may take the last task of `b` when it is numbered no lower than
/// the last of `a`: of two tasks with one number, the one from `b` comes
/// later.
proof fn lemma_merge_take_right(
    a: Seq<TodoView>,
    b: Seq<TodoView>,
    i: int,
    j: int,
    taken: Seq<TodoView>,
)
    requires
        merging(a, b, i, j, taken),
        j > 0,
        i == 0 || b[j - 1].id >= a[i - 1].id,
    ensures
        merging(a, b, i, j - 1, seq![b[j - 1]] + taken),
{
    let x = b[j - 1];
    let next = seq![x] + taken;
    assert(b.skip(j - 1) =~= seq![x] + b.skip(j));
    assert forall|id: nat| #[trigger]
        with_id(next, id) == with_id(a.skip(i), id) + with_id(b.skip(j - 1), id) by {
        lemma_with_id_concat(seq![x], taken, id);
        lemma_with_id_concat(seq![x], b.skip(j), id);
        lemma_with_id_one(x, id);
        assert(with_id(taken, id) == with_id(a.skip(i), id) + with_id(b.skip(j), id));
        if x.id == id {
            assert forall|p: int| 0 <= p < a.skip(i).len() implies (#[trigger] a.skip(i)[p]).id
                != id by {
                assert(a[i + p].id > b[j - 1].id);
            }
            lemma_with_id_absent(a.skip(i), id);
        }
        assert(with_id(next, id) =~= with_id(a.skip(i), id) + with_id(b.skip(j - 1), id));
    }
    assert forall|s: int, t: int| 0 <= s < t < next.len() implies next[s].id <= next[t].id by {
        if s == 0 {
            assert(b[j - 1].id <= taken[t - 1].id);
        } else {
            assert(taken[s - 1].id <= taken[t - 1].id);
        }
    }
    assert forall|t: int, p: int| 0 <= t < next.len() && 0 <= p < i implies a[p].id
        <= next[t].id by {
        if t == 0 {
            assert(a[p].id <= a[i - 1].id);
        } else {
            assert(a[p].id <= taken[t - 1].id);
        }
    }
    assert forall|t: int, q: int| 0 <= t < next.len() && 0 <= q < j - 1 implies b[q].id
        <= next[t].id by {
        if t == 0 {
            assert(b[q].id <= b[j - 1].id);
        } else {
            assert(b[q].id <= taken[t - 1].id);
        }
    }
}

/// A merge may take the last task of `a` when it is numbered above the last
/// of `b`.
proof fn lemma_merge_take_left(
    a: Seq<TodoView>,
    b: Seq<TodoView>,
    i: int,
    j: int,
    taken: Seq<TodoView>,
)
    requires
        merging(a, b, i, j, taken),
        i > 0,
        j == 0 || b[j - 1].id < a[i - 1].id,
    ensures
        merging(a, b, i - 1, j, seq![a[i - 1]] + taken),
{
    let x = a[i - 1];
    let next = seq![x] + taken;
    assert(a.skip(i - 1) =~= seq![x] + a.skip(i));
    assert forall|id: nat| #[trigger]
        with_id(next, id) == with_id(a.skip(i - 1), id) + with_id(b.skip(j), id) by {
        lemma_with_id_concat(seq![x], taken, id);
        lemma_with_id_concat(seq![x], a.skip(i), id);
        assert(with_id(taken, id) == with_id(a.skip(i), id) + with_id(b.skip(j), id));
        assert(with_id(next, id) =~= with_id(a.skip(i - 1), id) + with_id(b.skip(j), id));
    }
    assert forall|s: int, t: int| 0 <= s < t < next.len() implies next[s].id <= next[t].id by {
        if s == 0 {
            assert(a[i - 1].id <= taken[t - 1].id);
        } else {
            assert(taken[s - 1].id <= taken[t - 1].id);
        }
    }
    assert forall|p: int, q: int| i - 1 <= p < a.len() && 0 <= q < j implies a[p].id
        > b[q].id by {
        if p == i - 1 {
            assert(b[q].id <= b[j - 1].id);
        }
    }
    assert forall|t: int, p: int| 0 <= t < next.len() && 0 <= p < i - 1 implies a[p].id
        <= next[t].id by {
        if t == 0 {
            assert(a[p].id <= a[i - 1].id);
        } else {
            assert(a[p].id <= taken[t - 1].id);
        }
    }
    assert forall|t: int, q: int| 0 <= t < next.len() && 0 <= q < j implies b[q].id
        <= next[t].id by {
        if t == 0 {
            assert(b[q].id <= b[j - 1].id);
        } else {
            assert(b[q].id <= taken[t - 1].id);
        }
    }
}

/// Merges two ordered runs into one. Of two tasks with the same number, the
/// one from `left` comes first.
fn merge(left: Vec<Todo>, right: Vec<Todo>) -> (merged: Vec<Todo>)
    requires
        ordered_by_id(views(left@)),
        ordered_by_id(views(right@)),
    ensures
        is_stable_sort_by_id(views(left@) + views(right@), views(merged@)),
{
    let ghost a = views(left@);
    let ghost b = views(right@);
    let mut left = left;
    let mut right = right;
    // the merged tasks, the last one first
    let mut back: Vec<Todo> = Vec::new();
    let ghost mut taken: Seq<TodoView> = Seq::empty();
    proof {
        assert(a.take(a.len() as int) =~= a);
        assert(b.take(b.len() as int) =~= b);
        assert(views(back@) =~= taken.reverse());
        assert forall|id: nat| #[trigger]
            with_id(taken, id) == with_id(a.skip(a.len() as int), id) + with_id(
                b.skip(b.len() as int),
                id,
            ) by {
            lemma_with_id_absent(taken, id);
            lemma_with_id_absent(a.skip(a.len() as int), id);
            lemma_with_id_absent(b.skip(b.len() as int), id);
        }
    }
    while left.len() > 0 || right.len() > 0
        invariant
            views(left@) == a.take(left.len() as int),
            views(right@) == b.take(right.len() as int),
            views(back@) == taken.reverse(),
            merging(a, b, left.len() as int, right.len() as int, taken),
        decreases left.len() + right.len(),
    {
        let ghost i = left.len() as int;
        let ghost j = right.len() as int;
        let ghost before = taken;
        let from_right = if left.len() == 0 {
            true
        } else if right.len() == 0 {
            false
        } else {
            assert(views(left@)[i - 1] == a[i - 1]);
            assert(views(right@)[j - 1] == b[j - 1]);
            right[right.len() - 1].id() >= left[left.len() - 1].id()
        };
        let ghost back_before = views(back@);
        if from_right {
            let ghost run = right@;
            let todo = right.pop().unwrap();
            proof {
                assert(views(run)[j - 1] == b.take(j)[j - 1]);
                assert(todo@ == b[j - 1]);
                lemma_merge_take_right(a, b, i, j, before);
                taken = seq![b[j - 1]] + before;
                assert(views(right@) =~= b.take(j - 1));
            }
            back.push(todo);
            assert(views(back@) =~= back_before.push(todo@));
        } else {
            let ghost run = left@;
            let todo = left.pop().unwrap();
            proof {
                assert(views(run)[i - 1] == a.take(i)[i - 1]);
                assert(todo@ == a[i - 1]);
                lemma_merge_take_left(a, b, i, j, before);
                taken = seq![a[i - 1]] + before;
                assert(views(left@) =~= a.take(i - 1));
            }
            back.push(todo);
            assert(views(back@) =~= back_before.push(todo@));
        }
        assert(views(back@) =~= taken.reverse());
    }
    let mut merged: Vec<Todo> = Vec::new();
    while back.len() > 0
        invariant
            views(merged@) + views(back@).reverse() == taken,
        decreases back.len(),
    {
        let ghost merged_before = views(merged@);
        let ghost back_before = views(back@);
        let todo = back.pop().unwrap();
        merged.push(todo);
        assert(views(merged@) + views(back@).reverse() =~= merged_before + back_before.reverse());
    }
    proof {
        assert(views(merged@) =~= taken);
        assert(a.skip(0) =~= a);
        assert(b.skip(0) =~= b);
        assert forall|id: nat| #[trigger] with_id(taken, id) == with_id(a + b, id) by {
            lemma_with_id_concat(a, b, id);
            assert(with_id(taken, id) == with_id(a.skip(0), id) + with_id(b.skip(0), id));
        }
    }
    merged
}

/// Sorts the tasks by number, stably.
pub fn sort_by_id(list: Vec<Todo>) -> (sorted: Vec<Todo>)
    ensures
        views(sorted@) == sorted_by_id(views(list@)),
    decreases list.len(),
{
    let ghost all = views(list@);
    if list.len() < 2 {
        proof {
            lemma_sorted_by_id_of_ordered(all);
        }
        return list;
    }
    let mut left = list;
    let right = left.split_off(left.len() / 2);
    let ghost a = views(left@);
    let ghost b = views(right@);
    let left = sort_by_id(left);
    let right = sort_by_id(right);
    proof {
        lemma_sorted_by_id(a);
        lemma_sorted_by_id(b);
    }
    let merged = merge(left, right);
    proof {
        assert(all =~= a + b);
        assert forall|id: nat| #[trigger] with_id(views(merged@), id) == with_id(all, id) by {
            lemma_with_id_concat(a, b, id);
            lemma_with_id_concat(sorted_by_id(a), sorted_by_id(b), id);
            assert(with_id(sorted_by_id(a), id) == with_id(a, id));
            assert(with_id(sorted_by_id(b), id) == with_id(b, id));
            assert(with_id(views(merged@), id) == with_id(sorted_by_id(a) + sorted_by_id(b), id));
        }
        lemma_sorted_by_id(all);
        assert(is_stable_sort_by_id(all, views(merged@)));
    }
    merged
}

/// In tasks ordered by number, the place of the first task numbered `id` or
/// above; the number of tasks if there is none.
pub fn first_at_least(list: &Vec<Todo>, id: usize) -> (k: usize)
    requires
        ordered_by_id(views(list@)),
    ensures
        k <= list.len(),
        forall|i: int| 0 <= i < k ==> (#[trigger] views(list@)[i]).id < id,
        forall|i: int| k <= i < list.len() ==> (#[trigger] views(list@)[i]).id >= id,
{
    let ghost all = views(list@);
    let mut low: usize = 0;
    let mut high: usize = list.len();
    while low < high
        invariant
            low <= high <= list.len(),
            all == views(list@),
            ordered_by_id(all),
            forall|i: int| 0 <= i < low ==> (#[trigger] all[i]).id < id,
            forall|i: int| high <= i < list.len() ==> (#[trigger] all[i]).id >= id,
        decreases high - low,
    {
        let mid = low + (high - low) / 2;
        assert(all[mid as int] == list@[mid as int]@);
        if list[mid].id() < id {
            assert forall|i: int| 0 <= i < mid + 1 implies (#[trigger] all[i]).id < id by {
                if i < mid {
                    assert(all[i].id <= all[mid as int].id);
                }
            }
            low = mid + 1;
        } else {
            assert forall|i: int| mid <= i < list.len() implies (#[trigger] all[i]).id >= id by {
                if i > mid {
                    assert(all[mid as int].id <= all[i].id);
                }
            }
            high = mid;
        }
    }
    low
}

} // verus!
