//! What holds of every store, whatever is done to it.
//!
//! The contracts in [`crate::todos`] say that each method computes the
//! function of the same name in [`crate::model`]; the laws here are stated of
//! those functions, and so hold of the methods.

use crate::csv::{
    csv_lines, flag_text, parse_csv, parse_flag, parse_id, parse_line, parse_lines, ParseError,
};
use crate::model::{
    fresh, ids, is_done, is_open, lacks_id, lemma_next_id_after, next_id_after, ordered_by_id,
    sorted_by_id, with_first_completed, Op, TodoView, TodosView,
};
use crate::order::{lemma_sorted_by_id, lemma_sorted_by_id_of_ordered, lemma_stable_sort_keeps};
use crate::text::{
    decimal, is_digit, is_first_index, is_not, lemma_decimal_round_trip,
    lemma_position, lines, position, split, strip_cr, without,
};
use vstd::prelude::*;

verus! {

/// Whatever is kept of a sequence comes from it.
pub proof fn lemma_filter_source<T>(list: Seq<T>, keep: spec_fn(T) -> bool, i: int) -> (j: int)
    requires
        0 <= i < list.filter(keep).len(),
    ensures
        0 <= j < list.len(),
        list[j] == list.filter(keep)[i],
        keep(list[j]),
{
    let kept = list.filter(keep);
    list.lemma_filter_pred(keep, i);
    assert(kept.contains(kept[i]));
    list.lemma_filter_contains_rev(keep, kept[i]);
    choose|j: int| 0 <= j < list.len() && list[j] == kept[i]
}

/// A sequence whose members all pass a test is kept whole.
pub proof fn lemma_filter_all<T>(list: Seq<T>, keep: spec_fn(T) -> bool)
    requires
        forall|i: int| 0 <= i < list.len() ==> keep(#[trigger] list[i]),
    ensures
        list.filter(keep) == list,
    decreases list.len(),
{
    if list.len() == 0 {
        reveal(Seq::filter);
    } else {
        let shorter = list.drop_last();
        assert(list =~= shorter.push(list.last()));
        lemma_filter_all(shorter, keep);
        shorter.lemma_filter_push(list.last(), keep);
    }
}

/// Leaving tasks out keeps the numbers apart from each other.
pub proof fn lemma_filter_keeps_distinct(s: TodosView, keep: spec_fn(TodoView) -> bool)
    requires
        s.ids_distinct(),
    ensures
        (TodosView { next_id: s.next_id, list: s.list.filter(keep) }).ids_distinct(),
    decreases s.list.len(),
{
    let kept = s.list.filter(keep);
    if s.list.len() == 0 {
        reveal(Seq::filter);
    } else {
        let x = s.list.last();
        let shorter = TodosView { next_id: s.next_id, list: s.list.drop_last() };
        assert(s.list =~= shorter.list.push(x));
        assert(shorter.ids_distinct()) by {
            assert forall|i: int, j: int| 0 <= i < j < shorter.list.len() implies (
            #[trigger] shorter.list[i]).id != (#[trigger] shorter.list[j]).id by {
                assert(s.list[i].id != s.list[j].id);
            }
        }
        lemma_filter_keeps_distinct(shorter, keep);
        shorter.list.lemma_filter_push(x, keep);
        let before = shorter.list.filter(keep);
        assert forall|i: int, j: int| 0 <= i < j < kept.len() implies (#[trigger] kept[i]).id != (
        #[trigger] kept[j]).id by {
            if j < before.len() {
                let inner = TodosView { next_id: s.next_id, list: before };
                assert(inner.list[i].id != inner.list[j].id);
            } else {
                let from = lemma_filter_source(shorter.list, keep, i);
                assert(s.list[from].id != s.list[s.list.len() - 1].id);
            }
        }
    }
}

/// Every change keeps the bound on the numbers, keeps the numbers apart if
/// they were, and never lowers the next number.
pub proof fn lemma_apply_keeps(s: TodosView, op: Op)
    requires
        s.wf(),
    ensures
        s.apply(op).wf(),
        s.ids_distinct() ==> s.apply(op).ids_distinct(),
        s.next_id <= s.apply(op).next_id,
{
    let after = s.apply(op);
    match op {
        Op::Add(texts) => {
            let added = fresh(s.next_id, texts);
            assert forall|i: int| 0 <= i < after.list.len() implies (#[trigger] after.list[i]).id
                < after.next_id by {
                if i < s.list.len() {
                    assert(after.list[i] == s.list[i]);
                } else {
                    assert(after.list[i] == added[i - s.list.len()]);
                }
            }
            if s.ids_distinct() {
                assert forall|i: int, j: int| 0 <= i < j < after.list.len() implies (
                #[trigger] after.list[i]).id != (#[trigger] after.list[j]).id by {
                    if j < s.list.len() {
                        assert(s.list[i].id != s.list[j].id);
                    } else if i < s.list.len() {
                        assert(s.list[i].id < s.next_id);
                        assert(after.list[j] == added[j - s.list.len()]);
                    } else {
                        assert(after.list[i] == added[i - s.list.len()]);
                        assert(after.list[j] == added[j - s.list.len()]);
                    }
                }
            }
        },
        Op::Remove(id) => {
            assert forall|i: int| 0 <= i < after.list.len() implies (#[trigger] after.list[i]).id
                < after.next_id by {
                let from = lemma_filter_source(s.list, lacks_id(id), i);
                assert(s.list[from].id < s.next_id);
            }
            if s.ids_distinct() {
                lemma_filter_keeps_distinct(s, lacks_id(id));
            }
        },
        Op::Complete(id) => {
            let sorted = sorted_by_id(s.list);
            lemma_sorted_by_id(s.list);
            lemma_stable_sort_keeps(s, sorted);
            let middle = TodosView { next_id: s.next_id, list: sorted };
            assert(after.list.len() == sorted.len());
            assert forall|i: int| 0 <= i < after.list.len() implies (#[trigger] after.list[i]).id
                == sorted[i].id by {}
            assert forall|i: int| 0 <= i < after.list.len() implies (#[trigger] after.list[i]).id
                < after.next_id by {
                assert(middle.list[i].id < middle.next_id);
            }
            if s.ids_distinct() {
                assert forall|i: int, j: int| 0 <= i < j < after.list.len() implies (
                #[trigger] after.list[i]).id != (#[trigger] after.list[j]).id by {
                    assert(middle.list[i].id != middle.list[j].id);
                }
            }
        },
        Op::SortById => {
            lemma_sorted_by_id(s.list);
            lemma_stable_sort_keeps(s, sorted_by_id(s.list));
        },
        Op::SortByIsComplete => {
            let open = s.list.filter(is_open());
            let done = s.list.filter(is_done());
            assert forall|i: int| 0 <= i < after.list.len() implies (#[trigger] after.list[i]).id
                < after.next_id by {
                if i < open.len() {
                    let from = lemma_filter_source(s.list, is_open(), i);
                    assert(s.list[from].id < s.next_id);
                } else {
                    let from = lemma_filter_source(s.list, is_done(), i - open.len());
                    assert(s.list[from].id < s.next_id);
                }
            }
            if s.ids_distinct() {
                lemma_filter_keeps_distinct(s, is_open());
                lemma_filter_keeps_distinct(s, is_done());
                let open_only = TodosView { next_id: s.next_id, list: open };
                let done_only = TodosView { next_id: s.next_id, list: done };
                assert forall|i: int, j: int| 0 <= i < j < after.list.len() implies (
                #[trigger] after.list[i]).id != (#[trigger] after.list[j]).id by {
                    if j < open.len() {
                        assert(open_only.list[i].id != open_only.list[j].id);
                    } else if i >= open.len() {
                        assert(done_only.list[i - open.len()].id != done_only.list[j
                            - open.len()].id);
                    } else {
                        let from_i = lemma_filter_source(s.list, is_open(), i);
                        let from_j = lemma_filter_source(s.list, is_done(), j - open.len());
                        if from_i < from_j {
                            assert(s.list[from_i].id != s.list[from_j].id);
                        } else if from_j < from_i {
                            assert(s.list[from_j].id != s.list[from_i].id);
                        }
                    }
                }
            }
        },
    }
}

/// The bound on the numbers holds after every run of changes, and the next
/// number never goes down in it.
pub proof fn law_changes_keep_the_bound(s: TodosView, ops: Seq<Op>)
    requires
        s.wf(),
    ensures
        s.apply_all(ops).wf(),
        s.next_id <= s.apply_all(ops).next_id,
    decreases ops.len(),
{
    if ops.len() > 0 {
        law_changes_keep_the_bound(s, ops.drop_last());
        lemma_apply_keeps(s.apply_all(ops.drop_last()), ops.last());
    }
}

/// Uniqueness: after any run of changes to a store whose tasks have numbers
/// all different, and so to the empty store, the numbers are all different.
pub proof fn law_ids_stay_distinct(s: TodosView, ops: Seq<Op>)
    requires
        s.wf(),
        s.ids_distinct(),
    ensures
        s.apply_all(ops).ids_distinct(),
        TodosView::empty().apply_all(ops).ids_distinct(),
    decreases ops.len(),
{
    let empty = TodosView::empty();
    if ops.len() > 0 {
        law_ids_stay_distinct(s, ops.drop_last());
        law_changes_keep_the_bound(s, ops.drop_last());
        law_changes_keep_the_bound(empty, ops.drop_last());
        lemma_apply_keeps(s.apply_all(ops.drop_last()), ops.last());
        lemma_apply_keeps(empty.apply_all(ops.drop_last()), ops.last());
    }
}

/// Monotonic numbers: the next number is greater than every number that was
/// in the store at any point of a run of changes, whether the task is still
/// there or has been removed since.
pub proof fn law_next_id_exceeds_every_id_given(s: TodosView, ops: Seq<Op>, upto: int, id: nat)
    requires
        s.wf(),
        0 <= upto <= ops.len(),
        s.apply_all(ops.take(upto)).contains_id(id),
    ensures
        id < s.apply_all(ops).next_id,
    decreases ops.len() - upto,
{
    if upto == ops.len() {
        assert(ops.take(upto) =~= ops);
        law_changes_keep_the_bound(s, ops);
    } else {
        let earlier = ops.drop_last();
        assert(earlier.take(upto) =~= ops.take(upto));
        law_next_id_exceeds_every_id_given(s, earlier, upto, id);
        law_changes_keep_the_bound(s, earlier);
        lemma_apply_keeps(s.apply_all(earlier), ops.last());
    }
}

/// A number that was given is not given again: once the tasks numbered `id`
/// are removed, no task added later has that number.
pub proof fn law_removed_id_is_not_reused(s: TodosView, id: nat, texts: Seq<Seq<char>>)
    requires
        s.wf(),
        s.contains_id(id),
    ensures
        !s.remove_todo(id).contains_id(id),
        !s.remove_todo(id).add_todos(texts).contains_id(id),
{
    let removed = s.remove_todo(id);
    let after = removed.add_todos(texts);
    assert forall|i: int| 0 <= i < removed.list.len() implies (#[trigger] removed.list[i]).id
        != id by {
        lemma_filter_source(s.list, lacks_id(id), i);
    }
    assert forall|i: int| 0 <= i < after.list.len() implies (#[trigger] after.list[i]).id != id by {
        if i < removed.list.len() {
            assert(after.list[i] == removed.list[i]);
        } else {
            assert(after.list[i] == fresh(s.next_id, texts)[i - removed.list.len()]);
        }
    }
}

/// Marking a number that no task has only sorts the store; a store that is
/// ordered by number already is left as it is.
pub proof fn law_complete_absent_id(s: TodosView, id: nat)
    requires
        !s.contains_id(id),
    ensures
        s.complete_todo(id) == s.sort_by_id(),
        ordered_by_id(s.list) ==> s.complete_todo(id) == s,
{
    let sorted = sorted_by_id(s.list);
    lemma_sorted_by_id(s.list);
    lemma_stable_sort_keeps(s, sorted);
    let middle = TodosView { next_id: s.next_id, list: sorted };
    assert(!middle.contains_id(id));
    let numbers = ids(sorted);
    lemma_position(numbers, id);
    let k = position(numbers, id);
    if k < sorted.len() {
        assert(middle.list[k].id == id);
    }
    assert(with_first_completed(sorted, id) == sorted);
    if ordered_by_id(s.list) {
        lemma_sorted_by_id_of_ordered(s.list);
    }
}

/// Sorting by whether tasks are done is stable: the result holds first the
/// tasks still to do, and both they and the tasks done are in the order they
/// had.
pub proof fn law_sort_by_is_complete_is_stable(s: TodosView)
    ensures
        s.sort_by_is_complete().incomplete() == s.incomplete(),
        s.sort_by_is_complete().completed() == s.completed(),
        forall|i: int, j: int|
            0 <= i < j < s.sort_by_is_complete().list.len() && (
            #[trigger] s.sort_by_is_complete().list[i]).is_complete ==> (
            #[trigger] s.sort_by_is_complete().list[j]).is_complete,
{
    let open = s.list.filter(is_open());
    let done = s.list.filter(is_done());
    let after = s.sort_by_is_complete();
    assert forall|i: int| 0 <= i < open.len() implies is_open()(#[trigger] open[i]) by {
        lemma_filter_source(s.list, is_open(), i);
    }
    assert forall|i: int| 0 <= i < done.len() implies is_done()(#[trigger] done[i]) by {
        lemma_filter_source(s.list, is_done(), i);
    }
    Seq::filter_distributes_over_add(open, done, is_open());
    Seq::filter_distributes_over_add(open, done, is_done());
    lemma_filter_all(open, is_open());
    lemma_filter_all(done, is_done());
    lemma_filter_none(open, is_done());
    lemma_filter_none(done, is_open());
    assert(open + Seq::<TodoView>::empty() =~= open);
    assert(Seq::<TodoView>::empty() + done =~= done);
    assert forall|i: int, j: int|
        0 <= i < j < after.list.len() && (#[trigger] after.list[i]).is_complete implies (
    #[trigger] after.list[j]).is_complete by {
        if i < open.len() {
            assert(is_open()(open[i]));
        }
        assert(is_done()(done[j - open.len()]));
    }
}

/// A sequence none of whose members passes a test is left out whole.
pub proof fn lemma_filter_none<T>(list: Seq<T>, keep: spec_fn(T) -> bool)
    requires
        forall|i: int| 0 <= i < list.len() ==> !keep(#[trigger] list[i]),
    ensures
        list.filter(keep) == Seq::<T>::empty(),
{
    if list.filter(keep).len() > 0 {
        lemma_filter_source(list, keep, 0);
    }
    assert(list.filter(keep) =~= Seq::<T>::empty());
}

/// Whether a text holds none of the characters that the CSV format gives a
/// meaning to: the comma, the quote and the line feed.
pub open spec fn plain(text: Seq<char>) -> bool {
    forall|i: int|
        0 <= i < text.len() ==> {
            let c = #[trigger] text[i];
            c != ',' && c != '"' && c != '\n'
        }
}

/// Whether a store is one that its CSV text gives back: every text is
/// plain, and the next number is the one that reading derives, one above the
/// greatest number held, or zero for no tasks.
pub open spec fn reads_back(s: TodosView) -> bool {
    &&& s.next_id == next_id_after(s.list)
    &&& s.next_id <= usize::MAX
    &&& forall|i: int| 0 <= i < s.list.len() ==> plain((#[trigger] s.list[i]).text)
}

/// The numeral of a number that fits in `usize` reads as that number.
pub proof fn lemma_parse_id_of_decimal(n: nat)
    requires
        n <= usize::MAX,
    ensures
        parse_id(decimal(n)) == Some(n),
{
    lemma_decimal_round_trip(n);
    assert(is_digit(decimal(n)[0]));
}

/// The word of a flag reads as that flag.
pub proof fn lemma_parse_flag_of_text(flag: bool)
    ensures
        parse_flag(flag_text(flag)) == Some(flag),
{
    assert(flag_text(true).len() != flag_text(false).len());
}

/// The record of a task with a plain text has three fields: the numeral, the
/// word of the flag, and the text between quotes.
pub proof fn lemma_split_record(t: TodoView)
    requires
        plain(t.text),
    ensures
        split(t.to_csv_record(), ',') == seq![
            decimal(t.id),
            flag_text(t.is_complete),
            seq!['"'] + t.text + seq!['"'],
        ],
{
    let numeral = decimal(t.id);
    let word = flag_text(t.is_complete);
    let quoted = seq!['"'] + t.text + seq!['"'];
    let record = t.to_csv_record();
    lemma_decimal_round_trip(t.id);
    // the first comma stands behind the numeral
    assert forall|j: int| 0 <= j < numeral.len() implies record[j] != ',' by {
        assert(record[j] == numeral[j]);
        assert(is_digit(numeral[j]));
    }
    assert(record[numeral.len() as int] == ',');
    assert(is_first_index(record, ',', numeral.len() as int));
    lemma_position(record, ',');
    assert(record.take(numeral.len() as int) =~= numeral);
    let rest1 = record.skip(numeral.len() as int + 1);
    assert(rest1 =~= word + seq![',', '"'] + t.text + seq!['"']);
    // the second one behind the word
    assert forall|j: int| 0 <= j < word.len() implies rest1[j] != ',' by {
        assert(rest1[j] == word[j]);
    }
    assert(rest1[word.len() as int] == ',');
    assert(is_first_index(rest1, ',', word.len() as int));
    lemma_position(rest1, ',');
    assert(rest1.take(word.len() as int) =~= word);
    let rest2 = rest1.skip(word.len() as int + 1);
    assert(rest2 =~= quoted);
    // and there is no third
    assert forall|j: int| 0 <= j < quoted.len() implies quoted[j] != ',' by {
        if 0 < j < quoted.len() - 1 {
            assert(quoted[j] == t.text[j - 1]);
        }
    }
    assert(is_first_index(quoted, ',', quoted.len() as int));
    lemma_position(quoted, ',');
    assert(split(quoted, ',') == seq![quoted]);
    assert(split(rest1, ',') == seq![word] + split(rest2, ','));
    assert(split(record, ',') == seq![numeral] + split(rest1, ','));
    assert(split(record, ',') =~= seq![numeral, word, quoted]);
}

/// The record of a task reads as that task, if its text is plain and its
/// number fits in `usize`.
pub proof fn lemma_parse_line_of_record(t: TodoView)
    requires
        plain(t.text),
        t.id <= usize::MAX,
    ensures
        parse_line(t.to_csv_record()) == Ok::<TodoView, ParseError>(t),
{
    let quoted = seq!['"'] + t.text + seq!['"'];
    lemma_split_record(t);
    lemma_parse_id_of_decimal(t.id);
    lemma_parse_flag_of_text(t.is_complete);
    let keep = is_not('"');
    Seq::filter_distributes_over_add(seq!['"'] + t.text, seq!['"'], keep);
    Seq::filter_distributes_over_add(seq!['"'], t.text, keep);
    lemma_filter_none(seq!['"'], keep);
    assert forall|i: int| 0 <= i < t.text.len() implies keep(#[trigger] t.text[i]) by {}
    lemma_filter_all(t.text, keep);
    assert(without(quoted, '"') =~= t.text);
    let fields = split(t.to_csv_record(), ',');
    assert(fields.len() == 3);
    assert(fields[0] == decimal(t.id));
    assert(fields[1] == flag_text(t.is_complete));
    assert(fields[2] == quoted);
}

/// The CSV text of tasks with plain texts and numbers that fit in `usize`
/// reads as those tasks.
pub proof fn lemma_parse_lines_of_csv(list: Seq<TodoView>)
    requires
        forall|i: int| 0 <= i < list.len() ==> plain((#[trigger] list[i]).text),
        forall|i: int| 0 <= i < list.len() ==> (#[trigger] list[i]).id <= usize::MAX,
    ensures
        parse_lines(lines(csv_lines(list).flatten())) == Ok::<
            Seq<TodoView>,
            ParseError,
        >(list),
    decreases list.len(),
{
    let text = csv_lines(list).flatten();
    if list.len() == 0 {
        assert(text =~= Seq::<char>::empty());
        assert(list =~= Seq::<TodoView>::empty());
    } else {
        let t = list[0];
        let rest = list.skip(1);
        let record = t.to_csv_record();
        let tail = csv_lines(rest).flatten();
        assert(csv_lines(list).drop_first() =~= csv_lines(rest));
        assert(text == t.to_csv_line() + tail);
        lemma_decimal_round_trip(t.id);
        assert forall|j: int| 0 <= j < record.len() implies record[j] != '\n' by {
            let numeral = decimal(t.id);
            let word = flag_text(t.is_complete);
            if j < numeral.len() {
                assert(record[j] == numeral[j]);
                assert(is_digit(numeral[j]));
            } else if j == numeral.len() {
            } else if j < numeral.len() + 1 + word.len() {
                assert(record[j] == word[j - numeral.len() - 1]);
            } else if j < numeral.len() + 1 + word.len() + 2 {
            } else if j < record.len() - 1 {
                assert(record[j] == t.text[j - numeral.len() - 1 - word.len() - 2]);
            } else {
            }
        }
        assert forall|j: int| 0 <= j < record.len() implies text[j] != '\n' by {
            assert(text[j] == record[j]);
        }
        assert(text[record.len() as int] == '\n');
        assert(is_first_index(text, '\n', record.len() as int));
        lemma_position(text, '\n');
        assert(text.take(record.len() as int) =~= record);
        assert(record.last() == '"');
        assert(strip_cr(record) == record);
        assert(text.skip(record.len() as int + 1) =~= tail);
        assert(lines(text) == seq![record] + lines(tail));
        assert(lines(text)[0] == record);
        assert(lines(text).skip(1) =~= lines(tail));
        lemma_parse_line_of_record(t);
        assert forall|i: int| 0 <= i < rest.len() implies plain((#[trigger] rest[i]).text) by {
            assert(rest[i] == list[i + 1]);
        }
        assert forall|i: int| 0 <= i < rest.len() implies (#[trigger] rest[i]).id
            <= usize::MAX by {
            assert(rest[i] == list[i + 1]);
        }
        lemma_parse_lines_of_csv(rest);
        assert(seq![t] + rest =~= list);
    }
}

/// Round trip: the CSV text of a store reads as that store, with the same
/// tasks in the same order and the same next number.
///
/// This is stated of the stores that can be read back at all: nothing is
/// escaped in the CSV text, so the texts must be plain, and reading derives
/// the next number from the tasks, so it must be the one derived.
pub proof fn law_csv_round_trip(s: TodosView)
    requires
        reads_back(s),
    ensures
        parse_csv(s.to_csv()) == Ok::<TodosView, ParseError>(s),
{
    lemma_next_id_after(s.list);
    lemma_parse_lines_of_csv(s.list);
}

} // verus!
