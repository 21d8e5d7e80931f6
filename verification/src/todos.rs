//! Tasks and the store that holds and numbers them.

use crate::csv::{
    csv_lines, flag_text, parse_csv, parse_line, parse_lines, read_flag, read_id, shown,
    ParseError,
};
use crate::model::{
    fresh, ids, is_done, is_open, is_stable_sort_by_id, lacks_id, lemma_next_id_after, next_id_after,
    TodoView, TodosView,
};
use crate::order::{first_at_least, lemma_sorted_by_id, lemma_stable_sort_keeps, sort_by_id};
use crate::text::{
    chars_of, find, is_first_index, lemma_position, lines, push_decimal, push_without,
    split, strip_cr, without,
};
use vstd::prelude::*;
use vstd::string::StringExecFns;

verus! {

/// One task: its number, whether it is done, and its text.
#[derive(Debug)]
pub struct Todo {
    id: usize,
    is_complete: bool,
    text: String,
}

impl View for Todo {
    type V = TodoView;

    closed spec fn view(&self) -> TodoView {
        TodoView { id: self.id as nat, is_complete: self.is_complete, text: self.text@ }
    }
}

impl Todo {
    /// The number of the task.
    pub fn id(&self) -> (id: usize)
        ensures
            id == self@.id,
    {
        self.id
    }

    /// Whether the task is done.
    pub fn is_complete(&self) -> (flag: bool)
        ensures
            flag == self@.is_complete,
    {
        self.is_complete
    }

    /// The text of the task.
    pub fn text(&self) -> (text: &str)
        ensures
            text@ == self@.text,
    {
        self.text.as_str()
    }

    /// Reads the record in `s[from..to]`.
    fn from_record(s: &Vec<char>, from: usize, to: usize) -> (r: Result<Todo, ParseError>)
        requires
            from <= to <= s.len(),
        ensures
            r matches Ok(t) ==> parse_line(s@.subrange(from as int, to as int)) == Ok::<
                TodoView,
                ParseError,
            >(t@),
            r matches Err(e) ==> parse_line(s@.subrange(from as int, to as int)) == Err::<
                TodoView,
                ParseError,
            >(e),
    {
        let ghost line = s@.subrange(from as int, to as int);
        let ghost fields = split(line, ',');
        let end0 = find(s, from, to, ',');
        proof {
            assert(line.take(end0 - from) =~= s@.subrange(from as int, end0 as int));
        }
        let id = match read_id(s, from, end0) {
            Some(id) => id,
            None => {
                return Err(ParseError::InvalidId);
            },
        };
        if end0 == to {
            return Ok(Todo { id, is_complete: false, text: String::new() });
        }
        let ghost rest1 = line.skip(end0 - from + 1);
        let end1 = find(s, end0 + 1, to, ',');
        proof {
            assert(rest1 =~= s@.subrange(end0 + 1, to as int));
            assert(rest1.take(end1 - end0 - 1) =~= s@.subrange(end0 + 1, end1 as int));
            assert(fields == seq![line.take(end0 - from)] + split(rest1, ','));
        }
        let is_complete = match read_flag(s, end0 + 1, end1) {
            Some(flag) => flag,
            None => {
                return Err(ParseError::InvalidFlag);
            },
        };
        if end1 == to {
            return Ok(Todo { id, is_complete, text: String::new() });
        }
        let ghost rest2 = rest1.skip(end1 - end0);
        let end2 = find(s, end1 + 1, to, ',');
        proof {
            assert(rest2 =~= s@.subrange(end1 + 1, to as int));
            assert(rest2.take(end2 - end1 - 1) =~= s@.subrange(end1 + 1, end2 as int));
            assert(split(rest1, ',') == seq![rest1.take(end1 - end0 - 1)] + split(rest2, ','));
        }
        if end2 < to {
            proof {
                let rest3 = rest2.skip(end2 - end1);
                assert(split(rest2, ',') == seq![rest2.take(end2 - end1 - 1)] + split(
                    rest3,
                    ',',
                ));
                assert(split(rest3, ',').len() >= 1);
            }
            return Err(ParseError::TooManyColumns);
        }
        let mut text = String::new();
        push_without(&mut text, s, end1 + 1, end2, '"');
        proof {
            assert(split(rest2, ',') == seq![rest2]);
            assert(text@ =~= without(rest2, '"'));
        }
        Ok(Todo { id, is_complete, text })
    }

    /// Reads one record, `id,is_complete,"text"`, without its line ending.
    ///
    /// The fields are read in order and the first one at fault decides the
    /// error. Fields that are missing at the end keep their defaults: not
    /// done, and an empty text.
    pub fn from_csv_line(csv_line: &str) -> (r: Result<Todo, ParseError>)
        ensures
            r matches Ok(t) ==> parse_line(csv_line@) == Ok::<TodoView, ParseError>(t@),
            r matches Err(e) ==> parse_line(csv_line@) == Err::<TodoView, ParseError>(e),
    {
        let chars = chars_of(csv_line);
        assert(chars@.subrange(0, chars.len() as int) =~= csv_line@);
        Todo::from_record(&chars, 0, chars.len())
    }

    /// Appends the line that the task is kept as.
    fn push_csv_line(&self, out: &mut String)
        ensures
            final(out)@ == old(out)@ + self@.to_csv_line(),
    {
        proof {
            reveal_strlit("true");
            reveal_strlit("false");
            reveal_strlit(",\"");
            assert("true"@ =~= flag_text(true));
            assert("false"@ =~= flag_text(false));
            assert(",\""@ =~= seq![',', '"']);
        }
        push_decimal(out, self.id);
        out.push(',');
        if self.is_complete {
            out.append("true");
        } else {
            out.append("false");
        }
        out.append(",\"");
        out.append(self.text.as_str());
        out.push('"');
        out.push('\n');
        assert(out@ =~= old(out)@ + self@.to_csv_line());
    }

    /// The line that the task is kept as: `id,is_complete,"text"` and a line
    /// feed. The text is written as it is, with nothing escaped.
    pub fn to_csv_line(&self) -> (line: String)
        ensures
            line@ == self@.to_csv_line(),
    {
        let mut line = String::new();
        self.push_csv_line(&mut line);
        assert(line@ =~= self@.to_csv_line());
        line
    }

    /// Appends the two lines that the task is shown as.
    fn push_display(&self, out: &mut String)
        ensures
            final(out)@ == old(out)@ + self@.display(),
    {
        proof {
            reveal_strlit(" is ");
            reveal_strlit("done");
            reveal_strlit("not done");
            assert(" is "@ =~= seq![' ', 'i', 's', ' ']);
            assert("done"@ =~= seq!['d', 'o', 'n', 'e']);
            assert("not done"@ =~= seq!['n', 'o', 't', ' ', 'd', 'o', 'n', 'e']);
        }
        out.push('#');
        push_decimal(out, self.id);
        out.append(" is ");
        if self.is_complete {
            out.append("done");
        } else {
            out.append("not done");
        }
        out.push('\n');
        out.append(self.text.as_str());
        out.push('\n');
        assert(out@ =~= old(out)@ + self@.display());
    }

    /// The task as it is shown: `#id is done` or `#id is not done`, then the
    /// text, each on a line of its own.
    pub fn display(&self) -> (shown: String)
        ensures
            shown@ == self@.display(),
    {
        let mut shown = String::new();
        self.push_display(&mut shown);
        assert(shown@ =~= self@.display());
        shown
    }
}

/// The tasks of `list` as values.
pub open spec fn views(list: Seq<Todo>) -> Seq<TodoView> {
    Seq::new(list.len(), |i: int| list[i]@)
}

/// The tasks in their order, and the number for the next new task.
///
/// The next number is always greater than the number of every task held, so
/// that a number, once given, is not given again.
#[derive(Debug)]
pub struct Todos {
    next_id: usize,
    list: Vec<Todo>,
}

impl View for Todos {
    type V = TodosView;

    closed spec fn view(&self) -> TodosView {
        TodosView { next_id: self.next_id as nat, list: views(self.list@) }
    }
}

impl Default for Todos {
    /// The store with no tasks that numbers from zero.
    fn default() -> (todos: Todos)
        ensures
            todos@ == TodosView::empty(),
    {
        let todos = Todos { next_id: 0, list: Vec::new() };
        assert(todos@.list =~= Seq::<TodoView>::empty());
        todos
    }
}

impl Todos {
    /// What holds of every store at all times: the next number is above the
    /// number of every task held.
    #[verifier::type_invariant]
    pub open spec fn well_formed(&self) -> bool {
        self@.wf()
    }

    /// Moves the tasks out of the store, which is left empty.
    fn take_list(&mut self) -> (list: Vec<Todo>)
        ensures
            list == old(self).list,
            final(self).next_id == old(self).next_id,
            final(self).list@ == Seq::<Todo>::empty(),
    {
        let mut list: Vec<Todo> = Vec::new();
        core::mem::swap(&mut list, &mut self.list);
        list
    }

    /// The number that the next new task will get.
    pub fn next_id(&self) -> (next_id: usize)
        ensures
            next_id == self@.next_id,
            self@.wf(),
    {
        proof {
            use_type_invariant(self);
        }
        self.next_id
    }

    /// The tasks, in their order.
    pub fn list(&self) -> (list: &Vec<Todo>)
        ensures
            views(list@) == self@.list,
    {
        &self.list
    }

    /// Reads a store from CSV text: one record on each line, as
    /// [`Todo::from_csv_line`] reads it. A line ends at a line feed, which a
    /// carriage return may precede, or at the end of the text.
    ///
    /// The error is that of the first record at fault. The next number is one
    /// above the greatest number read, or zero for no records; a task
    /// numbered `usize::MAX` leaves no next number, and the text is refused.
    pub fn from_csv(csv: &str) -> (r: Result<Todos, ParseError>)
        ensures
            r matches Ok(todos) ==> parse_csv(csv@) == Ok::<TodosView, ParseError>(todos@)
                && todos@.wf(),
            r matches Err(e) ==> parse_csv(csv@) == Err::<TodosView, ParseError>(e),
    {
        let chars = chars_of(csv);
        let mut list: Vec<Todo> = Vec::new();
        let mut next_id: usize = 0;
        // whether a task numbered usize::MAX was read
        let mut full = false;
        let mut start: usize = 0;
        proof {
            assert(chars@.skip(0) =~= chars@);
            assert(views(list@) =~= Seq::<TodoView>::empty());
            assert(behind(views(list@), parse_lines(lines(chars@))) == parse_lines(lines(chars@)))
                by {
                match parse_lines(lines(chars@)) {
                    Ok(more) => {
                        assert(views(list@) + more =~= more);
                    },
                    Err(_) => {},
                }
            }
        }
        while start < chars.len()
            invariant
                start <= chars.len(),
                chars@ == csv@,
                parse_lines(lines(chars@)) == behind(
                    views(list@),
                    parse_lines(lines(chars@.skip(start as int))),
                ),
                !full ==> next_id == next_id_after(views(list@)),
                full ==> next_id_after(views(list@)) > usize::MAX,
            decreases chars.len() - start,
        {
            let ghost rest = chars@.skip(start as int);
            let ghost read = views(list@);
            let feed = find(&chars, start, chars.len(), '\n');
            let mut end = feed;
            if feed < chars.len() && feed > start && chars[feed - 1] == '\r' {
                end = feed - 1;
            }
            let ghost line = chars@.subrange(start as int, end as int);
            let ghost after = if feed < chars.len() {
                chars@.skip(feed + 1)
            } else {
                Seq::<char>::empty()
            };
            proof {
                assert(chars@.subrange(start as int, chars.len() as int) =~= rest);
                if feed < chars.len() {
                    assert(rest.take(feed - start) =~= chars@.subrange(start as int, feed as int));
                    assert(line =~= strip_cr(rest.take(feed - start)));
                    assert(rest.skip(feed - start + 1) =~= after);
                    assert(lines(rest) == seq![line] + lines(after));
                } else {
                    assert(line =~= rest);
                    assert(lines(rest) == seq![line]);
                    assert(chars@.skip(chars.len() as int) =~= after);
                }
                assert(lines(rest)[0] == line);
                assert(lines(rest).skip(1) =~= lines(after));
            }
            let todo = match Todo::from_record(&chars, start, end) {
                Ok(todo) => todo,
                Err(e) => {
                    return Err(e);
                },
            };
            proof {
                match parse_lines(lines(after)) {
                    Ok(more) => {
                        assert(read + (seq![todo@] + more) =~= read.push(todo@) + more);
                    },
                    Err(_) => {},
                }
                assert(read.push(todo@).drop_last() =~= read);
            }
            if todo.id == usize::MAX {
                full = true;
            } else if todo.id >= next_id {
                next_id = todo.id + 1;
            }
            list.push(todo);
            assert(views(list@) =~= read.push(todo@));
            start = if feed < chars.len() {
                feed + 1
            } else {
                feed
            };
        }
        proof {
            assert(chars@.skip(start as int) =~= Seq::<char>::empty());
            assert(views(list@) + Seq::<TodoView>::empty() =~= views(list@));
            lemma_next_id_after(views(list@));
        }
        if full {
            return Err(ParseError::IdOutOfRange);
        }
        Ok(Todos { next_id, list })
    }

    /// The CSV text of the store: the line of each task, in order, as
    /// [`Todo::to_csv_line`] writes it. There is no header.
    pub fn to_csv(&self) -> (csv: String)
        ensures
            csv@ == self@.to_csv(),
    {
        let ghost all = self@.list;
        let mut csv = String::new();
        let mut i: usize = 0;
        while i < self.list.len()
            invariant
                i <= self.list.len(),
                all == self@.list,
                csv@ == csv_lines(all.take(i as int)).flatten(),
            decreases self.list.len() - i,
        {
            let ghost written = csv_lines(all.take(i as int));
            self.list[i].push_csv_line(&mut csv);
            proof {
                assert(csv_lines(all.take(i + 1)) =~= written.push(all[i as int].to_csv_line()));
                written.lemma_flatten_push(all[i as int].to_csv_line());
            }
            i += 1;
        }
        proof {
            assert(all.take(all.len() as int) =~= all);
        }
        csv
    }

    /// The store as it is shown: each task as [`Todo::display`] shows it,
    /// followed by an empty line.
    pub fn display(&self) -> (text: String)
        ensures
            text@ == self@.display(),
    {
        let mut text = String::new();
        push_shown(&mut text, &self.list);
        assert(text@ =~= self@.display());
        text
    }

    /// Adds one task for each text, in the order given. Each takes the next
    /// number and is not done.
    pub fn add_todos(&mut self, todos: Vec<String>)
        requires
            old(self)@.next_id + todos.len() <= usize::MAX,
        ensures
            final(self)@ == old(self)@.add_todos(todos.deep_view()),
            final(self)@.wf(),
    {
        proof {
            use_type_invariant(&*self);
        }
        let ghost texts = todos.deep_view();
        let mut list = self.take_list();
        let mut next_id = self.next_id;
        for text in it: todos
            invariant
                it.seq().len() == texts.len(),
                forall|i: int| 0 <= i < texts.len() ==> (#[trigger] it.seq()[i])@ == texts[i],
                old(self)@.next_id + texts.len() <= usize::MAX,
                next_id == old(self)@.next_id + it.index(),
                views(list@) == old(self)@.list + fresh(
                    old(self)@.next_id,
                    texts.take(it.index() as int),
                ),
        {
            let ghost before = views(list@);
            list.push(Todo { id: next_id, is_complete: false, text });
            next_id = next_id + 1;
            proof {
                assert(views(list@) =~= before.push(
                    TodoView { id: (next_id - 1) as nat, is_complete: false, text: text@ },
                ));
                assert(views(list@) =~= old(self)@.list + fresh(
                    old(self)@.next_id,
                    texts.take(it.index() + 1),
                ));
            }
        }
        self.next_id = next_id;
        self.list = list;
        assert(texts.take(texts.len() as int) =~= texts);
    }

    /// Removes every task numbered `todo_id`; the others keep their order.
    /// Nothing changes if no task has that number.
    pub fn remove_todo(&mut self, todo_id: usize)
        ensures
            final(self)@ == old(self)@.remove_todo(todo_id as nat),
            final(self)@.wf(),
    {
        proof {
            use_type_invariant(&*self);
        }
        let list = self.take_list();
        let ghost all = views(list@);
        let mut kept: Vec<Todo> = Vec::new();
        for todo in it: list
            invariant
                views(it.seq()) == all,
                views(kept@) == all.take(it.index() as int).filter(lacks_id(todo_id as nat)),
        {
            proof {
                let seen = all.take(it.index() as int);
                assert(all.take(it.index() + 1) =~= seen.push(todo@));
                seen.lemma_filter_push(todo@, lacks_id(todo_id as nat));
            }
            let ghost before = views(kept@);
            if todo.id != todo_id {
                kept.push(todo);
                assert(views(kept@) =~= before.push(todo@));
            }
        }
        proof {
            assert(all.take(all.len() as int) =~= all);
            assert(all == old(self)@.list);
            lemma_filter_keeps_wf(old(self)@, lacks_id(todo_id as nat));
        }
        self.list = kept;
    }

    /// Sorts the tasks by whether they are done, stably: those still to do
    /// come first, and within each group the order stays.
    pub fn sort_by_is_complete(&mut self)
        ensures
            final(self)@ == old(self)@.sort_by_is_complete(),
            final(self)@.wf(),
    {
        proof {
            use_type_invariant(&*self);
        }
        let list = self.take_list();
        let ghost all = views(list@);
        let mut open: Vec<Todo> = Vec::new();
        let mut done: Vec<Todo> = Vec::new();
        for todo in it: list
            invariant
                views(it.seq()) == all,
                views(open@) == all.take(it.index() as int).filter(is_open()),
                views(done@) == all.take(it.index() as int).filter(is_done()),
        {
            proof {
                let seen = all.take(it.index() as int);
                assert(all.take(it.index() + 1) =~= seen.push(todo@));
                seen.lemma_filter_push(todo@, is_open());
                seen.lemma_filter_push(todo@, is_done());
            }
            let ghost open_before = views(open@);
            let ghost done_before = views(done@);
            if todo.is_complete {
                done.push(todo);
                assert(views(done@) =~= done_before.push(todo@));
            } else {
                open.push(todo);
                assert(views(open@) =~= open_before.push(todo@));
            }
        }
        let ghost open_views = views(open@);
        let ghost done_views = views(done@);
        open.append(&mut done);
        proof {
            assert(all.take(all.len() as int) =~= all);
            assert(views(open@) =~= open_views + done_views);
            lemma_filter_keeps_wf(old(self)@, is_open());
            lemma_filter_keeps_wf(old(self)@, is_done());
            let sorted = old(self)@.sort_by_is_complete();
            assert(all == old(self)@.list);
            assert forall|i: int| 0 <= i < sorted.list.len() implies (#[trigger] sorted.list[i]).id
                < sorted.next_id by {
                if i < open_views.len() {
                    assert(sorted.list[i] == open_views[i]);
                } else {
                    assert(sorted.list[i] == done_views[i - open_views.len()]);
                }
            }
        }
        self.list = open;
    }

    /// Sorts the tasks by number, stably: tasks of one number keep their
    /// order.
    pub fn sort_by_id(&mut self)
        ensures
            final(self)@ == old(self)@.sort_by_id(),
            is_stable_sort_by_id(old(self)@.list, final(self)@.list),
            final(self)@.wf(),
    {
        proof {
            use_type_invariant(&*self);
        }
        let list = self.take_list();
        let sorted = sort_by_id(list);
        proof {
            lemma_sorted_by_id(old(self)@.list);
            lemma_stable_sort_keeps(old(self)@, views(sorted@));
        }
        self.list = sorted;
    }

    /// Sorts the tasks by number, then marks the first task numbered
    /// `todo_id` as done. Without such a task the store is sorted and nothing
    /// else changes.
    pub fn complete_todo(&mut self, todo_id: usize)
        ensures
            final(self)@ == old(self)@.complete_todo(todo_id as nat),
            final(self)@.wf(),
    {
        proof {
            use_type_invariant(&*self);
        }
        let list = self.take_list();
        let mut list = sort_by_id(list);
        let ghost sorted = views(list@);
        proof {
            lemma_sorted_by_id(old(self)@.list);
            lemma_stable_sort_keeps(old(self)@, sorted);
            assert((TodosView { next_id: old(self)@.next_id, list: sorted }).wf());
        }
        let k = first_at_least(&list, todo_id);
        let found = k < list.len() && list[k].id == todo_id;
        proof {
            let numbers = ids(sorted);
            lemma_position(numbers, todo_id as nat);
            if found {
                assert(sorted[k as int] == list@[k as int]@);
                assert forall|j: int| 0 <= j < k implies numbers[j] != todo_id as nat by {
                    assert(sorted[j].id < todo_id);
                }
                assert(is_first_index(numbers, todo_id as nat, k as int));
            } else {
                assert forall|j: int| 0 <= j < numbers.len() implies numbers[j] != todo_id as nat by {
                    if j < k {
                        assert(sorted[j].id < todo_id);
                    } else {
                        assert(sorted[j].id >= todo_id);
                        assert(sorted[k as int] == list@[k as int]@);
                        assert(sorted[k as int].id <= sorted[j].id);
                    }
                }
                assert(is_first_index(numbers, todo_id as nat, numbers.len() as int));
            }
        }
        if found {
            list[k].is_complete = true;
            proof {
                assert(views(list@) =~= sorted.update(k as int, sorted[k as int].completed()));
                assert forall|i: int| 0 <= i < list.len() implies (#[trigger] views(list@)[i]).id
                    < self.next_id by {
                    assert(views(list@)[i].id == sorted[i].id);
                }
            }
        }
        self.list = list;
    }

    /// The tasks that are done, in their order.
    pub fn all_completed_todos(&self) -> (found: Vec<&Todo>)
        ensures
            views_of_refs(found@) == self@.completed(),
    {
        self.select(true)
    }

    /// The tasks that are still to do, in their order.
    pub fn all_incomplete_todos(&self) -> (found: Vec<&Todo>)
        ensures
            views_of_refs(found@) == self@.incomplete(),
    {
        self.select(false)
    }

    /// The tasks whose flag is `done`, in their order.
    fn select(&self, done: bool) -> (found: Vec<&Todo>)
        ensures
            views_of_refs(found@) == self@.list.filter(
                if done {
                    is_done()
                } else {
                    is_open()
                },
            ),
    {
        let ghost wanted = if done {
            is_done()
        } else {
            is_open()
        };
        let ghost all = self@.list;
        let mut found: Vec<&Todo> = Vec::new();
        let mut i: usize = 0;
        while i < self.list.len()
            invariant
                i <= self.list.len(),
                all == self@.list,
                wanted == if done {
                    is_done()
                } else {
                    is_open()
                },
                views_of_refs(found@) == all.take(i as int).filter(wanted),
            decreases self.list.len() - i,
        {
            let todo = &self.list[i];
            proof {
                let seen = all.take(i as int);
                assert(all.take(i + 1) =~= seen.push(todo@));
                seen.lemma_filter_push(todo@, wanted);
            }
            let ghost before = views_of_refs(found@);
            if todo.is_complete == done {
                found.push(todo);
                assert(views_of_refs(found@) =~= before.push(todo@));
            }
            i += 1;
        }
        proof {
            assert(all.take(all.len() as int) =~= all);
        }
        found
    }
}

/// What was read so far, followed by what the rest of the text gives.
spec fn behind(
    read: Seq<TodoView>,
    rest: Result<Seq<TodoView>, ParseError>,
) -> Result<Seq<TodoView>, ParseError> {
    match rest {
        Ok(more) => Ok(read + more),
        Err(e) => Err(e),
    }
}

/// Appends the tasks as they are shown, an empty line after each.
pub fn push_shown(out: &mut String, list: &Vec<Todo>)
    ensures
        final(out)@ == old(out)@ + shown(views(list@)),
{
    let ghost all = views(list@);
    let mut i: usize = 0;
    proof {
        assert(all.take(0) =~= Seq::<TodoView>::empty());
        assert(shown(all.take(0)) =~= Seq::<char>::empty());
        assert(out@ =~= old(out)@ + shown(all.take(0)));
    }
    while i < list.len()
        invariant
            i <= list.len(),
            all == views(list@),
            out@ == old(out)@ + shown(all.take(i as int)),
        decreases list.len() - i,
    {
        let ghost paragraphs = Seq::new(i as nat, |k: int| all[k].display().push('\n'));
        let ghost before = out@;
        list[i].push_display(out);
        out.push('\n');
        proof {
            let paragraph = all[i as int].display().push('\n');
            assert(Seq::new(all.take(i as int).len(), |k: int| all.take(i as int)[k].display().push('\n'))
                =~= paragraphs);
            assert(Seq::new(
                all.take(i + 1).len(),
                |k: int| all.take(i + 1)[k].display().push('\n'),
            ) =~= paragraphs.push(paragraph));
            paragraphs.lemma_flatten_push(paragraph);
            assert(out@ =~= before + paragraph);
            assert(out@ =~= old(out)@ + shown(all.take(i + 1)));
        }
        i += 1;
    }
    proof {
        assert(all.take(all.len() as int) =~= all);
    }
}

/// The tasks as they are shown, an empty line after each.
pub fn display_all(list: &Vec<&Todo>) -> (text: String)
    ensures
        text@ == shown(views_of_refs(list@)),
{
    let ghost all = views_of_refs(list@);
    let mut text = String::new();
    let mut i: usize = 0;
    proof {
        assert(all.take(0) =~= Seq::<TodoView>::empty());
        assert(shown(all.take(0)) =~= Seq::<char>::empty());
    }
    while i < list.len()
        invariant
            i <= list.len(),
            all == views_of_refs(list@),
            text@ == shown(all.take(i as int)),
        decreases list.len() - i,
    {
        let ghost paragraphs = Seq::new(i as nat, |k: int| all[k].display().push('\n'));
        let ghost before = text@;
        list[i].push_display(&mut text);
        text.push('\n');
        proof {
            let paragraph = all[i as int].display().push('\n');
            assert(Seq::new(
                all.take(i as int).len(),
                |k: int| all.take(i as int)[k].display().push('\n'),
            ) =~= paragraphs);
            assert(Seq::new(
                all.take(i + 1).len(),
                |k: int| all.take(i + 1)[k].display().push('\n'),
            ) =~= paragraphs.push(paragraph));
            paragraphs.lemma_flatten_push(paragraph);
            assert(text@ =~= before + paragraph);
        }
        i += 1;
    }
    proof {
        assert(all.take(all.len() as int) =~= all);
    }
    text
}

/// The tasks that `list` borrows, as values.
pub open spec fn views_of_refs(list: Seq<&Todo>) -> Seq<TodoView> {
    Seq::new(list.len(), |i: int| list[i]@)
}

/// Leaving tasks out keeps the bound on the numbers.
proof fn lemma_filter_keeps_wf(s: TodosView, keep: spec_fn(TodoView) -> bool)
    requires
        s.wf(),
    ensures
        forall|i: int|
            0 <= i < s.list.filter(keep).len() ==> (#[trigger] s.list.filter(keep)[i]).id
                < s.next_id,
{
    let kept = s.list.filter(keep);
    assert forall|i: int| 0 <= i < kept.len() implies (#[trigger] kept[i]).id < s.next_id by {
        assert(kept.contains(kept[i]));
        s.list.lemma_filter_contains_rev(keep, kept[i]);
        let j = choose|j: int| 0 <= j < s.list.len() && s.list[j] == kept[i];
        assert(s.list[j].id < s.next_id);
    }
}

} // verus!
