//! The text formats of a store: the CSV text it is kept in, and the text it
//! is shown in.
//!
//! A store is kept as one record per line, `id,is_complete,"text"`, without a
//! header. The text of a task stands between quotes; nothing in it is
//! escaped, so a text that holds a quote, a comma or a line feed does not
//! read back as it was written.

use crate::model::{next_id_after, TodoView, TodosView};
use crate::text::{all_digits, decimal, decimal_value, lines, parse_digits, split, without};
use vstd::prelude::*;

verus! {

/// Why a CSV text could not be read.
#[derive(Debug, Clone, Copy, PartialEq, Eq, Structural)]
pub enum ParseError {
    /// The first field of a record is not an unsigned decimal number that
    /// fits in `usize`.
    InvalidId,
    /// The second field of a record is neither `true` nor `false`.
    InvalidFlag,
    /// A record has more than three fields.
    TooManyColumns,
    /// A task is numbered `usize::MAX`, so that no number is left for the
    /// next task.
    IdOutOfRange,
}

/// The word that stands for a flag.
pub open spec fn flag_text(flag: bool) -> Seq<char> {
    if flag {
        seq!['t', 'r', 'u', 'e']
    } else {
        seq!['f', 'a', 'l', 's', 'e']
    }
}

/// The flag that `s` stands for, if it is one of the two words.
pub open spec fn parse_flag(s: Seq<char>) -> Option<bool> {
    if s == flag_text(true) {
        Some(true)
    } else if s == flag_text(false) {
        Some(false)
    } else {
        None
    }
}

/// The number that `s` stands for: decimal digits, at least one, that may
/// follow one `+`, with a value that fits in `usize`.
pub open spec fn parse_id(s: Seq<char>) -> Option<nat> {
    let digits = if s.len() > 0 && s[0] == '+' {
        s.skip(1)
    } else {
        s
    };
    if digits.len() > 0 && all_digits(digits) && decimal_value(digits) <= usize::MAX {
        Some(decimal_value(digits))
    } else {
        None
    }
}

/// The task that one record stands for. The fields are read in order, and the
/// first one at fault decides the error. A record of fewer than three fields
/// is accepted: a missing flag reads as not done, a missing text as empty.
/// Every quote is taken out of the text.
pub open spec fn parse_line(line: Seq<char>) -> Result<TodoView, ParseError> {
    let fields = split(line, ',');
    match parse_id(fields[0]) {
        None => Err(ParseError::InvalidId),
        Some(id) => {
            if fields.len() == 1 {
                Ok(TodoView { id, is_complete: false, text: Seq::empty() })
            } else {
                match parse_flag(fields[1]) {
                    None => Err(ParseError::InvalidFlag),
                    Some(is_complete) => {
                        if fields.len() == 2 {
                            Ok(TodoView { id, is_complete, text: Seq::empty() })
                        } else if fields.len() == 3 {
                            Ok(TodoView { id, is_complete, text: without(fields[2], '"') })
                        } else {
                            Err(ParseError::TooManyColumns)
                        }
                    },
                }
            }
        },
    }
}

/// The tasks that the records stand for, or the error of the first record at
/// fault.
pub open spec fn parse_lines(records: Seq<Seq<char>>) -> Result<Seq<TodoView>, ParseError>
    decreases records.len(),
{
    if records.len() == 0 {
        Ok(Seq::empty())
    } else {
        match parse_line(records[0]) {
            Err(e) => Err(e),
            Ok(first) => match parse_lines(records.skip(1)) {
                Err(e) => Err(e),
                Ok(rest) => Ok(seq![first] + rest),
            },
        }
    }
}

/// The store that a CSV text stands for: its lines read as records, and the
/// next number one above the greatest number read.
pub open spec fn parse_csv(csv: Seq<char>) -> Result<TodosView, ParseError> {
    match parse_lines(lines(csv)) {
        Err(e) => Err(e),
        Ok(list) => {
            if next_id_after(list) <= usize::MAX {
                Ok(TodosView { next_id: next_id_after(list), list })
            } else {
                Err(ParseError::IdOutOfRange)
            }
        },
    }
}

/// The records of the tasks, each with its line feed.
pub open spec fn csv_lines(list: Seq<TodoView>) -> Seq<Seq<char>> {
    Seq::new(list.len(), |i: int| list[i].to_csv_line())
}

/// The paragraphs in which the tasks are shown, each followed by an empty
/// line.
pub open spec fn shown(list: Seq<TodoView>) -> Seq<char> {
    Seq::new(list.len(), |i: int| list[i].display().push('\n')).flatten()
}

impl TodoView {
    /// The record of the task without its line feed: the number, the flag,
    /// and the text between quotes.
    pub open spec fn to_csv_record(self) -> Seq<char> {
        decimal(self.id) + seq![','] + flag_text(self.is_complete) + seq![',', '"'] + self.text
            + seq!['"']
    }

    /// The line that the task is kept as.
    pub open spec fn to_csv_line(self) -> Seq<char> {
        self.to_csv_record().push('\n')
    }

    /// The two lines that the task is shown as: its number and state, then
    /// its text.
    pub open spec fn display(self) -> Seq<char> {
        seq!['#'] + decimal(self.id) + seq![' ', 'i', 's', ' '] + (if self.is_complete {
            seq!['d', 'o', 'n', 'e']
        } else {
            seq!['n', 'o', 't', ' ', 'd', 'o', 'n', 'e']
        }) + seq!['\n'] + self.text + seq!['\n']
    }
}

impl TodosView {
    /// The CSV text of the store: the lines of its tasks, in order.
    pub open spec fn to_csv(self) -> Seq<char> {
        csv_lines(self.list).flatten()
    }

    /// The text that the store is shown as.
    pub open spec fn display(self) -> Seq<char> {
        shown(self.list)
    }
}

/// Reads `s[from..to]` as the number of a task.
pub fn read_id(s: &Vec<char>, from: usize, to: usize) -> (id: Option<usize>)
    requires
        from <= to <= s.len(),
    ensures
        id is Some <==> parse_id(s@.subrange(from as int, to as int)) is Some,
        id is Some ==> parse_id(s@.subrange(from as int, to as int)) == Some(id->0 as nat),
{
    let ghost field = s@.subrange(from as int, to as int);
    let start = if from < to && s[from] == '+' {
        from + 1
    } else {
        from
    };
    proof {
        if start == from {
            assert(s@.subrange(start as int, to as int) == field);
        } else {
            assert(s@.subrange(start as int, to as int) =~= field.skip(1));
        }
    }
    if start == to {
        None
    } else {
        parse_digits(s, start, to)
    }
}

/// Reads `s[from..to]` as the flag of a task.
pub fn read_flag(s: &Vec<char>, from: usize, to: usize) -> (flag: Option<bool>)
    requires
        from <= to <= s.len(),
    ensures
        flag == parse_flag(s@.subrange(from as int, to as int)),
{
    let ghost field = s@.subrange(from as int, to as int);
    let len = to - from;
    if len == 4 && s[from] == 't' && s[from + 1] == 'r' && s[from + 2] == 'u' && s[from + 3]
        == 'e' {
        assert(field =~= flag_text(true));
        Some(true)
    } else if len == 5 && s[from] == 'f' && s[from + 1] == 'a' && s[from + 2] == 'l' && s[from
        + 3] == 's' && s[from + 4] == 'e' {
        assert(field =~= flag_text(false));
        assert(flag_text(false).len() != flag_text(true).len());
        Some(false)
    } else {
        proof {
            if field == flag_text(true) {
                assert(field.len() == 4);
                assert(field[0] == 't' && field[1] == 'r' && field[2] == 'u' && field[3] == 'e');
            }
            if field == flag_text(false) {
                assert(field.len() == 5);
                assert(field[0] == 'f' && field[1] == 'a' && field[2] == 'l' && field[3] == 's'
                    && field[4] == 'e');
            }
        }
        None
    }
}

} // verus!
