use todo_list::csv::{read_flag, read_id, ParseError};
use todo_list::text::{chars_of, digit_of, find, parse_digits, push_decimal, push_without};
use todo_list::todos::{display_all, push_shown, Todo, Todos};

fn parts(todo: &Todo) -> (usize, bool, String) {
    (todo.id(), todo.is_complete(), todo.text().to_string())
}

fn all_parts(todos: &Todos) -> Vec<(usize, bool, String)> {
    todos.list().iter().map(parts).collect()
}

#[test]
fn line_with_three_fields() {
    let todo = Todo::from_csv_line("12,true,\"walk dog\"").unwrap();
    assert_eq!(parts(&todo), (12, true, "walk dog".to_string()));
    let todo = Todo::from_csv_line("0,false,plain").unwrap();
    assert_eq!(parts(&todo), (0, false, "plain".to_string()));
}

#[test]
fn line_with_fewer_fields_keeps_defaults() {
    let todo = Todo::from_csv_line("5").unwrap();
    assert_eq!(parts(&todo), (5, false, String::new()));
    let todo = Todo::from_csv_line("5,true").unwrap();
    assert_eq!(parts(&todo), (5, true, String::new()));
    let todo = Todo::from_csv_line("5,true,").unwrap();
    assert_eq!(parts(&todo), (5, true, String::new()));
}

#[test]
fn every_quote_is_taken_out_of_the_text() {
    let todo = Todo::from_csv_line("1,false,\"say \"hi\" now\"").unwrap();
    assert_eq!(todo.text(), "say hi now");
    let todo = Todo::from_csv_line("1,false,\"\"\"").unwrap();
    assert_eq!(todo.text(), "");
}

#[test]
fn id_may_have_a_plus_and_leading_zeros() {
    assert_eq!(Todo::from_csv_line("+7,false,a").unwrap().id(), 7);
    assert_eq!(Todo::from_csv_line("007,false,a").unwrap().id(), 7);
    assert_eq!(Todo::from_csv_line("+0").unwrap().id(), 0);
}

#[test]
fn invalid_ids() {
    for line in [
        "", ",true,a", "+", "+,true", "-1,true,a", "1x,true,a", " 1,true,a", "1 ,true,a", "++1",
        "1+", "x", "٣,true,a",
    ] {
        assert!(
            matches!(Todo::from_csv_line(line), Err(ParseError::InvalidId)),
            "{:?}",
            line
        );
    }
}

#[test]
fn id_must_fit_in_usize() {
    let max = usize::MAX;
    let line = format!("{},true,a", max);
    assert_eq!(Todo::from_csv_line(&line).unwrap().id(), max);
    let line = format!("{}0,true,a", max);
    assert!(matches!(Todo::from_csv_line(&line), Err(ParseError::InvalidId)));
    let above = (max as u128) + 1;
    let line = format!("{},true,a", above);
    assert!(matches!(Todo::from_csv_line(&line), Err(ParseError::InvalidId)));
    assert!(matches!(
        Todo::from_csv_line("99999999999999999999999999999999999999999"),
        Err(ParseError::InvalidId)
    ));
}

#[test]
fn invalid_flags() {
    for line in ["1,", "1,yes,a", "1,True,a", "1,true ,a", "1, false,a", "1,1,a", "1,tru", "1,falsee"]
    {
        assert!(
            matches!(Todo::from_csv_line(line), Err(ParseError::InvalidFlag)),
            "{:?}",
            line
        );
    }
}

#[test]
fn first_field_at_fault_decides() {
    assert!(matches!(Todo::from_csv_line("x,y,z,w"), Err(ParseError::InvalidId)));
    assert!(matches!(Todo::from_csv_line("1,y,z,w"), Err(ParseError::InvalidFlag)));
    assert!(matches!(Todo::from_csv_line("1,true,z,w"), Err(ParseError::TooManyColumns)));
    assert!(matches!(Todo::from_csv_line("1,true,z,"), Err(ParseError::TooManyColumns)));
    assert!(matches!(Todo::from_csv_line("1,true,a,b,c,d"), Err(ParseError::TooManyColumns)));
}

#[test]
fn csv_line_of_a_task() {
    let todo = Todo::from_csv_line("42,true,\"buy milk\"").unwrap();
    assert_eq!(todo.to_csv_line(), "42,true,\"buy milk\"\n");
    let todo = Todo::from_csv_line("0").unwrap();
    assert_eq!(todo.to_csv_line(), "0,false,\"\"\n");
    let todo = Todo::from_csv_line("1234567890,false,é✓").unwrap();
    assert_eq!(todo.to_csv_line(), "1234567890,false,\"é✓\"\n");
}

#[test]
fn display_of_a_task() {
    let todo = Todo::from_csv_line("3,true,\"buy milk\"").unwrap();
    assert_eq!(todo.display(), "#3 is done\nbuy milk\n");
    let todo = Todo::from_csv_line("10,false,\"walk dog\"").unwrap();
    assert_eq!(todo.display(), "#10 is not done\nwalk dog\n");
}

#[test]
fn display_of_a_store() {
    let todos = Todos::from_csv("0,true,a\n1,false,b\n").unwrap();
    assert_eq!(todos.display(), "#0 is done\na\n\n#1 is not done\nb\n\n");
    let mut out = String::from(">");
    push_shown(&mut out, todos.list());
    assert_eq!(out, ">#0 is done\na\n\n#1 is not done\nb\n\n");
    assert_eq!(display_all(&todos.all_incomplete_todos()), "#1 is not done\nb\n\n");
    assert_eq!(display_all(&Vec::new()), "");
}

#[test]
fn empty_text_is_an_empty_store() {
    let todos = Todos::from_csv("").unwrap();
    assert_eq!(todos.list().len(), 0);
    assert_eq!(todos.next_id(), 0);
}

#[test]
fn next_id_is_one_above_the_greatest() {
    let todos = Todos::from_csv("3,false,a\n9,true,b\n4,false,c\n").unwrap();
    assert_eq!(todos.next_id(), 10);
    let todos = Todos::from_csv("0,false,a").unwrap();
    assert_eq!(todos.next_id(), 1);
}

#[test]
fn last_line_needs_no_line_feed() {
    let todos = Todos::from_csv("0,false,a\n1,true,b").unwrap();
    assert_eq!(
        all_parts(&todos),
        vec![(0, false, "a".to_string()), (1, true, "b".to_string())]
    );
}

#[test]
fn carriage_return_before_line_feed_ends_the_line() {
    let todos = Todos::from_csv("0,false,a\r\n1,true,b\r\n").unwrap();
    assert_eq!(
        all_parts(&todos),
        vec![(0, false, "a".to_string()), (1, true, "b".to_string())]
    );
    let todos = Todos::from_csv("0,false,a\r\r\n").unwrap();
    assert_eq!(all_parts(&todos), vec![(0, false, "a\r".to_string())]);
}

#[test]
fn carriage_return_at_the_end_of_the_text_stays() {
    let todos = Todos::from_csv("0,false,a\r").unwrap();
    assert_eq!(all_parts(&todos), vec![(0, false, "a\r".to_string())]);
    assert!(matches!(Todos::from_csv("0,false\r"), Err(ParseError::InvalidFlag)));
    let todos = Todos::from_csv("0,false\r\n").unwrap();
    assert_eq!(all_parts(&todos), vec![(0, false, String::new())]);
}

#[test]
fn empty_line_is_refused() {
    assert!(matches!(Todos::from_csv("0,false,a\n\n1,true,b\n"), Err(ParseError::InvalidId)));
    assert!(matches!(Todos::from_csv("\n"), Err(ParseError::InvalidId)));
    assert!(matches!(Todos::from_csv("\r\n"), Err(ParseError::InvalidId)));
}

#[test]
fn first_line_at_fault_decides() {
    assert!(matches!(
        Todos::from_csv("0,false,a\n1,maybe,b\nx,true,c\n"),
        Err(ParseError::InvalidFlag)
    ));
    assert!(matches!(
        Todos::from_csv("0,false,a,b\n1,maybe,b\n"),
        Err(ParseError::TooManyColumns)
    ));
}

#[test]
fn greatest_id_leaves_no_next_id() {
    let csv = format!("0,false,a\n{},true,b\n1,false,c\n", usize::MAX);
    assert!(matches!(Todos::from_csv(&csv), Err(ParseError::IdOutOfRange)));
    let csv = format!("{},true,b\nx\n", usize::MAX);
    assert!(matches!(Todos::from_csv(&csv), Err(ParseError::InvalidId)));
    let csv = format!("{},true,b\n", usize::MAX - 1);
    let todos = Todos::from_csv(&csv).unwrap();
    assert_eq!(todos.next_id(), usize::MAX);
}

#[test]
fn csv_of_a_store() {
    let todos = Todos::from_csv("1,true,b\n0,false,\"a\"").unwrap();
    assert_eq!(todos.to_csv(), "1,true,\"b\"\n0,false,\"a\"\n");
}

#[test]
fn csv_round_trip() {
    let mut todos = Todos::default();
    todos.add_todos(vec!["buy milk".to_string(), "walk dog\r".to_string(), String::new()]);
    todos.complete_todo(1);
    todos.sort_by_is_complete();
    let csv = todos.to_csv();
    assert_eq!(csv, "0,false,\"buy milk\"\n2,false,\"\"\n1,true,\"walk dog\r\"\n");
    let back = Todos::from_csv(&csv).unwrap();
    assert_eq!(all_parts(&back), all_parts(&todos));
    assert_eq!(back.next_id(), todos.next_id());
    assert_eq!(back.to_csv(), csv);
}

#[test]
fn text_with_a_quote_does_not_read_back() {
    let mut todos = Todos::default();
    todos.add_todos(vec!["say \"hi\"".to_string()]);
    let back = Todos::from_csv(&todos.to_csv()).unwrap();
    assert_eq!(back.list()[0].text(), "say hi");
}

#[test]
fn text_with_a_comma_does_not_read_back() {
    let mut todos = Todos::default();
    todos.add_todos(vec!["a,b".to_string()]);
    assert_eq!(todos.to_csv(), "0,false,\"a,b\"\n");
    assert!(matches!(Todos::from_csv(&todos.to_csv()), Err(ParseError::TooManyColumns)));
}

#[test]
fn next_id_does_not_read_back_after_the_last_task_left() {
    let mut todos = Todos::default();
    todos.add_todos(vec!["a".to_string()]);
    todos.remove_todo(0);
    assert_eq!(todos.next_id(), 1);
    let back = Todos::from_csv(&todos.to_csv()).unwrap();
    assert_eq!(back.next_id(), 0);
}

#[test]
fn decimal_numerals() {
    for (n, numeral) in [(0usize, "0"), (7, "7"), (10, "10"), (909, "909"), (1234567890, "1234567890")]
    {
        let mut out = String::from("n=");
        push_decimal(&mut out, n);
        assert_eq!(out, format!("n={}", numeral));
    }
    let mut out = String::new();
    push_decimal(&mut out, usize::MAX);
    assert_eq!(out, format!("{}", usize::MAX));
}

#[test]
fn digits_in_a_range() {
    let chars = chars_of("ab0123x");
    assert_eq!(chars.len(), 7);
    assert_eq!(parse_digits(&chars, 2, 6), Some(123));
    assert_eq!(parse_digits(&chars, 3, 4), Some(1));
    assert_eq!(parse_digits(&chars, 3, 3), Some(0));
    assert_eq!(parse_digits(&chars, 2, 7), None);
    assert_eq!(parse_digits(&chars, 1, 4), None);
    assert_eq!(digit_of('7'), Some(7));
    assert_eq!(digit_of('0'), Some(0));
    assert_eq!(digit_of('a'), None);
    assert_eq!(digit_of('/'), None);
    assert_eq!(digit_of(':'), None);
}

#[test]
fn fields_in_a_range() {
    let chars = chars_of("x+12,true,false,");
    assert_eq!(read_id(&chars, 1, 4), Some(12));
    assert_eq!(read_id(&chars, 2, 4), Some(12));
    assert_eq!(read_id(&chars, 1, 2), None);
    assert_eq!(read_id(&chars, 0, 4), None);
    assert_eq!(read_id(&chars, 4, 4), None);
    assert_eq!(read_flag(&chars, 5, 9), Some(true));
    assert_eq!(read_flag(&chars, 10, 15), Some(false));
    assert_eq!(read_flag(&chars, 5, 8), None);
    assert_eq!(read_flag(&chars, 10, 16), None);
    assert_eq!(read_flag(&chars, 9, 9), None);
}

#[test]
fn finding_and_copying() {
    let chars = chars_of("a,b\"c\",d");
    assert_eq!(find(&chars, 0, chars.len(), ','), 1);
    assert_eq!(find(&chars, 2, chars.len(), ','), 6);
    assert_eq!(find(&chars, 7, chars.len(), ','), 8);
    assert_eq!(find(&chars, 2, 5, ','), 5);
    assert_eq!(find(&chars, 3, 3, ','), 3);
    let mut out = String::from("[");
    push_without(&mut out, &chars, 2, 6, '"');
    assert_eq!(out, "[bc");
    let mut out = String::new();
    push_without(&mut out, &chars, 0, chars.len(), ',');
    assert_eq!(out, "ab\"c\"d");
}
