use todo_list::csv::ParseError;
use todo_list::todos::{Todo, Todos};

fn texts(list: &[&str]) -> Vec<String> {
    list.iter().map(|text| text.to_string()).collect()
}

fn summary(todos: &Todos) -> Vec<(usize, bool, String)> {
    todos
        .list()
        .iter()
        .map(|todo| (todo.id(), todo.is_complete(), todo.text().to_string()))
        .collect()
}

fn flags(todos: &Todos) -> Vec<(usize, bool)> {
    todos.list().iter().map(|todo| (todo.id(), todo.is_complete())).collect()
}

#[test]
fn default_store_is_empty_and_numbers_from_zero() {
    let todos = Todos::default();
    assert_eq!(todos.list().len(), 0);
    assert_eq!(todos.next_id(), 0);
    assert_eq!(todos.to_csv(), "");
    assert_eq!(todos.display(), "");
}

#[test]
fn add_two_on_empty_store() {
    let mut todos = Todos::default();
    todos.add_todos(texts(&["a", "b"]));
    assert_eq!(
        summary(&todos),
        vec![(0, false, "a".to_string()), (1, false, "b".to_string())]
    );
    assert_eq!(todos.next_id(), 2);
}

#[test]
fn add_nothing_changes_nothing() {
    let mut todos = Todos::default();
    todos.add_todos(texts(&["a"]));
    todos.add_todos(Vec::new());
    assert_eq!(summary(&todos), vec![(0, false, "a".to_string())]);
    assert_eq!(todos.next_id(), 1);
}

#[test]
fn add_goes_behind_what_is_there() {
    let mut todos = Todos::from_csv("7,true,\"old\"\n").unwrap();
    assert_eq!(todos.next_id(), 8);
    todos.add_todos(texts(&["new", "newer"]));
    assert_eq!(
        summary(&todos),
        vec![
            (7, true, "old".to_string()),
            (8, false, "new".to_string()),
            (9, false, "newer".to_string())
        ]
    );
    assert_eq!(todos.next_id(), 10);
}

#[test]
fn remove_takes_the_task_out() {
    let mut todos = Todos::default();
    todos.add_todos(texts(&["a", "b", "c"]));
    todos.remove_todo(1);
    assert_eq!(flags(&todos), vec![(0, false), (2, false)]);
    assert_eq!(todos.next_id(), 3);
}

#[test]
fn remove_of_absent_id_changes_nothing() {
    let mut todos = Todos::default();
    todos.add_todos(texts(&["a", "b"]));
    todos.remove_todo(5);
    assert_eq!(flags(&todos), vec![(0, false), (1, false)]);
    assert_eq!(todos.next_id(), 2);
}

#[test]
fn remove_takes_every_task_of_that_number() {
    let mut todos = Todos::from_csv("1,false,a\n2,false,b\n1,true,c\n").unwrap();
    todos.remove_todo(1);
    assert_eq!(summary(&todos), vec![(2, false, "b".to_string())]);
    assert_eq!(todos.next_id(), 3);
}

#[test]
fn removed_id_is_not_reused() {
    let mut todos = Todos::default();
    todos.add_todos(texts(&["a", "b"]));
    todos.remove_todo(1);
    todos.add_todos(texts(&["c"]));
    assert_eq!(flags(&todos), vec![(0, false), (2, false)]);
    todos.remove_todo(0);
    todos.remove_todo(2);
    todos.add_todos(texts(&["d"]));
    assert_eq!(flags(&todos), vec![(3, false)]);
}

#[test]
fn ids_stay_distinct_after_adds_and_removes() {
    let mut todos = Todos::default();
    todos.add_todos(texts(&["a", "b", "c"]));
    todos.remove_todo(0);
    todos.add_todos(texts(&["d", "e"]));
    todos.remove_todo(3);
    todos.add_todos(texts(&["f"]));
    let mut ids: Vec<usize> = todos.list().iter().map(|todo| todo.id()).collect();
    assert_eq!(ids, vec![1, 2, 4, 5]);
    ids.dedup();
    assert_eq!(ids.len(), 4);
}

#[test]
fn next_id_is_above_every_id_given() {
    let mut todos = Todos::default();
    todos.add_todos(texts(&["a", "b", "c"]));
    assert_eq!(todos.next_id(), 3);
    todos.remove_todo(2);
    assert_eq!(todos.next_id(), 3);
    todos.remove_todo(0);
    todos.remove_todo(1);
    assert_eq!(todos.next_id(), 3);
    todos.sort_by_id();
    todos.complete_todo(9);
    assert_eq!(todos.next_id(), 3);
}

#[test]
fn complete_marks_the_task() {
    let mut todos = Todos::default();
    todos.add_todos(texts(&["a", "b"]));
    todos.complete_todo(1);
    assert_eq!(flags(&todos), vec![(0, false), (1, true)]);
    todos.complete_todo(1);
    assert_eq!(flags(&todos), vec![(0, false), (1, true)]);
}

#[test]
fn complete_of_absent_id_leaves_ordered_store_unchanged() {
    let mut todos = Todos::from_csv("0,false,\"a\"\n3,true,\"b\"\n").unwrap();
    todos.complete_todo(2);
    assert_eq!(
        summary(&todos),
        vec![(0, false, "a".to_string()), (3, true, "b".to_string())]
    );
    assert_eq!(todos.next_id(), 4);
    todos.complete_todo(4);
    assert_eq!(flags(&todos), vec![(0, false), (3, true)]);
}

#[test]
fn complete_of_absent_id_sorts_the_store() {
    let mut todos = Todos::from_csv("1,false,b\n0,true,a\n").unwrap();
    todos.complete_todo(5);
    assert_eq!(flags(&todos), vec![(0, true), (1, false)]);
}

#[test]
fn complete_sorts_by_id_first() {
    let mut todos = Todos::from_csv("2,false,c\n0,false,a\n1,false,b\n").unwrap();
    todos.complete_todo(2);
    assert_eq!(flags(&todos), vec![(0, false), (1, false), (2, true)]);
}

#[test]
fn complete_marks_the_first_of_equal_ids() {
    let mut todos = Todos::from_csv("1,false,x\n0,false,a\n1,false,y\n").unwrap();
    todos.complete_todo(1);
    assert_eq!(
        summary(&todos),
        vec![
            (0, false, "a".to_string()),
            (1, true, "x".to_string()),
            (1, false, "y".to_string())
        ]
    );
}

#[test]
fn sort_by_is_complete_is_stable() {
    let mut todos = Todos::from_csv("0,false,a\n1,true,b\n2,false,c\n").unwrap();
    todos.sort_by_is_complete();
    assert_eq!(flags(&todos), vec![(0, false), (2, false), (1, true)]);
}

#[test]
fn sort_by_is_complete_keeps_order_within_groups() {
    let mut todos =
        Todos::from_csv("5,true,a\n4,false,b\n3,true,c\n2,false,d\n1,true,e\n").unwrap();
    todos.sort_by_is_complete();
    assert_eq!(
        flags(&todos),
        vec![(4, false), (2, false), (5, true), (3, true), (1, true)]
    );
    assert_eq!(todos.next_id(), 6);
}

#[test]
fn sort_by_id_orders_the_tasks() {
    let mut todos = Todos::from_csv("3,false,d\n1,true,b\n2,false,c\n0,true,a\n").unwrap();
    todos.sort_by_id();
    assert_eq!(
        summary(&todos),
        vec![
            (0, true, "a".to_string()),
            (1, true, "b".to_string()),
            (2, false, "c".to_string()),
            (3, false, "d".to_string())
        ]
    );
    assert_eq!(todos.next_id(), 4);
}

#[test]
fn sort_by_id_is_stable() {
    let mut todos = Todos::from_csv("2,false,a\n1,false,b\n2,true,c\n1,true,d\n2,false,e\n")
        .unwrap();
    todos.sort_by_id();
    assert_eq!(
        summary(&todos),
        vec![
            (1, false, "b".to_string()),
            (1, true, "d".to_string()),
            (2, false, "a".to_string()),
            (2, true, "c".to_string()),
            (2, false, "e".to_string())
        ]
    );
}

#[test]
fn sort_by_id_of_many_tasks() {
    let mut csv = String::new();
    let count: usize = 200;
    for k in 0..count {
        let id = (k * 37) % count;
        csv.push_str(&format!("{},false,\"t{}\"\n", id, k));
    }
    let mut todos = Todos::from_csv(&csv).unwrap();
    todos.sort_by_id();
    let ids: Vec<usize> = todos.list().iter().map(|todo| todo.id()).collect();
    let expected: Vec<usize> = (0..count).collect();
    assert_eq!(ids, expected);
    assert_eq!(todos.next_id(), count);
}

#[test]
fn completed_and_incomplete_tasks_in_order() {
    let todos = Todos::from_csv("0,true,a\n1,false,b\n2,true,c\n3,false,d\n").unwrap();
    let done: Vec<usize> = todos.all_completed_todos().iter().map(|todo| todo.id()).collect();
    let open: Vec<usize> = todos.all_incomplete_todos().iter().map(|todo| todo.id()).collect();
    assert_eq!(done, vec![0, 2]);
    assert_eq!(open, vec![1, 3]);
    assert_eq!(todos.list().len(), 4);
}

#[test]
fn example_scenario() {
    let mut todos = Todos::default();
    todos.add_todos(texts(&["buy milk", "walk dog"]));
    assert_eq!(flags(&todos), vec![(0, false), (1, false)]);
    todos.complete_todo(0);
    assert_eq!(
        todos.display(),
        "#0 is done\nbuy milk\n\n#1 is not done\nwalk dog\n\n"
    );
    todos.sort_by_is_complete();
    let ids: Vec<usize> = todos.list().iter().map(|todo| todo.id()).collect();
    assert_eq!(ids, vec![1, 0]);
    assert_eq!(todos.to_csv(), "1,false,\"walk dog\"\n0,true,\"buy milk\"\n");
}

#[test]
fn four_fields_on_a_line_fail() {
    let loaded = Todos::from_csv("0,false,\"a\"\n1,true,\"b\",extra\n");
    assert!(matches!(loaded, Err(ParseError::TooManyColumns)));
    assert!(matches!(
        Todo::from_csv_line("1,true,b,extra"),
        Err(ParseError::TooManyColumns)
    ));
}
