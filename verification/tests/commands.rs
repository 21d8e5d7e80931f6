use std::path::PathBuf;
use todo_list::cli::{dispatch, Command, Configuration, Effect, RawCommands};
use todo_list::order::{first_at_least, sort_by_id};
use todo_list::todos::{Todo, Todos};

fn loaded() -> Todos {
    Todos::from_csv("0,true,\"a\"\n1,false,\"b\"\n2,true,\"c\"\n").unwrap()
}

fn flags(todos: &Todos) -> Vec<(usize, bool)> {
    todos.list().iter().map(|todo| (todo.id(), todo.is_complete())).collect()
}

#[test]
fn configuration_hands_out_its_command() {
    let configuration = Configuration::new(Command::Add {
        tasks: vec!["a".to_string(), "b c".to_string()],
    });
    match configuration.command() {
        Command::Add { tasks } => assert_eq!(tasks, vec!["a".to_string(), "b c".to_string()]),
        other => panic!("{:?}", other),
    }
    let configuration = Configuration::new(Command::Remove { id: 4 });
    assert!(matches!(configuration.command(), Command::Remove { id: 4 }));
    assert!(matches!(configuration.command(), Command::Remove { id: 4 }));
    let configuration = Configuration::new(Command::Raw(RawCommands::Todo));
    assert!(matches!(configuration.clone().command(), Command::Raw(RawCommands::Todo)));
}

#[test]
fn configuration_keeps_the_path() {
    let configuration = Configuration::new(Command::Restore {
        todo_path: PathBuf::from("saved/list.csv"),
    });
    match configuration.command() {
        Command::Restore { todo_path } => assert_eq!(todo_path, PathBuf::from("saved/list.csv")),
        other => panic!("{:?}", other),
    }
}

#[test]
fn add_command_adds() {
    let mut todos = loaded();
    let effect = dispatch(&mut todos, Command::Add { tasks: vec!["d".to_string()] });
    assert!(matches!(effect, Effect::Nothing));
    assert_eq!(flags(&todos), vec![(0, true), (1, false), (2, true), (3, false)]);
    assert_eq!(todos.list()[3].text(), "d");
}

#[test]
fn remove_command_removes() {
    let mut todos = loaded();
    let effect = dispatch(&mut todos, Command::Remove { id: 1 });
    assert!(matches!(effect, Effect::Nothing));
    assert_eq!(flags(&todos), vec![(0, true), (2, true)]);
}

#[test]
fn done_command_marks() {
    let mut todos = loaded();
    let effect = dispatch(&mut todos, Command::Done { id: 1 });
    assert!(matches!(effect, Effect::Nothing));
    assert_eq!(flags(&todos), vec![(0, true), (1, true), (2, true)]);
}

#[test]
fn list_command_prints_the_store() {
    let mut todos = loaded();
    match dispatch(&mut todos, Command::List) {
        Effect::Print(text) => {
            assert_eq!(text, "#0 is done\na\n\n#1 is not done\nb\n\n#2 is done\nc\n\n\n")
        },
        other => panic!("{:?}", other),
    }
    assert_eq!(flags(&todos), vec![(0, true), (1, false), (2, true)]);
    let mut empty = Todos::default();
    match dispatch(&mut empty, Command::List) {
        Effect::Print(text) => assert_eq!(text, "\n"),
        other => panic!("{:?}", other),
    }
}

#[test]
fn sort_command_sorts_by_state() {
    let mut todos = loaded();
    let effect = dispatch(&mut todos, Command::Sort);
    assert!(matches!(effect, Effect::Nothing));
    assert_eq!(flags(&todos), vec![(1, false), (0, true), (2, true)]);
}

#[test]
fn reset_command_discards_everything() {
    let mut todos = loaded();
    let effect = dispatch(&mut todos, Command::Reset);
    assert!(matches!(effect, Effect::Nothing));
    assert_eq!(todos.list().len(), 0);
    assert_eq!(todos.next_id(), 0);
    assert_eq!(todos.to_csv(), "");
}

#[test]
fn restore_command_asks_for_the_file() {
    let mut todos = loaded();
    match dispatch(&mut todos, Command::Restore { todo_path: PathBuf::from("old.csv") }) {
        Effect::Restore(path) => assert_eq!(path, PathBuf::from("old.csv")),
        other => panic!("{:?}", other),
    }
    assert_eq!(flags(&todos), vec![(0, true), (1, false), (2, true)]);
}

#[test]
fn raw_commands_print_the_chosen_tasks() {
    let mut todos = loaded();
    match dispatch(&mut todos, Command::Raw(RawCommands::Done)) {
        Effect::Print(text) => assert_eq!(text, "#0 is done\na\n\n#2 is done\nc\n\n"),
        other => panic!("{:?}", other),
    }
    match dispatch(&mut todos, Command::Raw(RawCommands::Todo)) {
        Effect::Print(text) => assert_eq!(text, "#1 is not done\nb\n\n"),
        other => panic!("{:?}", other),
    }
    assert_eq!(flags(&todos), vec![(0, true), (1, false), (2, true)]);
}

fn tasks(ids: &[usize]) -> Vec<Todo> {
    ids.iter()
        .enumerate()
        .map(|(k, id)| Todo::from_csv_line(&format!("{},false,{}", id, k)).unwrap())
        .collect()
}

fn order(list: &[Todo]) -> Vec<(usize, String)> {
    list.iter().map(|todo| (todo.id(), todo.text().to_string())).collect()
}

#[test]
fn sorting_a_list_of_tasks() {
    assert_eq!(sort_by_id(Vec::new()).len(), 0);
    assert_eq!(order(&sort_by_id(tasks(&[4]))), vec![(4, "0".to_string())]);
    let sorted = sort_by_id(tasks(&[3, 1, 3, 0, 1, 3, 2]));
    assert_eq!(
        order(&sorted),
        vec![
            (0, "3".to_string()),
            (1, "1".to_string()),
            (1, "4".to_string()),
            (2, "6".to_string()),
            (3, "0".to_string()),
            (3, "2".to_string()),
            (3, "5".to_string())
        ]
    );
}

#[test]
fn searching_an_ordered_list() {
    let list = tasks(&[1, 3, 3, 3, 8]);
    assert_eq!(first_at_least(&list, 0), 0);
    assert_eq!(first_at_least(&list, 1), 0);
    assert_eq!(first_at_least(&list, 2), 1);
    assert_eq!(first_at_least(&list, 3), 1);
    assert_eq!(first_at_least(&list, 4), 4);
    assert_eq!(first_at_least(&list, 8), 4);
    assert_eq!(first_at_least(&list, 9), 5);
    assert_eq!(first_at_least(&Vec::new(), 3), 0);
}
