//! The commands, and what each one does to a store.
//!
//! Reading the arguments of the process, reading and writing files and
//! printing are left to the caller: [`dispatch`] changes the store and says
//! what is to be printed or loaded.

use crate::csv::shown;
use crate::model::TodosView;
use crate::todos::{display_all, Todos};
use std::path::PathBuf;
use vstd::prelude::*;

verus! {

/// `std::path::PathBuf`, which a command carries and nothing here looks into.
#[verifier::external_type_specification]
#[verifier::external_body]
pub struct ExPathBuf(PathBuf);

/// Copying a path: `Clone::clone` of `std::path::PathBuf`. Trusted: the copy
/// is the same path.
pub assume_specification[ <PathBuf as Clone>::clone ](path: &PathBuf) -> (copy: PathBuf)
    ensures
        copy == *path,
;

/// Which tasks to print as they are.
#[derive(Debug, Clone, Copy, PartialEq, Eq, Structural)]
pub enum RawCommands {
    /// The tasks that are done.
    Done,
    /// The tasks that are still to do.
    Todo,
}

/// One command of the program.
#[derive(Debug)]
pub enum Command {
    /// Add a task for each text.
    Add { tasks: Vec<String> },
    /// Remove the task of this number.
    Remove { id: usize },
    /// Mark the task of this number as done.
    Done { id: usize },
    /// Print all tasks.
    List,
    /// Sort the tasks, those still to do first.
    Sort,
    /// Discard all tasks.
    Reset,
    /// Replace the store by the one kept in this file.
    Restore { todo_path: PathBuf },
    /// Print some of the tasks.
    Raw(RawCommands),
}

/// A command as a value.
pub enum CommandView {
    Add { tasks: Seq<Seq<char>> },
    Remove { id: nat },
    Done { id: nat },
    List,
    Sort,
    Reset,
    Restore { todo_path: PathBuf },
    Raw(RawCommands),
}

impl View for Command {
    type V = CommandView;

    open spec fn view(&self) -> CommandView {
        match self {
            Command::Add { tasks } => CommandView::Add { tasks: tasks.deep_view() },
            Command::Remove { id } => CommandView::Remove { id: *id as nat },
            Command::Done { id } => CommandView::Done { id: *id as nat },
            Command::List => CommandView::List,
            Command::Sort => CommandView::Sort,
            Command::Reset => CommandView::Reset,
            Command::Restore { todo_path } => CommandView::Restore { todo_path: *todo_path },
            Command::Raw(which) => CommandView::Raw(*which),
        }
    }
}

impl Clone for Command {
    fn clone(&self) -> (copy: Command)
        ensures
            copy@ == self@,
    {
        match self {
            Command::Add { tasks } => {
                let copy = tasks.clone();
                assert(copy.deep_view() =~= tasks.deep_view());
                Command::Add { tasks: copy }
            },
            Command::Remove { id } => Command::Remove { id: *id },
            Command::Done { id } => Command::Done { id: *id },
            Command::List => Command::List,
            Command::Sort => Command::Sort,
            Command::Reset => Command::Reset,
            Command::Restore { todo_path } => Command::Restore { todo_path: todo_path.clone() },
            Command::Raw(which) => Command::Raw(*which),
        }
    }
}

/// What the program was asked to do: one command.
#[derive(Debug)]
pub struct Configuration {
    command: Command,
}

impl View for Configuration {
    type V = CommandView;

    closed spec fn view(&self) -> CommandView {
        self.command@
    }
}

impl Clone for Configuration {
    fn clone(&self) -> (copy: Configuration)
        ensures
            copy@ == self@,
    {
        Configuration { command: self.command.clone() }
    }
}

impl Configuration {
    /// The configuration that asks for `command`.
    pub fn new(command: Command) -> (configuration: Configuration)
        ensures
            configuration@ == command@,
    {
        Configuration { command }
    }

    /// The command that was asked for.
    pub fn command(&self) -> (command: Command)
        ensures
            command@ == self@,
    {
        self.command.clone()
    }
}

/// What a command leaves for the caller to do, before the store is saved.
#[derive(Debug)]
pub enum Effect {
    /// Nothing.
    Nothing,
    /// Print this text as it is.
    Print(String),
    /// Load the store kept in this file, in place of the present one.
    Restore(PathBuf),
}

/// An effect as a value.
pub enum EffectView {
    Nothing,
    Print(Seq<char>),
    Restore(PathBuf),
}

impl View for Effect {
    type V = EffectView;

    open spec fn view(&self) -> EffectView {
        match self {
            Effect::Nothing => EffectView::Nothing,
            Effect::Print(text) => EffectView::Print(text@),
            Effect::Restore(todo_path) => EffectView::Restore(*todo_path),
        }
    }
}

/// The store after a command. Each command is one operation on the store;
/// those that print or load leave it as it is.
pub open spec fn store_after(s: TodosView, command: CommandView) -> TodosView {
    match command {
        CommandView::Add { tasks } => s.add_todos(tasks),
        CommandView::Remove { id } => s.remove_todo(id),
        CommandView::Done { id } => s.complete_todo(id),
        CommandView::Sort => s.sort_by_is_complete(),
        CommandView::Reset => TodosView::empty(),
        CommandView::List => s,
        CommandView::Restore { todo_path } => s,
        CommandView::Raw(which) => s,
    }
}

/// What a command leaves to do. `List` prints the store and an empty line;
/// `Raw` prints the chosen tasks, each followed by an empty line.
pub open spec fn effect_of(s: TodosView, command: CommandView) -> EffectView {
    match command {
        CommandView::List => EffectView::Print(s.display().push('\n')),
        CommandView::Raw(RawCommands::Done) => EffectView::Print(shown(s.completed())),
        CommandView::Raw(RawCommands::Todo) => EffectView::Print(shown(s.incomplete())),
        CommandView::Restore { todo_path } => EffectView::Restore(todo_path),
        _ => EffectView::Nothing,
    }
}

/// Whether a store has numbers left for what a command adds.
pub open spec fn has_room(s: TodosView, command: CommandView) -> bool {
    command matches CommandView::Add { tasks } ==> s.next_id + tasks.len() <= usize::MAX
}

/// Applies a command to the store and says what is left to do.
pub fn dispatch(todos: &mut Todos, command: Command) -> (effect: Effect)
    requires
        has_room(old(todos)@, command@),
    ensures
        final(todos)@ == store_after(old(todos)@, command@),
        final(todos)@.wf(),
        effect@ == effect_of(old(todos)@, command@),
{
    proof {
        use_type_invariant(&*todos);
    }
    match command {
        Command::Add { tasks } => {
            todos.add_todos(tasks);
            Effect::Nothing
        },
        Command::Remove { id } => {
            todos.remove_todo(id);
            Effect::Nothing
        },
        Command::Done { id } => {
            todos.complete_todo(id);
            Effect::Nothing
        },
        Command::List => {
            let mut text = todos.display();
            text.push('\n');
            Effect::Print(text)
        },
        Command::Sort => {
            todos.sort_by_is_complete();
            Effect::Nothing
        },
        Command::Reset => {
            *todos = Todos::default();
            assert(todos@.wf());
            Effect::Nothing
        },
        Command::Restore { todo_path } => Effect::Restore(todo_path),
        Command::Raw(RawCommands::Done) => {
            let found = todos.all_completed_todos();
            Effect::Print(display_all(&found))
        },
        Command::Raw(RawCommands::Todo) => {
            let found = todos.all_incomplete_todos();
            Effect::Print(display_all(&found))
        },
    }
}

} // verus!
