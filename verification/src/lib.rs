//! A task list kept as CSV text: the tasks, the store that numbers them, the
//! text format, and the commands that act on a store.

pub mod cli;
pub mod csv;
pub mod laws;
pub mod model;
pub mod order;
pub mod text;
pub mod todos;
