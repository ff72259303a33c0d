//! Vigil: reading `.todo.md` plan files and laying them out for a terminal.
pub mod text;
pub mod parser;
pub mod directory;
pub mod term;
pub mod watch_view;
pub mod list_view;
