//! Annotates each line that a child process writes with the time it was seen.

pub mod decimal;
pub mod dispatch;
pub mod formatter;
pub mod lines;
pub mod origin;
pub mod reader;
mod trusted;
