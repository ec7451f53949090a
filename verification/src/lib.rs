//! A to-do list kept as lines of text: what a store holds, how its text is
//! read and written, and what each command does to it.

pub mod cli;
pub mod error;
pub mod laws;
pub mod store;
pub mod task;
pub mod text;
