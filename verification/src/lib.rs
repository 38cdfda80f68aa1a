//! Core logic of a small interactive shell: argument tokenizing, redirection,
//! variables, history, jobs and command-line completion.

pub mod text;
pub mod parser;
pub mod program_completion;
pub mod helper;
pub mod declare;
pub mod history;
pub mod jobs;
pub mod output;
pub mod fs_utils;
pub mod shell;
