//! Where the output of a builtin command goes.

use vstd::prelude::*;
use crate::parser::Redirection;

verus! {

broadcast use vstd::string::group_string_axioms;

/// Routes the text that builtin commands produce.
pub struct Output {}

/// What to do with a piece of output.
pub enum Write {
    /// Nothing is written.
    Nothing,
    /// The text goes to the terminal.
    Print(String),
    /// The file at the path is created (or truncated) and receives the text.
    ToFile(String, String),
}

impl Output {
    /// The output router.
    pub fn new() -> Output {
        Output {}
    }

    /// Where standard output text goes: into the file of a `>`/`1>` redirection,
    /// otherwise to the terminal.
    pub fn sdtout(&self, result: &String, redirection: &Redirection) -> (w: Write)
        ensures
            match redirection {
                Redirection::RedirectStdout(path) => w matches Write::ToFile(p, t) && p@ == path@ && t@ == result@,
                _ => w matches Write::Print(t) && t@ == result@,
            },
    {
        match redirection {
            Redirection::RedirectStdout(path) => Write::ToFile(path.clone(), result.clone()),
            _ => Write::Print(result.clone()),
        }
    }

    /// Where standard error text goes: into the file of a `2>` redirection, otherwise
    /// to the terminal when there is any.
    pub fn stderr(&self, result: &String, redirection: &Redirection) -> (w: Write)
        ensures
            match redirection {
                Redirection::RedirectStdErr(path) => w matches Write::ToFile(p, t) && p@ == path@ && t@ == result@,
                _ => if result@.len() > 0 {
                    w matches Write::Print(t) && t@ == result@
                } else {
                    w is Nothing
                },
            },
    {
        match redirection {
            Redirection::RedirectStdErr(path) => Write::ToFile(path.clone(), result.clone()),
            _ => {
                if !result.as_str().is_empty() {
                    Write::Print(result.clone())
                } else {
                    Write::Nothing
                }
            },
        }
    }
}

} // verus!
