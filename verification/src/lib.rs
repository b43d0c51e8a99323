//! The logic of a small interactive shell: splitting command lines into
//! words, redirections and pipeline stages, the variables, completions and
//! background jobs it keeps, the builtins `echo`, `complete`, `declare`,
//! `type` and `history`, command lookup on the search path, and command-name
//! completion. Reading the terminal, touching files and running processes is
//! left to the caller, which hands in what it read and carries out what is
//! decided here.
use vstd::prelude::*;

pub mod builtin;
pub mod context;
pub mod history;
pub mod program;
pub mod shell;
pub mod shell_parse;
pub mod shellhelper;
pub mod table;
pub mod text;
