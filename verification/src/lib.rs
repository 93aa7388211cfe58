//! Substitution of bash-like variables (`$VAR`, `${VAR}`, `${VAR:-DEFAULT}` and the
//! string functions of braced variables) with values from an environment.

pub mod text;
pub mod errors;
pub mod flags;
pub mod string_set;
pub mod utils;
pub mod filters;
pub mod io;
pub mod file_io;
pub mod environment;
pub mod substitute;
pub mod variable_expansion;
pub mod env_subst;
pub mod help;
pub mod args;
pub mod completion;
