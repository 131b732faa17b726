//! Pattern matching on bytes: shell globs, extended globs and regular expressions.
pub mod extglob;
pub mod glob;
pub mod parens;
pub mod posix;
pub mod regex;
pub mod regex_laws;
pub mod regex_simple;
pub mod regex_spec;
