//! The core of a sandboxed shell runtime: its state, its streams and pipelines, the commands that
//! it carries out itself, and the protocol that its host speaks.
pub mod ascii;
pub mod base64;
pub mod commands;
pub mod dbl_bracket;
pub mod dbl_bracket_laws;
pub mod entries;
pub mod external;
pub mod fd_table;
pub mod fetch;
pub mod globs;
pub mod host_laws;
pub mod membrane;
pub mod order;
pub mod pattern;
pub mod pipeline;
pub mod python;
pub mod redirect;
pub mod runtime;
pub mod signal_laws;
pub mod signals;
pub mod stages;
pub mod state;
pub mod state_laws;
pub mod stream;
pub mod text;
pub mod text_laws;
pub mod vars;
pub mod views;
pub mod word_laws;
pub mod words;
