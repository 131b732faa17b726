//! The stages of streaming pipelines: each turns the bytes it is fed into output as it goes.
pub mod bat;
pub mod cut;
pub mod ends;
pub mod filter_laws;
pub mod grep;
pub mod grep_laws;
pub mod lines;
pub mod machine;
pub mod run_laws;
pub mod sed;
pub mod sed_laws;
pub mod sed_parse;
pub mod sed_script_laws;
pub mod simple;
pub mod tr;
pub mod tr_set;
pub mod tr_utf8;
pub mod uniq;
pub mod wc;
