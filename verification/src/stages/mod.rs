//! Reading the arguments of commands that can run as streaming stages. A command whose
//! arguments ask for more than streaming offers is no stage.
pub mod args;
pub mod bat;
pub mod cut;
pub mod ends;
pub mod grep;
pub mod filter_option_laws;
pub mod option_laws;
pub mod plain;
pub mod sed;
pub mod source_laws;
pub mod sources;
pub mod tr;
pub mod uniq;
