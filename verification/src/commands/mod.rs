//! The commands that the runtime itself carries out, and how a command is found.
pub mod alias;
pub mod arrays;
pub mod assign;
pub mod assign_laws;
pub mod command_laws;
pub mod declare;
pub mod file_laws;
pub mod files;
pub mod mapfile;
pub mod printed;
pub mod resolve;
pub mod scope;
pub mod shopt;
pub mod subset;
