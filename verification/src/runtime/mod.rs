//! The runtime: how a shell is configured, driven and answered.
pub mod config;
pub mod control;
pub mod control_laws;
pub mod flow;
pub mod isolated;
pub mod output;
pub mod output_laws;
pub mod protocol;
pub mod run;
pub mod signal;
pub mod single;
pub mod subst;
pub mod worker;
pub mod worker_laws;
