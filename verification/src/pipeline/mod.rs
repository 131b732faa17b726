//! Streaming pipelines: their processes, how they are connected and how they are driven.
pub mod assemble;
pub mod body;
pub mod drive;
pub mod link;
pub mod network;
pub mod outcome;
pub mod pipe;
pub mod process;
pub mod reader;
pub mod schedule;
pub mod stage;
pub mod stage_laws;
pub mod stretch;
