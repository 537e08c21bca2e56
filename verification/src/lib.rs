//! Verified core of a detached, observable subprocess runner.

pub mod cli;
pub mod client;
pub mod daemon;
pub mod doctor;
pub mod grep;
pub mod ids;
pub mod ipc;
pub mod lines;
pub mod matcher;
pub mod meta;
pub mod pty;
pub mod segments;
pub mod skills;
pub mod slice;
pub mod state;
pub mod summary;
pub mod tail;
pub mod text;
pub mod wait;
pub mod window;
