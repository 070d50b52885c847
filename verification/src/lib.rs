//! Test-run parsing, activity tracking, undo checkpoints, BI report queries,
//! source outlines and sandbox planning for a local coding agent.

pub mod activity;
pub mod calendar;
pub mod checkpoints;
pub mod checks;
pub mod iyunzhi;
pub mod json;
pub mod linux_sandbox;
pub mod outline;
pub mod pattern;
pub mod text;
