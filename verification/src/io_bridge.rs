//! The bridge between captured frames, the scheduler and the sessions.
pub mod acks;
pub mod config;
pub mod cpu;
pub mod dispatch;
pub mod feedback;
pub mod frame_guarantees;
pub mod frames;
pub mod full_frame;
pub mod gpu;
pub mod guarantees;
pub mod messages;
pub mod palette_run;
pub mod palettes;
pub mod phases;
pub mod session;
pub mod tiles;

pub use crate::io_bridge::frames::IoBridge;
