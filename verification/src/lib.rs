//! A color-temperature daemon's core: the gamma curve builder, the
//! command/response wire codec, and the pure state machine that tracks
//! compositor outputs and their gamma-control sessions.

pub mod codec;
pub mod curve;
pub mod ipc;
pub mod wayland;
