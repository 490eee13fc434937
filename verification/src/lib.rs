//! A minimal uptime monitor library: a tri-state reachability history with
//! bounded retention, a gap-padding rule for restarts, the monitor loop's
//! state machine, and a verified codec for the persisted document format.

pub mod clock;
pub mod codec;
pub mod history;
pub mod monitor;
