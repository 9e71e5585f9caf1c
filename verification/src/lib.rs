//! Coordination core of a watch-party server: rooms whose members share one
//! synchronized playback position.
//!
//! Every component is a synchronous state machine. The surrounding server owns
//! the sockets, channels and timers; it feeds events in and carries out what
//! the state machines decide.

pub mod client;
pub mod protocol;
pub mod room;
pub mod room_mng;
