//! The websocket hub: chat rooms and key-prefix listeners over connected sessions.

pub mod named_sets;
pub mod ws_actor;
pub mod session_command;
