//! The key routes of the API: what they read from a request and answer.

pub mod key_controller;
