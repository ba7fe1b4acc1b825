//! tinybase: a small key-value database in the style of Replit DB, with a
//! shared-secret guard on its routes and a websocket hub that keeps chat rooms
//! and key-prefix listeners.

pub mod actors;
pub mod auth_middleware;
pub mod controllers;
pub mod data_access;
pub mod prefix;
pub mod url_codec;
pub mod visitors;
