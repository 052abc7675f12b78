//! An in-memory chat broker: a registry of connected sessions, a directory of
//! named rooms, and a dispatcher that works out who receives a broadcast.

pub mod ids;
pub mod room;
pub mod server;
pub mod laws;
