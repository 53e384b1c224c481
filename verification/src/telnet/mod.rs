//! The Telnet side of a session.

pub mod ansi;
pub mod laws;
pub mod processor;
pub mod protocol;
