//! Client-side connection information and the decisions of client sessions.

pub mod conn;
pub mod session;
