//! Server-side connection information and the decisions of the server worker.

pub mod conn;
pub mod worker;
