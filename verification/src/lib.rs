//! Building blocks of a WebSocket/HTTP bidirectional RPC framework:
//! length-prefixed stream framing, the RPC packet envelope, URL and query
//! handling, route registries and the decisions of the connection workers.

pub mod accessor;
pub mod body;
pub mod client;
pub mod frame;
pub mod headers;
pub mod net;
pub mod packet;
pub mod params;
pub mod table;
pub mod query;
pub mod registry;
pub mod retry;
pub mod server;
pub mod settings;
pub mod text;
pub mod uri;
pub mod utils;

pub use frame::{FrameLen, FramedBox};
