//! A namespaced, authenticated event broker: frames and their wire codec,
//! the durable per-namespace queue, the server's protocol handlers and the
//! client's decisions.
pub mod client;
pub mod decode;
pub mod encode;
pub mod frame;
pub mod queue;
pub mod registry;
pub mod round_trip;
pub mod server;
pub mod stream;
pub mod utils;
pub mod wire;
