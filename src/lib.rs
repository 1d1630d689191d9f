//! Client side of a JSON-RPC connection to a long-running daemon: the codec
//! that cuts a byte stream into text frames, and the engine that correlates
//! responses with requests and routes subscription notifications.
pub mod buffer;
pub mod codec;
pub mod engine;
pub mod error;
pub mod keyed;
pub mod options;
pub mod transport;
