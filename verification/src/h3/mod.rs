//! HTTP/3: header compression, frames, and the client and server front ends.

pub mod body;
pub mod client;
pub mod code;
pub mod connection;
pub mod delivery;
pub mod exchange;
pub mod huffman;
pub mod laws;
pub mod pieces;
pub mod qpack;
pub mod server;
pub mod static_table;
pub mod stream;
pub mod unified;
pub mod wire;
