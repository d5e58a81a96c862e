//! What the HTTP protocols share.

pub mod laws;
pub mod server_conn;
pub mod sse;
pub mod status;

pub use status::StatusCode;
