//! The protocol engine.

pub mod cookie;
pub mod middleware;
pub mod request;
pub mod response;
pub mod router;
pub mod socket;
pub mod table;
pub mod text;
pub mod wire;
