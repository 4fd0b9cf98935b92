//! A minimal HTTP/1.1 server engine: requests read from the bytes of a
//! connection, responses rendered for the wire, cookies, a table of routes
//! with interceptors before and behind each handler, and the decisions
//! that a connection takes between reading and closing.
//!
//! The engine does no input or output. Sockets, tasks and time limits
//! belong to the program around it, which does what the engine decides and
//! tells it what happened.

pub mod http;

pub use http::middleware::MiddlewareGroup;
pub use http::response::Response;
pub use http::router::{Route, Router};
