//! # httplib
//!
//! Lightweight, synchronous HTTP server building blocks: request parsing,
//! response serialization and a trie router, each with a machine-checked
//! specification.
pub mod http;
pub mod handlers;

pub use http::Server;
pub use http::Router;
pub use http::Request;
pub use http::Response;
pub use http::Method;
pub use http::response;
