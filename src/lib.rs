//! A small HTTP/1.1 request and response engine: requests parsed from the bytes of one read,
//! routed by exact path to handlers, and responses written back as text.

pub mod api;
pub mod http;
pub mod routes;
pub mod text;
