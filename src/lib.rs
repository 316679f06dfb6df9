//! A small note server: an HTTP/1.1 request reader and response writer that work
//! on bytes, and a dispatcher that turns a request into a note operation.
pub mod text;
pub mod http;
pub mod render;
pub mod router;
