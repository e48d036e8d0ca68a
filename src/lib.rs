//! HTTP/1.1 message framing for a single request/response exchange over a
//! byte stream: a request encoder and a response decoder.

pub mod text;
pub mod fields;
pub mod request;
pub mod response;
