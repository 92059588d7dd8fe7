//! A minimal HTTP/1.1 client: request messages are assembled and serialized,
//! and raw response text is taken apart into status, headers and body.

pub mod http;
