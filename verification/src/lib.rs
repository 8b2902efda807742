//! A minimal HTTP/1.1 protocol layer: a byte-level request parser, a
//! response serializer with Content-Length framing, and the pure routing
//! rules of a small file-serving server. Network I/O lives outside this
//! library; everything here is verified.

pub mod cli;
pub mod errors;
pub mod split;
pub mod text;
pub mod request;
pub mod response;
pub mod routes;
