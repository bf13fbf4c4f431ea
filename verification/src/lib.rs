//! An HTTP/1.1 static file server's request and response pipeline: the head
//! parser, the header model, the response builder and the per-connection
//! protocol, as verified logic over plain values.

pub mod http_header;
pub mod http_req;
pub mod http_res;
pub mod paths;
pub mod req_parser;
pub mod res_builder;
pub mod server;
pub mod text;
pub mod utils;
