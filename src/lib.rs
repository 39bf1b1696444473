//! Framing of HTTP/1.x messages: writing a request head and body into bytes,
//! and reading a response head back out of a byte stream.
pub mod error;
pub mod laws;
pub mod request;
pub mod response;
pub mod text;

pub use error::HttpError;
pub use request::{write_body_for_url, write_body_plus_boring_headers, write_raw, Method, TargetUrl};
pub use response::{
    header_block_step, read_response, read_until_empty_line, response_from_head, LineStep,
    Response, ResponseHead,
};
