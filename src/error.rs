//! The ways framing a message can fail.
use vstd::prelude::*;

verus! {

/// Why a request could not be written or a response head could not be read.
#[derive(Copy, Clone, PartialEq, Eq, Debug, Structural)]
pub enum HttpError {
    /// The text given as the request URL is not a URL.
    UrlParse,
    /// The status line holds no numeric status code.
    MissingStatusCode,
    /// The status line holds no reason phrase.
    MissingReasonPhrase,
    /// The header tokenizer rejected the bytes of the header block.
    MalformedHeaderBlock,
    /// The stream ended before the blank line that closes the header block.
    TruncatedStream,
}

} // verus!
