//! The ways a request can fail to parse.  Every error is terminal for the
//! in-flight request: the caller must stop feeding bytes and report it.

use vstd::prelude::*;

verus! {

/// Why parsing a request failed.
#[derive(Debug, Clone, Copy, PartialEq, Eq, Structural)]
pub enum ParseError {
    /// The accumulated bytes can never decode as UTF-8.
    InvalidEncoding,
    /// The request line does not have exactly three tokens, or its first
    /// token is not even method-shaped.
    MalformedRequestLine,
    /// The method token is well-formed but not a supported method.
    UnsupportedMethod,
    /// The version token does not start with `HTTP/`.
    InvalidHttpVersion,
    /// A header line has no colon, or whitespace inside the field name.
    MalformedHeaderLine,
    /// A header field name violates the token grammar.
    InvalidFieldName,
    /// The source ended before the header block was terminated.
    PrematureEof,
}

impl ParseError {
    /// A short human-readable description.
    pub fn describe(&self) -> (r: &'static str)
        ensures
            r@.len() > 0,
    {
        let s = match self {
            ParseError::InvalidEncoding => "data is not valid UTF-8",
            ParseError::MalformedRequestLine => "malformed request line",
            ParseError::UnsupportedMethod => "unsupported method",
            ParseError::InvalidHttpVersion => "missing or invalid http version",
            ParseError::MalformedHeaderLine => "malformed header line",
            ParseError::InvalidFieldName => "invalid header field name",
            ParseError::PrematureEof => "source ended before request complete",
        };
        proof {
            reveal_strlit("data is not valid UTF-8");
            reveal_strlit("malformed request line");
            reveal_strlit("unsupported method");
            reveal_strlit("missing or invalid http version");
            reveal_strlit("malformed header line");
            reveal_strlit("invalid header field name");
            reveal_strlit("source ended before request complete");
        }
        s
    }
}

} // verus!
