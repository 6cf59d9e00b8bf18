//! An incremental HTTP/1.1 request parser.
//!
//! A request arrives as a byte stream cut into chunks at arbitrary points:
//! a single read may end in the middle of a header field, of a CRLF, or of
//! a multi-byte UTF-8 character.  The parser is therefore re-entrant: it
//! consumes whatever complete lines are available, reports exactly how many
//! bytes it took, and waits for more.  Every parsing step is verified
//! against a functional specification of the wire grammar, so the parsed
//! result provably depends only on the byte stream, never on how the stream
//! was chopped into reads.

pub mod chunk_reader;
pub mod encoding;
pub mod error;
pub mod grammar;
pub mod headers;
pub mod request;
pub mod source;

pub use chunk_reader::ChunkReader;
pub use error::ParseError;
pub use headers::Headers;
pub use request::{request_from_reader, Request, RequestLine, RequestState};
pub use source::ByteSource;

