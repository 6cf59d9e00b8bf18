//! The capability a request is read from.
//!
//! Anything that can hand over the next few bytes of a stream can feed the
//! parser: a TCP connection, a file, or an in-memory buffer.  Implementors
//! promise that a returned empty read unambiguously signals the end of the
//! stream, and that bytes arrive in stream order — nothing is promised
//! about where the stream is cut.

use vstd::prelude::*;

verus! {

/// A source of bytes, delivered in chunks cut at arbitrary points.
pub trait ByteSource {
    /// The bytes this source has yet to deliver.  The default leaves an
    /// implementation outside the verified world unmodeled; every
    /// implementation inside it gives its own.
    open spec fn stream(&self) -> Seq<u8> {
        Seq::empty()
    }

    /// Hands over between 1 and `max` of the next stream bytes, or an
    /// empty vector exactly when the stream is exhausted.
    fn read_some(&mut self, max: usize) -> (r: Vec<u8>)
        requires
            max >= 1,
        ensures
            r@.len() <= max,
            r@.len() <= old(self).stream().len(),
            r@ == old(self).stream().take(r@.len() as int),
            final(self).stream() == old(self).stream().skip(r@.len() as int),
            old(self).stream().len() > 0 ==> r@.len() >= 1,
    ;
}

} // verus!
