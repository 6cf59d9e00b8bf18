//! An in-memory byte source that deliberately fragments its data into
//! small fixed-size reads, to exercise the parser across every possible
//! chunk boundary.

use vstd::prelude::*;
use vstd::slice::slice_to_vec;
use vstd::utf8::encode_utf8;

use crate::grammar::copy_range;
use crate::source::ByteSource;

verus! {

/// Replays a fixed buffer, at most `num_bytes_per_read` bytes per read.
pub struct ChunkReader {
    data: Vec<u8>,
    num_bytes_per_read: usize,
    pos: usize,
}

impl ChunkReader {
    /// A reader over the UTF-8 bytes of `data`.  Whatever the chunk size,
    /// the stream is the same — which is the point of this type.
    pub fn new(data: &str, num_bytes_per_read: usize) -> (r: ChunkReader)
        requires
            num_bytes_per_read >= 1,
        ensures
            r.stream() == encode_utf8(data@),
    {
        let r = ChunkReader { data: slice_to_vec(data.as_bytes()), num_bytes_per_read, pos: 0 };
        proof {
            assert(r.data@.skip(0) =~= r.data@);
        }
        r
    }
}

impl ByteSource for ChunkReader {
    closed spec fn stream(&self) -> Seq<u8> {
        if self.pos <= self.data@.len() && self.num_bytes_per_read >= 1 {
            self.data@.skip(self.pos as int)
        } else {
            Seq::empty()
        }
    }

    fn read_some(&mut self, max: usize) -> (r: Vec<u8>) {
        if self.pos >= self.data.len() || self.num_bytes_per_read == 0 {
            let r = Vec::new();
            proof {
                assert(r@ =~= old(self).stream().take(0));
            }
            return r;
        }
        let remaining = self.data.len() - self.pos;
        let mut n = self.num_bytes_per_read;
        if remaining < n {
            n = remaining;
        }
        if max < n {
            n = max;
        }
        let r = copy_range(self.data.as_slice(), self.pos, self.pos + n);
        proof {
            assert(r@ =~= old(self).stream().take(n as int));
        }
        self.pos = self.pos + n;
        proof {
            assert(self.stream() =~= old(self).stream().skip(n as int));
        }
        r
    }
}

} // verus!
