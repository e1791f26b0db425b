//! The names of a scan, one after the other in one buffer.

use crate::index::builder::{clip_len, clipped};
use crate::text::{append_bytes, utf8_text};
use vstd::prelude::*;
use vstd::string::StringSliceAdditionalSpecFns;
use vstd::utf8::valid_utf8;

verus! {

/// The names of a scan.
pub struct MftArena {
    buf: Vec<u8>,
}

impl View for MftArena {
    type V = Seq<u8>;

    closed spec fn view(&self) -> Seq<u8> {
        self.buf@
    }
}

/// An arena is no longer than a vector can be.
pub(crate) proof fn lemma_arena_length(arena: MftArena)
    ensures
        arena@.len() <= usize::MAX,
{
    assert(arena.buf.len() == arena.buf@.len());
}

impl MftArena {
    /// An empty arena with room for `cap` bytes.
    pub fn with_capacity(cap: usize) -> (arena: Self)
        requires
            cap <= isize::MAX,
        ensures
            arena@ == Seq::<u8>::empty(),
    {
        MftArena { buf: Vec::with_capacity(cap) }
    }

    /// Appends a name and tells where it lies. The offset is kept modulo its width, and the length
    /// is cut down to what its width can tell.
    pub fn push(&mut self, s: &str) -> (place: (u32, u16))
        ensures
            final(self)@ == old(self)@ + s.spec_bytes(),
            place.0 == old(self)@.len() as u32,
            place.1 == clipped(s.spec_bytes().len() as int),
    {
        self.push_bytes(s.as_bytes())
    }

    /// Appends a name that need not be text, as `push` does.
    pub fn push_bytes(&mut self, name: &[u8]) -> (place: (u32, u16))
        ensures
            final(self)@ == old(self)@ + name@,
            place.0 == old(self)@.len() as u32,
            place.1 == clipped(name@.len() as int),
    {
        let off = #[verifier::truncate] (self.buf.len() as u32);
        append_bytes(&mut self.buf, name);
        (off, clip_len(name.len()))
    }

    /// The bytes of the name at `off`.
    pub fn get_bytes(&self, off: u32, len: u16) -> (name: &[u8])
        requires
            off + len <= self@.len(),
        ensures
            name@ == self@.subrange(off as int, off + len),
    {
        let buf = self.buf.as_slice();
        assert(off + len <= buf.len());
        vstd::slice::slice_subrange(buf, off as usize, off as usize + len as usize)
    }

    /// The name at `off`, which must be text.
    pub fn get(&self, off: u32, len: u16) -> (name: &str)
        requires
            off + len <= self@.len(),
            valid_utf8(self@.subrange(off as int, off + len)),
        ensures
            name.spec_bytes() == self@.subrange(off as int, off + len),
    {
        match utf8_text(self.get_bytes(off, len)) {
            Some(name) => name,
            None => {
                assert(false);
                ""
            },
        }
    }

    /// Gives up the buffer.
    pub fn into_bytes(self) -> (bytes: Vec<u8>)
        ensures
            bytes@ == self@,
    {
        self.buf
    }
}

} // verus!
