//! A small fixed ascii buffer, used to carry short diagnostic text in
//! environments where nothing can allocate.

use vstd::prelude::*;

verus! {

/// Byte length of a `TinyAsciiString`.
pub const TINY_STRING_LEN: usize = 512;

/// Small ascii string: a fixed buffer of 512 bytes.
pub struct TinyAsciiString {
    /// The buffer for the ascii string.
    buf: [u8; 512],
}

impl View for TinyAsciiString {
    type V = Seq<u8>;

    /// The bytes of the buffer.
    closed spec fn view(&self) -> Seq<u8> {
        self.buf@
    }
}

impl TinyAsciiString {
    /// Creates a new string initialized to zero.
    pub fn new() -> (r: Self)
        ensures
            r@.len() == TINY_STRING_LEN,
            forall|i: int| 0 <= i < TINY_STRING_LEN ==> r@[i] == 0,
    {
        TinyAsciiString { buf: [0u8; 512] }
    }

    /// Writes the bytes of `s` at the start of the buffer, leaving the rest
    /// as it was; fails, writing nothing, if `s` does not fit.
    pub fn write_bytes(&mut self, s: &[u8]) -> (r: Result<(), ()>)
        ensures
            s@.len() > TINY_STRING_LEN ==> r is Err && final(self)@ == old(self)@,
            s@.len() <= TINY_STRING_LEN ==> r is Ok && final(self)@.len() == TINY_STRING_LEN
                && (forall|i: int|
                0 <= i < s@.len() ==> final(self)@[i] == s@[i]) && (forall|i: int|
                s@.len() <= i < TINY_STRING_LEN ==> final(self)@[i] == old(self)@[i]),
    {
        if s.len() > TINY_STRING_LEN {
            return Err(());
        }
        let mut idx: usize = 0;
        while idx < s.len()
            invariant
                0 <= idx <= s@.len() <= TINY_STRING_LEN,
                self@.len() == TINY_STRING_LEN,
                forall|i: int| 0 <= i < idx ==> self@[i] == s@[i],
                forall|i: int| idx <= i < TINY_STRING_LEN ==> self@[i] == old(self)@[i],
            decreases s@.len() - idx,
        {
            self.buf[idx] = s[idx];
            idx += 1;
        }
        Ok(())
    }

    /// The byte at `i`.
    pub fn get(&self, i: usize) -> (r: u8)
        requires
            i < TINY_STRING_LEN,
        ensures
            r == self@[i as int],
    {
        self.buf[i]
    }
}

} // verus!
