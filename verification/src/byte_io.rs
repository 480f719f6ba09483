//! In-memory byte streams that the range coders read from and write to.

use vstd::prelude::*;

use crate::error::IoError;

verus! {

/// A coded stream held in memory, read front to back.
pub struct ByteReader {
    data: Vec<u8>,
    pos: usize,
}

impl ByteReader {
    #[verifier::type_invariant]
    spec fn inv(self) -> bool {
        self.pos <= self.data.len()
    }

    /// All bytes of the stream, read or not.
    pub closed spec fn data(&self) -> Seq<u8> {
        self.data@
    }

    /// How many bytes have been read.
    pub closed spec fn pos(&self) -> nat {
        if self.pos <= self.data.len() {
            self.pos as nat
        } else {
            self.data.len() as nat
        }
    }

    /// A reader never stands beyond the end of its data.
    pub broadcast proof fn lemma_pos_bound(r: ByteReader)
        ensures
            #[trigger] r.pos() <= r.data().len(),
    {
    }

    /// The bytes not read yet.
    pub open spec fn rest(&self) -> Seq<u8> {
        self.data().subrange(self.pos() as int, self.data().len() as int)
    }

    /// A reader at the start of `data`.
    pub fn new(data: Vec<u8>) -> (r: ByteReader)
        ensures
            r.data() == data@,
            r.pos() == 0,
    {
        ByteReader { data, pos: 0 }
    }

    /// How many bytes have been read.
    pub fn position(&self) -> (p: usize)
        ensures
            p == self.pos(),
            self.pos() <= self.data().len(),
    {
        proof {
            use_type_invariant(self);
        }
        self.pos
    }

    /// How many bytes are left to read.
    pub fn len(&self) -> (n: usize)
        ensures
            self.pos() <= self.data().len(),
            n == self.data().len() - self.pos(),
    {
        proof {
            use_type_invariant(self);
        }
        self.data.len() - self.pos
    }

    /// Whether every byte has been read.
    pub fn is_empty(&self) -> (b: bool)
        ensures
            self.pos() <= self.data().len(),
            b == (self.pos() == self.data().len()),
    {
        proof {
            use_type_invariant(self);
        }
        self.pos == self.data.len()
    }

    /// The bytes not read yet.
    pub fn remaining(&self) -> (s: &[u8])
        ensures
            self.pos() <= self.data().len(),
            s@ == self.rest(),
    {
        proof {
            use_type_invariant(self);
        }
        vstd::slice::slice_subrange(self.data.as_slice(), self.pos, self.data.len())
    }

    /// The bytes not read yet, as a vector of their own.
    pub fn into_remaining(self) -> (v: Vec<u8>)
        ensures
            v@ == self.rest(),
    {
        proof {
            use_type_invariant(&self);
        }
        let mut data = self.data;
        let rest = data.split_off(self.pos);
        rest
    }

    /// Reads the next byte; fails, and reads nothing, at the end of the stream.
    pub fn read_byte(&mut self) -> (r: Result<u8, IoError>)
        ensures
            final(self).data() == old(self).data(),
            old(self).pos() <= old(self).data().len(),
            final(self).pos() <= final(self).data().len(),
            old(self).pos() < old(self).data().len() ==> {
                &&& r == Ok::<u8, IoError>(old(self).data()[old(self).pos() as int])
                &&& final(self).pos() == old(self).pos() + 1
            },
            old(self).pos() == old(self).data().len() ==> {
                &&& r == Err::<u8, IoError>(IoError::UnexpectedEof)
                &&& final(self).pos() == old(self).pos()
            },
    {
        proof {
            use_type_invariant(&*self);
        }
        if self.pos < self.data.len() {
            let b = self.data[self.pos];
            self.pos = self.pos + 1;
            Ok(b)
        } else {
            Err(IoError::UnexpectedEof)
        }
    }
}

/// A coded stream being written into memory.
pub struct ByteWriter {
    data: Vec<u8>,
}

impl ByteWriter {
    /// The bytes written so far, after those the writer started with.
    pub closed spec fn data(&self) -> Seq<u8> {
        self.data@
    }

    /// A writer that appends to `data`.
    pub fn new(data: Vec<u8>) -> (w: ByteWriter)
        ensures
            w.data() == data@,
    {
        ByteWriter { data }
    }

    /// How many bytes the writer holds.
    pub fn len(&self) -> (n: usize)
        ensures
            n == self.data().len(),
    {
        self.data.len()
    }

    /// The bytes the writer holds.
    pub fn as_slice(&self) -> (s: &[u8])
        ensures
            s@ == self.data(),
    {
        self.data.as_slice()
    }

    /// The bytes the writer holds, as a vector.
    pub fn into_inner(self) -> (v: Vec<u8>)
        ensures
            v@ == self.data(),
    {
        self.data
    }

    /// Appends one byte.
    pub fn write_byte(&mut self, b: u8)
        ensures
            final(self).data() == old(self).data().push(b),
    {
        self.data.push(b);
    }
}

} // verus!
