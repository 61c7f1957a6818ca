use vstd::prelude::*;

verus! {

/// Growable reusable byte buffer.
#[derive(Debug)]
pub struct ByteBuffer {
    buf: Vec<u8>,
}

impl View for ByteBuffer {
    type V = Seq<u8>;

    closed spec fn view(&self) -> Seq<u8> {
        self.buf@
    }
}

impl ByteBuffer {
    /// An empty buffer with room reserved for `capacity` bytes.
    pub fn new(capacity: usize) -> (b: Self)
        ensures
            b@ == Seq::<u8>::empty(),
    {
        Self { buf: Vec::with_capacity(capacity) }
    }

    /// Drops the contents, keeping the allocation.
    pub fn clear(&mut self)
        ensures
            final(self)@ == Seq::<u8>::empty(),
    {
        self.buf.clear();
    }

    /// Appends `data` to the end of the buffer.
    pub fn extend(&mut self, data: &[u8])
        ensures
            final(self)@ == old(self)@ + data@,
    {
        self.buf.extend_from_slice(data);
    }

    /// The bytes held so far.
    pub fn as_slice(&self) -> (s: &[u8])
        ensures
            s@ == self@,
    {
        self.buf.as_slice()
    }

    /// Number of bytes held so far.
    pub fn len(&self) -> (n: usize)
        ensures
            n == self@.len(),
    {
        self.buf.len()
    }
}

} // verus!
