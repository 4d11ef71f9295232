//! A cursor over borrowed bytes.

use vstd::prelude::*;

verus! {

/// A cursor over a borrowed byte slice. Reading hands out the front of the
/// slice and keeps the rest; the backing bytes are never copied.
#[derive(Debug, Clone)]
pub struct Reader<'a>(&'a [u8]);

impl<'a> View for Reader<'a> {
    type V = Seq<u8>;

    /// The bytes that have not been read yet.
    closed spec fn view(&self) -> Seq<u8> {
        self.0@
    }
}

impl<'a> Reader<'a> {
    /// A reader positioned at the start of `bytes`.
    pub fn new(bytes: &'a [u8]) -> (reader: Self)
        ensures
            reader@ == bytes@,
    {
        Reader(bytes)
    }

    /// Number of unread bytes.
    pub fn len(&self) -> (n: usize)
        ensures
            n == self@.len(),
    {
        self.0.len()
    }

    /// Whether every byte has been read.
    pub fn is_empty(&self) -> (b: bool)
        ensures
            b == (self@.len() == 0),
    {
        self.0.len() == 0
    }

    /// The unread bytes, without advancing.
    pub fn as_slice(&self) -> (rest: &'a [u8])
        ensures
            rest@ == self@,
    {
        self.0
    }

    /// The unread byte at `index`, without advancing.
    pub fn peek(&self, index: usize) -> (b: u8)
        requires
            index < self@.len(),
        ensures
            b == self@[index as int],
    {
        self.0[index]
    }

    /// Reads one byte and advances past it.
    pub fn read_byte(&mut self) -> (b: u8)
        requires
            old(self)@.len() >= 1,
        ensures
            b == old(self)@[0],
            final(self)@ == old(self)@.skip(1),
    {
        let bytes: &'a [u8] = self.0;
        let b = bytes[0];
        self.0 = &bytes[1..bytes.len()];
        b
    }

    /// Reads the next `size` bytes and advances past them.
    pub fn read_next(&mut self, size: usize) -> (front: &'a [u8])
        requires
            size <= old(self)@.len(),
        ensures
            front@ == old(self)@.take(size as int),
            final(self)@ == old(self)@.skip(size as int),
    {
        let bytes: &'a [u8] = self.0;
        let front = &bytes[0..size];
        self.0 = &bytes[size..bytes.len()];
        front
    }
}

impl<'a> From<&'a [u8]> for Reader<'a> {
    fn from(value: &'a [u8]) -> (reader: Self) {
        Reader(value)
    }
}

impl<'a> vstd::std_specs::convert::FromSpecImpl<&'a [u8]> for Reader<'a> {
    open spec fn obeys_from_spec() -> bool {
        true
    }

    closed spec fn from_spec(value: &'a [u8]) -> Self {
        Reader(value)
    }
}

/// A reader made by `From` starts at the first byte of the slice it was made of.
pub proof fn lemma_from_slice_view<'a>(value: &'a [u8])
    ensures
        <Reader<'a> as vstd::std_specs::convert::FromSpec<&'a [u8]>>::from_spec(value)@ == value@,
{
}

} // verus!
