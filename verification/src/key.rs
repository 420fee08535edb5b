//! Keys as they are handed to the packer: a borrowed view and an owned buffer.

use vstd::prelude::*;
use vstd::slice::slice_to_vec;

verus! {

/// A key borrowed from the caller. The packer copies the bytes it keeps, so
/// the borrow need not outlive the call.
#[derive(Clone, Copy)]
pub struct KeySlice<'a> {
    raw: &'a [u8],
}

/// A key that owns its bytes.
pub struct KeyVec {
    raw: Vec<u8>,
}

impl<'a> View for KeySlice<'a> {
    type V = Seq<u8>;

    closed spec fn view(&self) -> Seq<u8> {
        self.raw@
    }
}

impl View for KeyVec {
    type V = Seq<u8>;

    closed spec fn view(&self) -> Seq<u8> {
        self.raw@
    }
}

impl<'a> KeySlice<'a> {
    /// Wraps a byte slice as a key, without copying.
    pub fn from_slice(slice: &'a [u8]) -> (key: Self)
        ensures
            key@ == slice@,
    {
        KeySlice { raw: slice }
    }

    /// The bytes of the key.
    pub fn raw_ref(&self) -> (bytes: &'a [u8])
        ensures
            bytes@ == self@,
    {
        self.raw
    }

    /// The number of bytes in the key.
    pub fn len(&self) -> (n: usize)
        ensures
            n == self@.len(),
    {
        self.raw.len()
    }

    /// Whether the key has no bytes.
    pub fn is_empty(&self) -> (empty: bool)
        ensures
            empty == (self@.len() == 0),
    {
        self.raw.len() == 0
    }

    /// Copies the key into a buffer of its own.
    pub fn to_key_vec(&self) -> (owned: KeyVec)
        ensures
            owned@ == self@,
    {
        KeyVec { raw: slice_to_vec(self.raw) }
    }
}

impl KeyVec {
    /// The empty key.
    pub fn new() -> (key: Self)
        ensures
            key@ == Seq::<u8>::empty(),
    {
        KeyVec { raw: Vec::new() }
    }

    /// The bytes of the key.
    pub fn raw_ref(&self) -> (bytes: &[u8])
        ensures
            bytes@ == self@,
    {
        self.raw.as_slice()
    }

    /// Whether the key has no bytes.
    pub fn is_empty(&self) -> (empty: bool)
        ensures
            empty == (self@.len() == 0),
    {
        self.raw.len() == 0
    }
}

} // verus!
