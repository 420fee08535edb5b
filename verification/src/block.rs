//! A block: the entries' bytes and the table of where each entry begins.

pub mod builder;
pub mod laws;
pub mod layout;
pub mod wire;

pub use builder::BlockBuilder;
pub use layout::SIZEOF_U16;

use bytes::Bytes;
use layout::{
    be16_at, block_bytes, block_len, lemma_offsets_bytes_push, offsets_bytes, parse_block,
    BlockView,
};
use vstd::prelude::*;
use vstd::slice::{slice_subrange, slice_to_vec};
use wire::{bytes_of, get_u16, into_bytes, put_u16};

verus! {

/// Why bytes were refused as the encoding of a block: they were damaged or cut
/// short on their way here.
#[derive(Clone, Copy, Debug, PartialEq, Eq)]
pub enum DecodeError {
    /// There are fewer than two bytes, so not even a count.
    Truncated,
    /// The count announces more offsets than there are bytes before it.
    CountExceedsLength,
}

/// The smallest unit that is read and cached: a run of entries and the offset
/// of each. A block is made by [`BlockBuilder::build`] or by decoding, and is
/// only read afterwards.
pub struct Block {
    pub(crate) data: Vec<u8>,
    pub(crate) offsets: Vec<u16>,
}

impl View for Block {
    type V = BlockView;

    open(crate) spec fn view(&self) -> BlockView {
        BlockView { data: self.data@, offsets: self.offsets@ }
    }
}

impl Block {
    /// The data section: the entries' bytes, one entry after the other.
    pub fn data(&self) -> (bytes: &[u8])
        ensures
            bytes@ == self@.data,
    {
        self.data.as_slice()
    }

    /// The offset table: for each entry, where it begins in the data section.
    pub fn offsets(&self) -> (table: &[u16])
        ensures
            table@ == self@.offsets,
    {
        self.offsets.as_slice()
    }

    /// Encodes the block: the data section as it is, then each offset as two
    /// bytes, then the number of entries as two bytes.
    ///
    /// The encoding is one allocation, so it must be no longer than the largest
    /// one; a block that [`BlockBuilder::build`] made is not.
    pub fn encode(&self) -> (encoded: Bytes)
        requires
            block_len(self@) <= isize::MAX,
        ensures
            bytes_of(encoded) == block_bytes(self@),
            bytes_of(encoded).len() == block_len(self@),
    {
        let mut result = self.data.clone();
        let number_of_elements = (self.offsets.len() % 0x1_0000) as u16;
        let mut i: usize = 0;
        while i < self.offsets.len()
            invariant
                i <= self.offsets.len(),
                block_len(self@) <= isize::MAX,
                result@ == self.data@ + offsets_bytes(self.offsets@.take(i as int)),
            decreases self.offsets.len() - i,
        {
            proof {
                lemma_offsets_bytes_push(self.offsets@.take(i as int), self.offsets@[i as int]);
                assert(self.offsets@.take(i as int).push(self.offsets@[i as int])
                    =~= self.offsets@.take(i + 1));
            }
            put_u16(&mut result, self.offsets[i]);
            i += 1;
        }
        assert(self.offsets@.take(i as int) =~= self.offsets@);
        put_u16(&mut result, number_of_elements);
        into_bytes(result)
    }

    /// Decodes a block from its encoding. Fails on bytes that cannot hold what
    /// their own count announces; it does not look into the data section.
    pub fn decode(data: &[u8]) -> (decoded: Result<Block, DecodeError>)
        ensures
            match decoded {
                Ok(block) => parse_block(data@) == Ok::<BlockView, DecodeError>(block@),
                Err(error) => parse_block(data@) == Err::<BlockView, DecodeError>(error),
            },
            decoded matches Ok(block) ==> block_len(block@) == data@.len(),
    {
        let len = data.len();
        if len < SIZEOF_U16 {
            return Err(DecodeError::Truncated);
        }
        let number_of_elements = get_u16(slice_subrange(data, len - SIZEOF_U16, len)) as usize;
        if number_of_elements > (len - SIZEOF_U16) / SIZEOF_U16 {
            return Err(DecodeError::CountExceedsLength);
        }
        let data_end = len - SIZEOF_U16 - number_of_elements * SIZEOF_U16;
        let mut offsets: Vec<u16> = Vec::new();
        let mut i: usize = 0;
        while i < number_of_elements
            invariant
                i <= number_of_elements,
                len == data@.len(),
                data_end + number_of_elements * SIZEOF_U16 + SIZEOF_U16 == len,
                offsets@ == Seq::new(i as nat, |j: int| be16_at(data@, data_end + SIZEOF_U16 * j)),
            decreases number_of_elements - i,
        {
            let at = data_end + i * SIZEOF_U16;
            offsets.push(get_u16(slice_subrange(data, at, at + SIZEOF_U16)));
            i += 1;
            assert(offsets@ =~= Seq::new(
                i as nat,
                |j: int| be16_at(data@, data_end + SIZEOF_U16 * j),
            ));
        }
        let data = slice_to_vec(slice_subrange(data, 0, data_end));
        Ok(Block { data, offsets })
    }
}

} // verus!
