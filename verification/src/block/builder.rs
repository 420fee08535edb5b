//! The packer: takes entries one at a time and fills a block under a byte
//! budget.

use super::laws::lemma_offset_reads_entry;
use super::layout::{
    accepts, block_len, data_bytes, encoded_len, entry_bytes, entry_offsets, entry_start,
    lemma_data_bytes_push, lemma_entry_offsets_push, low16, read_entry, valid_entry, BlockView,
    Entry, SIZEOF_U16,
};
use super::wire::{put_slice, put_u16};
use super::Block;
use crate::key::{KeySlice, KeyVec};
use vstd::prelude::*;

verus! {

/// What a packer is: its budget and the entries it has taken, in order.
pub struct BuilderView {
    pub budget: nat,
    pub entries: Seq<Entry>,
}

/// Builds a block.
pub struct BlockBuilder {
    /// Where each entry begins in `data`.
    offsets: Vec<u16>,
    /// The bytes of all entries taken so far.
    data: Vec<u8>,
    /// The size that the encoded block should stay within.
    block_size: usize,
    /// The key of the first entry taken.
    first_key: KeyVec,
    /// The entries taken so far.
    held: Ghost<Seq<Entry>>,
}

impl View for BlockBuilder {
    type V = BuilderView;

    closed spec fn view(&self) -> BuilderView {
        BuilderView { budget: self.block_size as nat, entries: self.held@ }
    }
}

/// What a two-byte field keeps of a position in the data section.
fn offset_field(position: usize) -> (field: u16)
    ensures
        field == low16(position as int),
{
    (position % 0x1_0000) as u16
}

impl BlockBuilder {
    /// The budget that the packer was made with.
    pub open spec fn budget(&self) -> nat {
        self@.budget
    }

    /// The entries taken so far, in the order in which they came.
    pub open spec fn entries(&self) -> Seq<Entry> {
        self@.entries
    }

    /// The key that is kept as the block's first: that of the first entry
    /// taken, and empty before that.
    pub closed spec fn first_key(&self) -> Seq<u8> {
        self.first_key@
    }

    /// The buffers hold exactly the layout of the entries taken; every entry
    /// taken fits the layout; only a single entry can be over the budget.
    pub closed spec fn wf(&self) -> bool {
        let es = self.held@;
        &&& self.data@ == data_bytes(es)
        &&& self.offsets@ == entry_offsets(es)
        &&& forall|i: int| 0 <= i < es.len() ==> valid_entry(#[trigger] es[i])
        &&& self.first_key@ == if es.len() == 0 {
            Seq::<u8>::empty()
        } else {
            es[0].key
        }
        &&& self.block_size <= isize::MAX
        &&& es.len() >= 2 ==> encoded_len(es) <= self.block_size
    }

    /// Creates a packer for blocks of `block_size` bytes. No block can be
    /// larger than the largest allocation, so neither can the budget.
    pub fn new(block_size: usize) -> (builder: Self)
        requires
            block_size <= isize::MAX,
        ensures
            builder.wf(),
            builder.budget() == block_size,
            builder.entries() == Seq::<Entry>::empty(),
            builder.first_key() == Seq::<u8>::empty(),
    {
        let builder = BlockBuilder {
            offsets: Vec::new(),
            data: Vec::new(),
            block_size,
            first_key: KeyVec::new(),
            held: Ghost(Seq::empty()),
        };
        assert(builder.offsets@ =~= entry_offsets(builder.held@));
        builder
    }

    /// The length of the encoded block that holds the entries taken so far.
    fn chunk_size(&self) -> (size: usize)
        requires
            self.wf(),
        ensures
            size == encoded_len(self.entries()),
    {
        proof {
            self.lemma_size_bounds();
        }
        self.data.len() + self.offsets.len() * SIZEOF_U16 + SIZEOF_U16
    }

    /// Adds a key/value pair to the block. Returns `false`, and changes
    /// nothing, when the block holds an entry already and would grow past the
    /// budget with this one. An empty block takes any entry.
    ///
    /// The key must not be empty, and neither the key nor the value may be
    /// longer than a two-byte length can say.
    #[must_use]
    pub fn add(&mut self, key: KeySlice, value: &[u8]) -> (accepted: bool)
        requires
            old(self).wf(),
            1 <= key@.len() <= u16::MAX,
            value@.len() <= u16::MAX,
        ensures
            final(self).wf(),
            final(self).budget() == old(self).budget(),
            accepted == accepts(
                old(self).budget(),
                old(self).entries(),
                (Entry { key: key@, value: value@ }),
            ),
            final(self).entries() == if accepted {
                old(self).entries().push((Entry { key: key@, value: value@ }))
            } else {
                old(self).entries()
            },
            final(self).first_key() == if old(self).entries().len() == 0 {
                key@
            } else {
                old(self).first_key()
            },
    {
        let ghost held = self.held@;
        let ghost entry = Entry { key: key@, value: value@ };
        let size = self.chunk_size();
        if !self.is_empty() && size as u128 + key.len() as u128 + value.len() as u128 + (SIZEOF_U16
            * 3) as u128 > self.block_size as u128 {
            return false;
        }
        proof {
            self.lemma_size_bounds();
            lemma_data_bytes_push(held, entry);
            lemma_entry_offsets_push(held, entry);
        }
        self.offsets.push(offset_field(self.data.len()));
        put_u16(&mut self.data, key.len() as u16);
        put_slice(&mut self.data, key.raw_ref());
        put_u16(&mut self.data, value.len() as u16);
        put_slice(&mut self.data, value);
        if self.first_key.is_empty() {
            self.first_key = key.to_key_vec();
        }
        self.held = Ghost(held.push(entry));
        proof {
            assert(self.data@ =~= data_bytes(held) + entry_bytes(entry));
            assert(self.held@[0] == if held.len() == 0 {
                entry
            } else {
                held[0]
            });
        }
        true
    }

    /// Whether no entry has been taken yet.
    pub fn is_empty(&self) -> (empty: bool)
        requires
            self.wf(),
        ensures
            empty == (self.entries().len() == 0),
    {
        self.offsets.is_empty()
    }

    /// Finishes the block: hands the buffers over to a [`Block`]. The packer
    /// must hold an entry, so the block is never empty. A block of two or more
    /// entries is within the budget. Reading the data section at the offset of
    /// an entry gives the entry back, as long as the entry begins at a position
    /// that a two-byte offset can say.
    pub fn build(self) -> (block: Block)
        requires
            self.wf(),
            self.entries().len() > 0,
        ensures
            block@ == (BlockView {
                data: data_bytes(self.entries()),
                offsets: entry_offsets(self.entries()),
            }),
            block@.offsets.len() == self.entries().len(),
            block_len(block@) == encoded_len(self.entries()),
            block_len(block@) <= self.budget() || self.entries().len() == 1,
            block_len(block@) <= isize::MAX,
            forall|i: int|
                0 <= i < self.entries().len() && entry_start(self.entries(), i) <= u16::MAX
                    ==> read_entry(block@.data, #[trigger] block@.offsets[i] as int)
                    == self.entries()[i],
    {
        proof {
            self.lemma_size_bounds();
            self.lemma_invariant();
            let es = self.entries();
            assert forall|i: int| 0 <= i < es.len() && entry_start(es, i) <= u16::MAX implies
                read_entry(data_bytes(es), #[trigger] entry_offsets(es)[i] as int) == es[i] by {
                lemma_offset_reads_entry(es, i);
            }
        }
        Block { data: self.data, offsets: self.offsets }
    }

    /// What holds of every packer, whatever it was offered: each entry it took
    /// fits the layout; its first key is the key of the first entry; and the
    /// encoded block of what it holds is within the budget, unless it holds a
    /// single entry.
    pub proof fn lemma_invariant(&self)
        requires
            self.wf(),
        ensures
            forall|i: int|
                0 <= i < self.entries().len() ==> valid_entry(#[trigger] self.entries()[i]),
            self.first_key() == if self.entries().len() == 0 {
                Seq::<u8>::empty()
            } else {
                self.entries()[0].key
            },
            self.entries().len() <= 1 || encoded_len(self.entries()) <= self.budget(),
            self.budget() <= isize::MAX,
    {
    }
}

impl BlockBuilder {
    /// A packer that holds one entry holds no more than that entry's bytes; one
    /// that holds several is within its budget. Either way its sizes fit.
    proof fn lemma_size_bounds(&self)
        requires
            self.wf(),
        ensures
            self.offsets@.len() == self.entries().len(),
            self.data@.len() == data_bytes(self.entries()).len(),
            self.entries().len() == 0 ==> self.data@.len() == 0,
            encoded_len(self.entries()) <= isize::MAX,
    {
        let es = self.held@;
        if es.len() == 1 {
            assert(data_bytes(es.drop_last()) =~= Seq::<u8>::empty());
            assert(data_bytes(es) =~= entry_bytes(es[0]));
            assert(valid_entry(es[0]));
        }
    }
}

} // verus!
