//! The byte layout of a block, as mathematics.
//!
//! ```text
//! | entry 1 | ... | entry N | offset 1 (2B) | ... | offset N (2B) | N (2B) |
//! entry = | key_len (2B) | key | value_len (2B) | value |
//! ```
//!
//! Every two-byte field is big-endian.

use super::DecodeError;
use vstd::prelude::*;

verus! {

/// The width in bytes of every length, offset and count field of a block.
pub const SIZEOF_U16: usize = 2;

/// The two bytes that hold `n`, most significant first.
pub open spec fn be16_bytes(n: u16) -> Seq<u8> {
    seq![(n / 256) as u8, (n % 256) as u8]
}

/// The number held by the byte pair `hi`, `lo`.
pub open spec fn be16_value(hi: u8, lo: u8) -> u16 {
    (hi * 256 + lo) as u16
}

/// The two-byte field of `s` that begins at position `at`.
pub open spec fn be16_at(s: Seq<u8>, at: int) -> u16 {
    be16_value(s[at], s[at + 1])
}

/// What a two-byte field keeps of a length: its low sixteen bits.
pub open spec fn low16(n: int) -> u16 {
    (n % 0x1_0000) as u16
}

/// Reading back the bytes of a number gives the number.
pub proof fn lemma_be16_value_of_bytes(n: u16)
    ensures
        be16_bytes(n).len() == 2,
        be16_value(be16_bytes(n)[0], be16_bytes(n)[1]) == n,
{
}

/// Writing out the number of a byte pair gives the pair.
pub proof fn lemma_be16_bytes_of_value(hi: u8, lo: u8)
    ensures
        be16_bytes(be16_value(hi, lo)) == seq![hi, lo],
{
    assert(be16_bytes(be16_value(hi, lo)) =~= seq![hi, lo]);
}

/// One key/value pair, as the packer is given it.
pub struct Entry {
    pub key: Seq<u8>,
    pub value: Seq<u8>,
}

/// An entry that the layout can hold: the key is not empty, and both lengths
/// fit their two-byte fields.
pub open spec fn valid_entry(e: Entry) -> bool {
    1 <= e.key.len() <= u16::MAX && e.value.len() <= u16::MAX
}

/// The number of bytes that an entry takes in the data section.
pub open spec fn entry_len(e: Entry) -> nat {
    SIZEOF_U16 as nat + e.key.len() + SIZEOF_U16 as nat + e.value.len()
}

/// The bytes of one entry: each of key and value behind its length.
pub open spec fn entry_bytes(e: Entry) -> Seq<u8> {
    be16_bytes(low16(e.key.len() as int)) + e.key + be16_bytes(low16(e.value.len() as int))
        + e.value
}

/// The data section that holds `es`: their bytes, one entry after the other.
pub open spec fn data_bytes(es: Seq<Entry>) -> Seq<u8>
    decreases es.len(),
{
    if es.len() == 0 {
        Seq::empty()
    } else {
        data_bytes(es.drop_last()) + entry_bytes(es.last())
    }
}

/// The position in the data section at which entry `i` of `es` begins.
pub open spec fn entry_start(es: Seq<Entry>, i: int) -> nat {
    data_bytes(es.take(i)).len()
}

/// The offset table of `es`: for each entry, what a two-byte field keeps of
/// the position at which it begins.
pub open spec fn entry_offsets(es: Seq<Entry>) -> Seq<u16> {
    Seq::new(es.len(), |i: int| low16(entry_start(es, i) as int))
}

/// The entry that is read from `data` at position `at`: a length, that many
/// bytes of key, a length, that many bytes of value.
pub open spec fn read_entry(data: Seq<u8>, at: int) -> Entry {
    let key_at = at + SIZEOF_U16;
    let key_len = be16_at(data, at) as int;
    let value_at = key_at + key_len + SIZEOF_U16;
    let value_len = be16_at(data, key_at + key_len) as int;
    Entry {
        key: data.subrange(key_at, key_at + key_len),
        value: data.subrange(value_at, value_at + value_len),
    }
}

/// The length of the encoded block that holds `es`: data section, one offset
/// per entry, and the count.
pub open spec fn encoded_len(es: Seq<Entry>) -> nat {
    data_bytes(es).len() + SIZEOF_U16 as nat * es.len() + SIZEOF_U16 as nat
}

/// The packer's rule: with `held` already packed, `e` is taken if nothing is
/// held yet, or if the encoded block with `e` and its offset slot stays within
/// the budget.
pub open spec fn accepts(budget: nat, held: Seq<Entry>, e: Entry) -> bool {
    held.len() == 0 || encoded_len(held) + entry_len(e) + SIZEOF_U16 as nat <= budget
}

/// What a fresh packer with this budget holds after it was offered each entry
/// of `offered` in turn.
pub open spec fn packed(budget: nat, offered: Seq<Entry>) -> Seq<Entry>
    decreases offered.len(),
{
    if offered.len() == 0 {
        Seq::empty()
    } else {
        let held = packed(budget, offered.drop_last());
        if accepts(budget, held, offered.last()) {
            held.push(offered.last())
        } else {
            held
        }
    }
}

/// What a block is: its data section and its offset table.
pub struct BlockView {
    pub data: Seq<u8>,
    pub offsets: Seq<u16>,
}

/// The length of the encoded block: data section, one two-byte field per
/// offset, and the count.
pub open spec fn block_len(b: BlockView) -> nat {
    b.data.len() + SIZEOF_U16 as nat * b.offsets.len() + SIZEOF_U16 as nat
}

/// The offset section: the two bytes of each offset, in the table's order.
pub open spec fn offsets_bytes(offsets: Seq<u16>) -> Seq<u8> {
    Seq::new(SIZEOF_U16 as nat * offsets.len(), |j: int| be16_bytes(offsets[j / 2])[j % 2])
}

/// The encoded block: the data section, the offset section, and what a
/// two-byte field keeps of the number of entries.
pub open spec fn block_bytes(b: BlockView) -> Seq<u8> {
    b.data + offsets_bytes(b.offsets) + be16_bytes(low16(b.offsets.len() as int))
}

/// The block that `bytes` encode. The last two bytes are the count `n`; the
/// `n` two-byte fields before them are the offsets; all before those is the
/// data section. Bytes too few to hold a count, or to hold the offsets that
/// the count announces, encode no block.
pub open spec fn parse_block(bytes: Seq<u8>) -> Result<BlockView, DecodeError> {
    if bytes.len() < SIZEOF_U16 {
        Err(DecodeError::Truncated)
    } else {
        let count = be16_at(bytes, bytes.len() - SIZEOF_U16);
        if SIZEOF_U16 + SIZEOF_U16 * count > bytes.len() {
            Err(DecodeError::CountExceedsLength)
        } else {
            let data_end = bytes.len() - SIZEOF_U16 - SIZEOF_U16 * count;
            Ok(
                BlockView {
                    data: bytes.take(data_end),
                    offsets: Seq::new(
                        count as nat,
                        |i: int| be16_at(bytes, data_end + SIZEOF_U16 * i),
                    ),
                },
            )
        }
    }
}

/// Packing one more entry appends its bytes to the data section.
pub proof fn lemma_data_bytes_push(es: Seq<Entry>, e: Entry)
    ensures
        data_bytes(es.push(e)) == data_bytes(es) + entry_bytes(e),
        data_bytes(es.push(e)).len() == data_bytes(es).len() + entry_len(e),
{
    assert(es.push(e).drop_last() =~= es);
}

/// Packing one more entry appends its start to the offset table.
pub proof fn lemma_entry_offsets_push(es: Seq<Entry>, e: Entry)
    ensures
        entry_offsets(es.push(e)) == entry_offsets(es).push(low16(data_bytes(es).len() as int)),
{
    let more = es.push(e);
    assert(more.take(es.len() as int) =~= es);
    assert forall|i: int| 0 <= i < es.len() implies entry_start(more, i) == entry_start(es, i) by {
        assert(more.take(i) =~= es.take(i));
    }
    assert(entry_offsets(more) =~= entry_offsets(es).push(low16(data_bytes(es).len() as int)));
}

/// Writing one more offset appends its two bytes to the offset section.
pub proof fn lemma_offsets_bytes_push(offsets: Seq<u16>, offset: u16)
    ensures
        offsets_bytes(offsets.push(offset)) == offsets_bytes(offsets) + be16_bytes(offset),
{
    assert(offsets_bytes(offsets.push(offset)) =~= offsets_bytes(offsets) + be16_bytes(offset));
}

} // verus!
