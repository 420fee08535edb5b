//! What holds of packing and of the codec, proved from the layout.

use super::layout::{
    accepts, be16_at, be16_bytes, block_bytes, block_len, data_bytes, encoded_len,
    entry_bytes, entry_len, entry_offsets, entry_start, lemma_be16_bytes_of_value,
    lemma_be16_value_of_bytes, lemma_data_bytes_push, low16, offsets_bytes, packed, parse_block,
    read_entry, valid_entry, BlockView, Entry, SIZEOF_U16,
};
use super::DecodeError;
use vstd::prelude::*;

verus! {

/// A block that its encoding can tell apart from every other: the number of
/// entries fits the two-byte count.
pub open spec fn valid_block(b: BlockView) -> bool {
    b.offsets.len() <= u16::MAX
}

/// The encoded block is as long as its three sections together.
pub proof fn lemma_block_bytes_len(b: BlockView)
    ensures
        block_bytes(b).len() == block_len(b),
{
}

/// Decoding the encoding of a valid block gives the same data section and the
/// same offset table, and encoding what was decoded gives the same bytes
/// again.
pub proof fn lemma_decode_of_encode(b: BlockView)
    requires
        valid_block(b),
    ensures
        parse_block(block_bytes(b)) == Ok::<BlockView, DecodeError>(b),
        block_bytes(parse_block(block_bytes(b))->Ok_0) == block_bytes(b),
{
    let bytes = block_bytes(b);
    let count = low16(b.offsets.len() as int);
    let data_end = b.data.len() as int;
    lemma_be16_value_of_bytes(count);
    assert(bytes[bytes.len() - 2] == be16_bytes(count)[0]);
    assert(bytes[bytes.len() - 1] == be16_bytes(count)[1]);
    assert(be16_at(bytes, bytes.len() - SIZEOF_U16) == count);
    let decoded = parse_block(bytes)->Ok_0;
    assert(decoded.data =~= b.data);
    assert forall|i: int| 0 <= i < b.offsets.len() implies be16_at(bytes, data_end + SIZEOF_U16 * i)
        == b.offsets[i] by {
        lemma_be16_value_of_bytes(b.offsets[i]);
        assert(bytes[data_end + 2 * i] == offsets_bytes(b.offsets)[2 * i]);
        assert(bytes[data_end + 2 * i + 1] == offsets_bytes(b.offsets)[2 * i + 1]);
    }
    assert(decoded.offsets =~= b.offsets);
}

/// The encoding of a decoded block is the very bytes that it was decoded
/// from.
pub proof fn lemma_encode_of_decode(bytes: Seq<u8>)
    requires
        parse_block(bytes) is Ok,
    ensures
        valid_block(parse_block(bytes)->Ok_0),
        block_bytes(parse_block(bytes)->Ok_0) == bytes,
{
    let b = parse_block(bytes)->Ok_0;
    let count = be16_at(bytes, bytes.len() - SIZEOF_U16);
    let data_end = bytes.len() - SIZEOF_U16 - SIZEOF_U16 * count;
    let encoded = block_bytes(b);
    assert(encoded.len() == bytes.len());
    assert forall|j: int| 0 <= j < bytes.len() implies encoded[j] == bytes[j] by {
        if j < data_end {
        } else if j < bytes.len() - 2 {
            let i = (j - data_end) / 2;
            lemma_be16_bytes_of_value(bytes[data_end + 2 * i], bytes[data_end + 2 * i + 1]);
            assert(encoded[j] == offsets_bytes(b.offsets)[j - data_end]);
            assert(b.offsets[i] == be16_at(bytes, data_end + SIZEOF_U16 * i));
        } else {
            lemma_be16_bytes_of_value(bytes[bytes.len() - 2], bytes[bytes.len() - 1]);
            assert(encoded[j] == be16_bytes(count)[j - (bytes.len() - 2)]);
        }
    }
    assert(encoded =~= bytes);
}

/// Offering one more entry is one step of the packer's rule.
pub proof fn lemma_packed_push(budget: nat, offered: Seq<Entry>, e: Entry)
    ensures
        packed(budget, offered.push(e)) == if accepts(budget, packed(budget, offered), e) {
            packed(budget, offered).push(e)
        } else {
            packed(budget, offered)
        },
{
    assert(offered.push(e).drop_last() =~= offered);
}

/// One more entry makes the encoded block longer by the entry and its offset
/// slot.
pub proof fn lemma_encoded_len_push(es: Seq<Entry>, e: Entry)
    ensures
        encoded_len(es.push(e)) == encoded_len(es) + entry_len(e) + SIZEOF_U16,
{
    lemma_data_bytes_push(es, e);
}

/// The encoded block of the first `i` entries is no longer than that of the
/// first `j`, for `i <= j`.
pub proof fn lemma_encoded_len_grows(es: Seq<Entry>, i: int, j: int)
    requires
        0 <= i <= j <= es.len(),
    ensures
        encoded_len(es.take(i)) <= encoded_len(es.take(j)),
        data_bytes(es.take(i)).len() <= data_bytes(es.take(j)).len(),
    decreases j - i,
{
    if i < j {
        lemma_encoded_len_grows(es, i, j - 1);
        lemma_data_bytes_push(es.take(j - 1), es[j - 1]);
        assert(es.take(j - 1).push(es[j - 1]) =~= es.take(j));
    }
}

/// When the encoded block of all the entries offered is within the budget, a
/// fresh packer takes every one of them.
pub proof fn lemma_within_budget_all_taken(budget: nat, offered: Seq<Entry>)
    requires
        encoded_len(offered) <= budget,
    ensures
        packed(budget, offered) == offered,
        forall|i: int|
            0 <= i < offered.len() ==> accepts(budget, #[trigger] offered.take(i), offered[i]),
    decreases offered.len(),
{
    assert(offered.take(offered.len() as int) =~= offered);
    assert forall|i: int| 0 <= i < offered.len() implies accepts(
        budget,
        #[trigger] offered.take(i),
        offered[i],
    ) by {
        lemma_encoded_len_push(offered.take(i), offered[i]);
        assert(offered.take(i).push(offered[i]) =~= offered.take(i + 1));
        lemma_encoded_len_grows(offered, i + 1, offered.len() as int);
    }
    if offered.len() > 0 {
        let before = offered.drop_last();
        assert(before =~= offered.take(offered.len() - 1));
        lemma_encoded_len_grows(offered, offered.len() - 1, offered.len() as int);
        lemma_within_budget_all_taken(budget, before);
        assert(before.push(offered.last()) =~= offered);
    }
}

/// Whatever a fresh packer was offered, the encoded block of what it holds is
/// within the budget, unless it holds a single entry.
pub proof fn lemma_packed_within_budget(budget: nat, offered: Seq<Entry>)
    ensures
        packed(budget, offered).len() <= 1 || encoded_len(packed(budget, offered)) <= budget,
    decreases offered.len(),
{
    if offered.len() > 0 {
        let held = packed(budget, offered.drop_last());
        lemma_packed_within_budget(budget, offered.drop_last());
        lemma_encoded_len_push(held, offered.last());
    }
}

/// When the entries before entry `k` encode within the budget and those up to
/// `k` do not, a fresh packer takes each entry before `k` and refuses entry
/// `k`; another fresh packer takes entry `k`. There is an entry before `k`: a
/// packer refuses nothing while it is empty.
pub proof fn lemma_refused_then_taken(budget: nat, offered: Seq<Entry>, k: int)
    requires
        1 <= k < offered.len(),
        encoded_len(offered.take(k)) <= budget,
        encoded_len(offered.take(k + 1)) > budget,
    ensures
        forall|i: int| 0 <= i < k ==> accepts(budget, #[trigger] offered.take(i), offered[i]),
        packed(budget, offered.take(k)) == offered.take(k),
        !accepts(budget, offered.take(k), offered[k]),
        packed(budget, offered.take(k + 1)) == offered.take(k),
        accepts(budget, Seq::<Entry>::empty(), offered[k]),
        packed(budget, seq![offered[k]]) == seq![offered[k]],
{
    let before = offered.take(k);
    lemma_within_budget_all_taken(budget, before);
    assert forall|i: int| 0 <= i < k implies accepts(
        budget,
        #[trigger] offered.take(i),
        offered[i],
    ) by {
        assert(before.take(i) =~= offered.take(i));
        assert(accepts(budget, before.take(i), before[i]));
    }
    lemma_encoded_len_push(before, offered[k]);
    assert(before.push(offered[k]) =~= offered.take(k + 1));
    assert(offered.take(k + 1).drop_last() =~= before);
    let alone = seq![offered[k]];
    assert(alone.drop_last() =~= Seq::<Entry>::empty());
    assert(packed(budget, alone.drop_last()) =~= Seq::<Entry>::empty());
    assert(Seq::<Entry>::empty().push(offered[k]) =~= alone);
}

/// The data section of the first `i` entries is the beginning of the data
/// section of them all.
pub proof fn lemma_data_bytes_prefix(es: Seq<Entry>, i: int)
    requires
        0 <= i <= es.len(),
    ensures
        entry_start(es, i) <= data_bytes(es).len(),
        data_bytes(es).take(entry_start(es, i) as int) == data_bytes(es.take(i)),
    decreases es.len(),
{
    if i == es.len() {
        assert(es.take(i) =~= es);
        assert(data_bytes(es).take(data_bytes(es).len() as int) =~= data_bytes(es));
    } else {
        let before = es.drop_last();
        lemma_data_bytes_prefix(before, i);
        assert(before.take(i) =~= es.take(i));
        assert(data_bytes(es).take(entry_start(es, i) as int) =~= data_bytes(before).take(
            entry_start(es, i) as int,
        ));
    }
}

/// Entry `i` lies in the data section at its start, byte for byte.
pub proof fn lemma_entry_in_data(es: Seq<Entry>, i: int)
    requires
        0 <= i < es.len(),
    ensures
        entry_start(es, i) + entry_len(es[i]) <= data_bytes(es).len(),
        data_bytes(es).subrange(
            entry_start(es, i) as int,
            (entry_start(es, i) + entry_len(es[i])) as int,
        ) == entry_bytes(es[i]),
{
    let start = entry_start(es, i) as int;
    lemma_data_bytes_prefix(es, i + 1);
    lemma_data_bytes_push(es.take(i), es[i]);
    assert(es.take(i).push(es[i]) =~= es.take(i + 1));
    assert(data_bytes(es).subrange(start, start + entry_len(es[i]) as int) =~= entry_bytes(es[i])) by {
        let upto = data_bytes(es.take(i + 1));
        assert(upto == data_bytes(es).take(upto.len() as int));
        assert forall|j: int| 0 <= j < entry_len(es[i]) implies data_bytes(es)[start + j]
            == entry_bytes(es[i])[j] by {
            assert(data_bytes(es)[start + j] == upto[start + j]);
        }
    }
}

/// Reading key and value at the offset of entry `i` gives back the bytes that
/// were packed as entry `i`, for a valid entry that begins at a position a
/// two-byte offset can say.
pub proof fn lemma_offset_reads_entry(es: Seq<Entry>, i: int)
    requires
        0 <= i < es.len(),
        valid_entry(es[i]),
        entry_start(es, i) <= u16::MAX,
    ensures
        entry_offsets(es)[i] == entry_start(es, i),
        read_entry(data_bytes(es), entry_offsets(es)[i] as int) == es[i],
{
    let data = data_bytes(es);
    let at = entry_start(es, i) as int;
    let e = es[i];
    let image = entry_bytes(e);
    let key_len = e.key.len() as int;
    lemma_entry_in_data(es, i);
    assert forall|j: int| 0 <= j < entry_len(e) implies data[at + j] == image[j] by {
        assert(data.subrange(at, at + entry_len(e) as int)[j] == data[at + j]);
    }
    lemma_be16_value_of_bytes(low16(key_len));
    lemma_be16_value_of_bytes(low16(e.value.len() as int));
    assert(data[at] == image[0]);
    assert(data[at + 1] == image[1]);
    assert(be16_at(data, at) == key_len);
    assert(data[at + 2 + key_len] == image[2 + key_len]);
    assert(data[at + 2 + key_len + 1] == image[2 + key_len + 1]);
    assert(be16_at(data, at + 2 + key_len) == e.value.len());
    let read = read_entry(data, at);
    assert(read.key =~= e.key) by {
        assert forall|j: int| 0 <= j < key_len implies read.key[j] == e.key[j] by {
            assert(data[at + 2 + j] == image[2 + j]);
        }
    }
    assert(read.value =~= e.value) by {
        assert forall|j: int| 0 <= j < e.value.len() implies read.value[j] == e.value[j] by {
            assert(data[at + 4 + key_len + j] == image[4 + key_len + j]);
        }
    }
}

/// No entry that a packer holds begins past the budget. So with a budget that
/// a two-byte offset can say, every offset is the position itself.
pub proof fn lemma_starts_within_budget(budget: nat, es: Seq<Entry>, i: int)
    requires
        es.len() <= 1 || encoded_len(es) <= budget,
        0 <= i < es.len(),
    ensures
        entry_start(es, i) == 0 || entry_start(es, i) <= budget,
{
    if es.len() <= 1 {
        assert(data_bytes(es.take(0)) =~= Seq::<u8>::empty());
    } else {
        lemma_data_bytes_prefix(es, i);
    }
}

} // verus!
