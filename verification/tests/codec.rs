use lsm_block::block::{Block, BlockBuilder, DecodeError};
use lsm_block::key::KeySlice;

fn block_of(budget: usize, entries: &[(&[u8], &[u8])]) -> Block {
    let mut builder = BlockBuilder::new(budget);
    for (k, v) in entries {
        assert!(builder.add(KeySlice::from_slice(k), v));
    }
    builder.build()
}

fn decoded(bytes: &[u8]) -> Block {
    match Block::decode(bytes) {
        Ok(block) => block,
        Err(error) => panic!("refused: {:?}", error),
    }
}

#[test]
fn encode_writes_data_then_offsets_then_count() {
    let block = block_of(4096, &[(b"k1", b"v1"), (b"key2", b""), (b"k3", b"value3")]);
    let encoded = block.encode();
    let mut expected: Vec<u8> = Vec::new();
    expected.extend_from_slice(&[0, 2, b'k', b'1', 0, 2, b'v', b'1']);
    expected.extend_from_slice(&[0, 4, b'k', b'e', b'y', b'2', 0, 0]);
    expected.extend_from_slice(&[0, 2, b'k', b'3', 0, 6, b'v', b'a', b'l', b'u', b'e', b'3']);
    expected.extend_from_slice(&[0, 0, 0, 8, 0, 16]);
    expected.extend_from_slice(&[0, 3]);
    assert_eq!(&encoded[..], &expected[..]);
    assert_eq!(encoded.len(), block.data().len() + 2 * block.offsets().len() + 2);
}

#[test]
fn encode_writes_offsets_most_significant_byte_first() {
    let value = vec![0u8; 600];
    let block = block_of(4096, &[(b"a", &value), (b"b", &value), (b"c", b"")]);
    assert_eq!(block.offsets(), &[0u16, 605, 1210][..]);
    let encoded = block.encode();
    let tail = &encoded[encoded.len() - 8..];
    assert_eq!(tail, &[0x00, 0x00, 0x02, 0x5d, 0x04, 0xba, 0x00, 0x03][..]);
}

#[test]
fn decode_of_encode_gives_the_block_back() {
    let value = vec![7u8; 300];
    let block = block_of(
        4096,
        &[(b"apple", b"red"), (b"banana", &value), (b"cherry", b""), (b"d", b"dark")],
    );
    let encoded = block.encode();
    let again = decoded(&encoded[..]);
    assert_eq!(again.data(), block.data());
    assert_eq!(again.offsets(), block.offsets());
    assert_eq!(&again.encode()[..], &encoded[..]);
}

#[test]
fn decode_of_encode_gives_a_single_oversized_entry_back() {
    let value = vec![1u8; 65535];
    let block = block_of(8, &[(b"only", &value)]);
    let encoded = block.encode();
    assert_eq!(encoded.len(), 2 + 4 + 2 + 65535 + 2 + 2);
    let again = decoded(&encoded[..]);
    assert_eq!(again.data(), block.data());
    assert_eq!(again.offsets(), &[0u16][..]);
    assert_eq!(&again.encode()[..], &encoded[..]);
}

#[test]
fn decode_reads_count_and_offsets_from_the_end() {
    let bytes = [0xaa, 0xbb, 0xcc, 0x01, 0x02, 0xff, 0xfe, 0x00, 0x02];
    let block = decoded(&bytes);
    assert_eq!(block.data(), &[0xaa, 0xbb, 0xcc][..]);
    assert_eq!(block.offsets(), &[0x0102u16, 0xfffe][..]);
}

#[test]
fn decode_does_not_look_into_the_data_section() {
    // The offset points past the data, and the data is no entry: both are kept.
    let bytes = [0xff, 0x00, 0x09, 0x00, 0x01];
    let block = decoded(&bytes);
    assert_eq!(block.data(), &[0xff][..]);
    assert_eq!(block.offsets(), &[9u16][..]);
    assert_eq!(&block.encode()[..], &bytes[..]);
}

#[test]
fn decode_of_a_count_of_zero_keeps_all_before_it_as_data() {
    let block = decoded(&[0, 0]);
    assert!(block.data().is_empty());
    assert!(block.offsets().is_empty());
    let block = decoded(&[9, 8, 7, 0, 0]);
    assert_eq!(block.data(), &[9, 8, 7][..]);
    assert!(block.offsets().is_empty());
    assert_eq!(&block.encode()[..], &[9, 8, 7, 0, 0][..]);
}

#[test]
fn decode_takes_bytes_that_are_offsets_and_count_alone() {
    let block = decoded(&[0, 5, 0, 1]);
    assert!(block.data().is_empty());
    assert_eq!(block.offsets(), &[5u16][..]);
}

#[test]
fn decode_refuses_fewer_than_two_bytes() {
    assert_eq!(Block::decode(&[]).err(), Some(DecodeError::Truncated));
    assert_eq!(Block::decode(&[0]).err(), Some(DecodeError::Truncated));
    assert_eq!(Block::decode(&[200]).err(), Some(DecodeError::Truncated));
}

#[test]
fn decode_refuses_a_count_that_the_bytes_cannot_hold() {
    assert_eq!(Block::decode(&[0, 1]).err(), Some(DecodeError::CountExceedsLength));
    assert_eq!(Block::decode(&[0, 0, 1]).err(), Some(DecodeError::CountExceedsLength));
    assert_eq!(
        Block::decode(&[1, 2, 3, 0, 2]).err(),
        Some(DecodeError::CountExceedsLength)
    );
    assert_eq!(
        Block::decode(&[0xff, 0xff]).err(),
        Some(DecodeError::CountExceedsLength)
    );
    let mut bytes = vec![0u8; 2 * 65535 - 1];
    bytes.extend_from_slice(&[0xff, 0xff]);
    assert_eq!(Block::decode(&bytes).err(), Some(DecodeError::CountExceedsLength));
    bytes.insert(0, 0);
    assert_eq!(decoded(&bytes).offsets().len(), 65535);
    assert!(decoded(&bytes).data().is_empty());
}

#[test]
fn decode_refuses_an_encoding_cut_short() {
    let block = block_of(4096, &[(b"k", b"v")]);
    let encoded = block.encode();
    assert_eq!(&encoded[..], &[0, 1, b'k', 0, 1, b'v', 0, 0, 0, 1][..]);
    // Without its last byte the count reads as 0x0000 and all else is data.
    let cut = decoded(&encoded[..encoded.len() - 1]);
    assert!(cut.offsets().is_empty());
    // Without its data the offsets and the count remain.
    assert_eq!(decoded(&encoded[6..]).offsets(), &[0u16][..]);
    assert_eq!(
        Block::decode(&encoded[8..]).err(),
        Some(DecodeError::CountExceedsLength)
    );
    assert_eq!(Block::decode(&encoded[9..]).err(), Some(DecodeError::Truncated));
}

#[test]
fn encode_of_decode_gives_the_bytes_back() {
    let mut bytes: Vec<u8> = (0u8..=255).collect();
    bytes.extend_from_slice(&[0, 0, 0, 10, 1, 0, 0, 3]);
    let block = decoded(&bytes);
    assert_eq!(block.offsets(), &[0u16, 10, 256][..]);
    assert_eq!(block.data().len(), 256);
    assert_eq!(&block.encode()[..], &bytes[..]);
}

#[test]
fn block_of_65535_entries_round_trips() {
    let mut builder = BlockBuilder::new(1 << 20);
    for i in 0u32..65535 {
        let k = [(i >> 8) as u8, i as u8];
        assert!(builder.add(KeySlice::from_slice(&k), b""));
    }
    let block = builder.build();
    assert_eq!(block.offsets().len(), 65535);
    let encoded = block.encode();
    assert_eq!(encoded.len(), 65535 * 6 + 65535 * 2 + 2);
    assert_eq!(&encoded[encoded.len() - 2..], &[0xff, 0xff][..]);
    let again = decoded(&encoded[..]);
    assert_eq!(again.data(), block.data());
    assert_eq!(again.offsets(), block.offsets());
    assert_eq!(&again.encode()[..], &encoded[..]);
}

#[test]
fn count_past_two_bytes_keeps_its_low_sixteen_bits() {
    let mut builder = BlockBuilder::new(1 << 20);
    for i in 0u32..65537 {
        let k = [(i >> 16) as u8, (i >> 8) as u8, i as u8];
        assert!(builder.add(KeySlice::from_slice(&k), b""));
    }
    let block = builder.build();
    assert_eq!(block.offsets().len(), 65537);
    let encoded = block.encode();
    assert_eq!(encoded.len(), 65537 * 7 + 65537 * 2 + 2);
    assert_eq!(&encoded[encoded.len() - 2..], &[0x00, 0x01][..]);
    // Such a block is not what its encoding decodes to.
    let again = decoded(&encoded[..]);
    assert_eq!(again.offsets().len(), 1);
    assert_eq!(again.data().len(), encoded.len() - 4);
}
