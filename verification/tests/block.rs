use mini_lsm::block::{Block, BlockBuilder, BlockIterator};
use mini_lsm::iterators::StorageIterator;

fn sample_block() -> Block {
    let mut builder = BlockBuilder::new(4096);
    assert!(builder.add(b"apple", b"red"));
    assert!(builder.add(b"banana", b"yellow"));
    assert!(builder.add(b"cherry", b""));
    builder.build()
}

#[test]
fn encode_writes_data_then_offsets_then_count() {
    let block = Block { data: vec![1, 2, 3], offsets: vec![0, 1] };
    let bytes = block.encode();
    assert_eq!(&bytes[..], &[1, 2, 3, 0, 0, 0, 1, 0, 2]);
}

#[test]
fn encode_writes_offsets_big_endian() {
    let block = Block { data: vec![7; 4], offsets: vec![0x0102, 0xfffe] };
    let bytes = block.encode();
    assert_eq!(&bytes[..], &[7, 7, 7, 7, 0x01, 0x02, 0xff, 0xfe, 0, 2]);
}

#[test]
fn encode_of_an_empty_block_is_the_count_alone() {
    let block = Block { data: vec![], offsets: vec![] };
    assert_eq!(&block.encode()[..], &[0, 0]);
}

#[test]
fn encoded_length_is_data_plus_two_per_offset_plus_two() {
    let block = sample_block();
    let expected = block.data.len() + 2 * block.offsets.len() + 2;
    assert_eq!(block.encode().len(), expected);
}

#[test]
fn decode_reads_the_count_first() {
    let block = Block::decode(&[9, 8, 7, 0, 0, 0, 2, 0, 2]);
    assert_eq!(block.data, vec![9, 8, 7]);
    assert_eq!(block.offsets, vec![0, 2]);
}

#[test]
fn decode_of_the_count_alone_is_an_empty_block() {
    let block = Block::decode(&[0, 0]);
    assert!(block.data.is_empty());
    assert!(block.offsets.is_empty());
}

#[test]
fn decode_reads_offsets_big_endian() {
    let block = Block::decode(&[5, 0x12, 0x34, 0, 1]);
    assert_eq!(block.data, vec![5]);
    assert_eq!(block.offsets, vec![0x1234]);
}

#[test]
fn decode_undoes_encode() {
    let block = sample_block();
    let back = Block::decode(&block.encode());
    assert_eq!(back.data, block.data);
    assert_eq!(back.offsets, block.offsets);
}

#[test]
fn decode_undoes_encode_for_any_data_and_offsets() {
    let block = Block { data: vec![0xff, 0, 0xff], offsets: vec![3, 1, 65535, 0] };
    let back = Block::decode(&block.encode());
    assert_eq!(back.data, block.data);
    assert_eq!(back.offsets, block.offsets);
}

#[test]
fn is_decodable_wants_the_count_and_its_offsets() {
    assert!(!Block::is_decodable(&[]));
    assert!(!Block::is_decodable(&[0]));
    assert!(Block::is_decodable(&[0, 0]));
    assert!(!Block::is_decodable(&[0, 1]));
    assert!(!Block::is_decodable(&[9, 0, 1]));
    assert!(Block::is_decodable(&[9, 9, 0, 1]));
    assert!(Block::is_decodable(&[1, 9, 9, 0, 1]));
    assert!(!Block::is_decodable(&[9, 9, 9, 0, 2]));
}

#[test]
fn is_built_holds_of_a_built_block() {
    assert!(sample_block().is_built());
    assert!(BlockBuilder::new(16).build().is_built());
    let back = Block::decode(&sample_block().encode());
    assert!(back.is_built());
}

#[test]
fn is_built_refuses_what_no_builder_leaves() {
    // an offset that points past the start of its entry
    assert!(!Block { data: vec![0, 1, b'k', 0, 0], offsets: vec![1] }.is_built());
    // data left over behind the last entry
    assert!(!Block { data: vec![0, 1, b'k', 0, 0, 7], offsets: vec![0] }.is_built());
    // a key length that runs past the data
    assert!(!Block { data: vec![0, 9, b'k', 0, 0], offsets: vec![0] }.is_built());
    // a value length that runs past the data
    assert!(!Block { data: vec![0, 1, b'k', 0, 3, 1], offsets: vec![0] }.is_built());
    // data without offsets
    assert!(!Block { data: vec![0, 0, 0, 0], offsets: vec![] }.is_built());
    // an offset without data
    assert!(!Block { data: vec![], offsets: vec![0] }.is_built());
    // the same entry, as it should be
    assert!(Block { data: vec![0, 1, b'k', 0, 0], offsets: vec![0] }.is_built());
}

#[test]
fn block_iterator_walks_the_entries_in_order() {
    let block = sample_block();
    assert!(block.is_built());
    let mut it = BlockIterator::create_and_seek_to_first(block);
    let mut seen: Vec<(Vec<u8>, Vec<u8>)> = Vec::new();
    while it.is_valid() {
        seen.push((it.key().to_vec(), it.value().to_vec()));
        it.next().unwrap();
    }
    assert_eq!(
        seen,
        vec![
            (b"apple".to_vec(), b"red".to_vec()),
            (b"banana".to_vec(), b"yellow".to_vec()),
            (b"cherry".to_vec(), b"".to_vec()),
        ]
    );
}

#[test]
fn block_iterator_over_an_empty_block_is_invalid() {
    let it = BlockIterator::create_and_seek_to_first(BlockBuilder::new(64).build());
    assert!(!it.is_valid());
}
