use mini_lsm::block::{Block, BlockBuilder};

#[test]
fn an_entry_is_its_lengths_and_bytes() {
    let mut builder = BlockBuilder::new(64);
    assert!(builder.add(b"k", b"vv"));
    let block = builder.build();
    assert_eq!(block.data, vec![0, 1, b'k', 0, 2, b'v', b'v']);
    assert_eq!(block.offsets, vec![0]);
}

#[test]
fn entries_follow_one_another() {
    let mut builder = BlockBuilder::new(64);
    assert!(builder.add(b"a", b"1"));
    assert!(builder.add(b"bc", b""));
    assert!(builder.add(b"", b"xyz"));
    let block = builder.build();
    assert_eq!(
        block.data,
        vec![0, 1, b'a', 0, 1, b'1', 0, 2, b'b', b'c', 0, 0, 0, 0, 0, 3, b'x', b'y', b'z']
    );
    assert_eq!(block.offsets, vec![0, 6, 12]);
}

#[test]
fn a_new_builder_is_empty() {
    let builder = BlockBuilder::new(10);
    assert!(builder.is_empty());
    assert_eq!(builder.estimated_size(), 2);
    let block = builder.build();
    assert!(block.data.is_empty());
    assert!(block.offsets.is_empty());
}

#[test]
fn estimated_size_is_the_length_of_the_wire_form() {
    let mut builder = BlockBuilder::new(1000);
    assert!(builder.add(b"key1", b"value1"));
    assert_eq!(builder.estimated_size(), 14 + 2 + 2);
    assert!(builder.add(b"key2", b"v"));
    assert_eq!(builder.estimated_size(), 14 + 9 + 4 + 2);
    assert!(!builder.is_empty());
    let block = builder.build();
    assert_eq!(block.encode().len(), 29);
}

#[test]
fn the_first_entry_is_taken_whatever_the_budget() {
    let mut builder = BlockBuilder::new(1);
    assert!(builder.add(b"a-long-key", b"a-long-value"));
    assert!(!builder.add(b"b", b""));
    let block = builder.build();
    assert_eq!(block.offsets, vec![0]);
}

#[test]
fn an_entry_that_fills_the_budget_exactly_is_taken() {
    // first entry: 4 + 1 + 1 = 6 bytes, wire form 6 + 2 + 2 = 10;
    // second entry: 6 bytes and 2 for its offset, so 18 in all
    let mut builder = BlockBuilder::new(18);
    assert!(builder.add(b"a", b"1"));
    assert!(builder.add(b"b", b"2"));
    assert_eq!(builder.estimated_size(), 18);
    assert!(!builder.add(b"c", b""));
}

#[test]
fn an_entry_that_passes_the_budget_by_one_is_refused() {
    let mut builder = BlockBuilder::new(17);
    assert!(builder.add(b"a", b"1"));
    assert!(!builder.add(b"b", b"2"));
    assert_eq!(builder.estimated_size(), 10);
    let block = builder.build();
    assert_eq!(block.data, vec![0, 1, b'a', 0, 1, b'1']);
    assert_eq!(block.offsets, vec![0]);
}

#[test]
fn a_refused_entry_leaves_the_builder_open() {
    let mut builder = BlockBuilder::new(20);
    assert!(builder.add(b"a", b"1"));
    assert!(!builder.add(b"bbbb", b"2222"));
    assert!(builder.add(b"c", b"3"));
    assert_eq!(builder.build().offsets, vec![0, 6]);
}

#[test]
fn offsets_strictly_increase_and_count_the_entries() {
    let mut builder = BlockBuilder::new(100_000);
    let mut accepted = 0;
    for i in 0..200u32 {
        let key = format!("key-{:05}", i);
        let value = vec![b'v'; (i % 7) as usize];
        if builder.add(key.as_bytes(), &value) {
            accepted += 1;
        }
    }
    let block = builder.build();
    assert_eq!(accepted, 200);
    assert_eq!(block.offsets.len(), accepted);
    for pair in block.offsets.windows(2) {
        assert!(pair[0] < pair[1]);
    }
    for off in &block.offsets {
        assert!((*off as usize) < block.data.len());
    }
}

#[test]
fn no_block_passes_the_budget_when_each_entry_fits_alone() {
    for block_size in [24usize, 64, 100, 333] {
        let mut builder = BlockBuilder::new(block_size);
        let mut blocks: Vec<Block> = Vec::new();
        for i in 0..300u32 {
            let key = format!("k{:04}", i);
            let value = vec![b'x'; (i % 11) as usize];
            assert!(4 + key.len() + value.len() + 4 <= block_size);
            if !builder.add(key.as_bytes(), &value) {
                blocks.push(std::mem::replace(&mut builder, BlockBuilder::new(block_size)).build());
                assert!(builder.add(key.as_bytes(), &value));
            }
        }
        blocks.push(builder.build());
        assert!(blocks.len() > 1);
        for block in &blocks {
            assert!(block.encode().len() <= block_size);
        }
    }
}

#[test]
fn the_data_of_a_block_never_passes_its_limit() {
    let mut builder = BlockBuilder::new(1 << 30);
    let key = vec![b'k'; 30_000];
    let value = vec![b'v'; 30_000];
    assert!(builder.add(&key, &value));
    // 60_004 bytes are in; 5_531 are left
    assert!(!builder.add(&key, b""));
    assert!(builder.add(&vec![b'z'; 5_527], b""));
    assert!(!builder.add(b"", b""));
    let block = builder.build();
    assert_eq!(block.data.len(), 65_535);
    assert_eq!(block.offsets, vec![0, 60_004]);
}

#[test]
fn an_entry_larger_than_a_block_is_refused_even_when_empty() {
    let mut builder = BlockBuilder::new(1 << 30);
    assert!(!builder.add(&vec![0u8; 65_532], b""));
    assert!(!builder.add(&vec![0u8; 70_000], &vec![0u8; 70_000]));
    assert!(builder.is_empty());
    assert!(builder.add(&vec![0u8; 65_531], b""));
}
