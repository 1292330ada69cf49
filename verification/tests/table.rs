use mini_lsm::block::{Block, BlockBuilder, BlockIterator};
use mini_lsm::iterators::StorageIterator;
use mini_lsm::key::{compare_keys, KeyOrder};
use mini_lsm::table::{BlockMeta, BuildError, SsTable, SsTableBuilder};

fn entry(i: u32) -> (Vec<u8>, Vec<u8>) {
    (format!("key_{:05}", i).into_bytes(), format!("value_{}", i).into_bytes())
}

fn build_table(count: u32, block_size: usize) -> (SsTable, Vec<u8>) {
    let mut builder = SsTableBuilder::new(block_size);
    for i in 0..count {
        let (k, v) = entry(i);
        builder.add(&k, &v);
    }
    builder.build(7).unwrap()
}

/// Cuts the table's bytes into its blocks by the index, decodes each,
/// and reads the entries out in order.
fn read_back(table: &SsTable, bytes: &[u8]) -> Vec<(Vec<u8>, Vec<u8>)> {
    let mut out = Vec::new();
    for (i, meta) in table.block_meta.iter().enumerate() {
        let end = match table.block_meta.get(i + 1) {
            Some(next) => next.offset,
            None => table.block_meta_offset,
        };
        let raw = &bytes[meta.offset..end];
        assert!(Block::is_decodable(raw));
        let block = Block::decode(raw);
        assert!(block.is_built());
        let mut it = BlockIterator::create_and_seek_to_first(block);
        let mut first = true;
        let mut last_key = Vec::new();
        while it.is_valid() {
            if first {
                assert_eq!(it.key(), &meta.first_key[..]);
                first = false;
            }
            last_key = it.key().to_vec();
            out.push((it.key().to_vec(), it.value().to_vec()));
            it.next().unwrap();
        }
        assert_eq!(last_key, meta.last_key);
    }
    out
}

#[test]
fn a_table_without_entries_is_refused() {
    let builder = SsTableBuilder::new(128);
    assert_eq!(builder.build(1).err(), Some(BuildError::Empty));
    let builder = SsTableBuilder::new(128);
    assert_eq!(builder.build_for_test().err(), Some(BuildError::Empty));
}

#[test]
fn a_table_of_one_entry_byte_by_byte() {
    let mut builder = SsTableBuilder::new(128);
    builder.add(b"k", b"vv");
    assert_eq!(builder.estimated_size(), 0);
    let (table, bytes) = builder.build(3).unwrap();
    let expected: Vec<u8> = vec![
        // the block: one entry, its offset, the count
        0, 1, b'k', 0, 2, b'v', b'v', 0, 0, 0, 1,
        // the index: offset 0, first key, last key
        0, 0, 0, 0, 0, 1, b'k', 0, 1, b'k',
        // the footer: the index begins at byte 11
        0, 0, 0, 11,
    ];
    assert_eq!(bytes, expected);
    assert_eq!(table.block_meta.len(), 1);
    assert_eq!(table.block_meta[0].offset, 0);
    assert_eq!(table.block_meta[0].first_key, b"k".to_vec());
    assert_eq!(table.block_meta[0].last_key, b"k".to_vec());
    assert_eq!(table.block_meta_offset, 11);
    assert_eq!(table.id, 3);
    assert_eq!(table.first_key, b"k".to_vec());
    assert_eq!(table.last_key, b"k".to_vec());
    assert_eq!(table.max_ts, u64::MAX);
    assert!(table.bloom.is_none());
}

#[test]
fn build_for_test_numbers_the_table_zero() {
    let mut builder = SsTableBuilder::new(128);
    builder.add(b"a", b"1");
    let (table, _) = builder.build_for_test().unwrap();
    assert_eq!(table.id, 0);
}

#[test]
fn the_footer_points_at_the_index() {
    let (table, bytes) = build_table(100, 64);
    let n = bytes.len();
    let footer = u32::from_be_bytes([bytes[n - 4], bytes[n - 3], bytes[n - 2], bytes[n - 1]]);
    assert_eq!(footer as usize, table.block_meta_offset);
    let mut index = Vec::new();
    BlockMeta::encode_block_meta(&table.block_meta, &mut index);
    assert_eq!(&bytes[table.block_meta_offset..n - 4], &index[..]);
}

#[test]
fn encode_block_meta_byte_by_byte() {
    let metas = vec![
        BlockMeta { offset: 0, first_key: b"a".to_vec(), last_key: b"bc".to_vec() },
        BlockMeta { offset: 0x0102_0304, first_key: b"".to_vec(), last_key: b"z".to_vec() },
    ];
    let mut buf = vec![0xee];
    BlockMeta::encode_block_meta(&metas, &mut buf);
    assert_eq!(
        buf,
        vec![
            0xee, 0, 0, 0, 0, 0, 1, b'a', 0, 2, b'b', b'c', 1, 2, 3, 4, 0, 0, 0, 1, b'z'
        ]
    );
    let mut untouched = vec![1, 2];
    BlockMeta::encode_block_meta(&[], &mut untouched);
    assert_eq!(untouched, vec![1, 2]);
}

#[test]
fn a_full_block_rotates() {
    let mut builder = SsTableBuilder::new(32);
    // each entry takes 4 + 2 + 2 = 8 bytes; a block of one is 12 long, of
    // two 22, of three 32, and a fourth does not fit
    builder.add(b"k1", b"v1");
    builder.add(b"k2", b"v2");
    builder.add(b"k3", b"v3");
    assert_eq!(builder.estimated_size(), 0);
    builder.add(b"k4", b"v4");
    assert_eq!(builder.estimated_size(), 32);
    let (table, bytes) = builder.build(1).unwrap();
    assert_eq!(table.block_meta.len(), 2);
    assert_eq!(table.block_meta[0].offset, 0);
    assert_eq!(table.block_meta[0].first_key, b"k1".to_vec());
    assert_eq!(table.block_meta[0].last_key, b"k3".to_vec());
    assert_eq!(table.block_meta[1].offset, 32);
    assert_eq!(table.block_meta[1].first_key, b"k4".to_vec());
    assert_eq!(table.block_meta[1].last_key, b"k4".to_vec());
    assert_eq!(table.block_meta_offset, 32 + 12);
    assert_eq!(bytes.len(), 44 + (4 + 2 + 2 + 2 + 2) * 2 + 4);
}

#[test]
fn rotation_keeps_every_entry_in_order() {
    let (table, bytes) = build_table(500, 128);
    assert!(table.block_meta.len() >= 2);
    let expected: Vec<(Vec<u8>, Vec<u8>)> = (0..500).map(entry).collect();
    assert_eq!(read_back(&table, &bytes), expected);
}

#[test]
fn rotation_keeps_every_entry_in_order_with_blocks_of_one() {
    let (table, bytes) = build_table(40, 1);
    assert_eq!(table.block_meta.len(), 40);
    let expected: Vec<(Vec<u8>, Vec<u8>)> = (0..40).map(entry).collect();
    assert_eq!(read_back(&table, &bytes), expected);
}

#[test]
fn the_index_ascends() {
    let (table, _) = build_table(500, 100);
    assert!(table.block_meta.len() >= 2);
    for meta in &table.block_meta {
        assert_ne!(compare_keys(&meta.first_key, &meta.last_key), KeyOrder::Greater);
    }
    for pair in table.block_meta.windows(2) {
        assert!(pair[0].offset < pair[1].offset);
        assert_eq!(compare_keys(&pair[0].last_key, &pair[1].first_key), KeyOrder::Less);
    }
}

#[test]
fn the_table_spans_its_first_and_last_key() {
    let (table, _) = build_table(500, 100);
    assert!(table.block_meta.len() >= 2);
    assert_eq!(table.first_key, entry(0).0);
    assert_eq!(table.last_key, entry(499).0);
    assert_eq!(table.first_key, table.block_meta[0].first_key);
    assert_eq!(table.last_key, table.block_meta[table.block_meta.len() - 1].last_key);
    assert_eq!(table.id, 7);
}

#[test]
fn estimated_size_counts_the_finished_blocks() {
    let mut builder = SsTableBuilder::new(64);
    let mut sizes = Vec::new();
    for i in 0..50 {
        let (k, v) = entry(i);
        builder.add(&k, &v);
        sizes.push(builder.estimated_size());
    }
    assert_eq!(sizes[0], 0);
    for pair in sizes.windows(2) {
        assert!(pair[0] <= pair[1]);
    }
    let estimate = builder.estimated_size();
    let (table, _) = builder.build(1).unwrap();
    let last = table.block_meta[table.block_meta.len() - 1].offset;
    assert_eq!(estimate, last);
}

#[test]
fn blocks_of_a_table_are_what_a_block_builder_makes() {
    let mut table_builder = SsTableBuilder::new(40);
    let mut block_builder = BlockBuilder::new(40);
    let mut wire: Vec<u8> = Vec::new();
    for i in 0..30 {
        let (k, v) = entry(i);
        table_builder.add(&k, &v);
        if !block_builder.add(&k, &v) {
            let done = std::mem::replace(&mut block_builder, BlockBuilder::new(40));
            wire.extend_from_slice(&done.build().encode());
            assert!(block_builder.add(&k, &v));
        }
    }
    wire.extend_from_slice(&block_builder.build().encode());
    let (table, bytes) = table_builder.build(1).unwrap();
    assert_eq!(&bytes[..table.block_meta_offset], &wire[..]);
}
