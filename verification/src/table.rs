//! A sorted-string table: encoded blocks, the index of those blocks,
//! and a footer that says where the index begins.

pub mod builder;

pub use builder::SsTableBuilder;

use crate::block::{
    block_of, decodable, decoded, encoded, entries_bytes, entries_of, lemma_decode_encode,
    lemma_entries_of_block, lemma_prefix_grows, Entry, MAX_BLOCK_DATA,
};
use crate::key::{key_le, key_lt};
use crate::wire::{be_u16, be_u32, put_u16, put_u32};
use vstd::prelude::*;

verus! {

/// Where one block lies in the table, and the keys it spans.
pub struct BlockMeta {
    /// Position of the block's first byte in the table.
    pub offset: usize,
    /// The key of the block's first entry.
    pub first_key: Vec<u8>,
    /// The key of the block's last entry.
    pub last_key: Vec<u8>,
}

/// A `BlockMeta` as mathematical values.
pub struct BlockMetaView {
    pub offset: nat,
    pub first_key: Seq<u8>,
    pub last_key: Seq<u8>,
}

impl View for BlockMeta {
    type V = BlockMetaView;

    open spec fn view(&self) -> BlockMetaView {
        BlockMetaView {
            offset: self.offset as nat,
            first_key: self.first_key@,
            last_key: self.last_key@,
        }
    }
}

/// The views of a run of block metas.
pub open spec fn meta_views(metas: Seq<BlockMeta>) -> Seq<BlockMetaView> {
    Seq::new(metas.len(), |i: int| metas[i]@)
}

/// One block meta on the wire: the offset as a big-endian `u32`, then
/// each key behind its length as a big-endian `u16`.
pub open spec fn meta_bytes(m: BlockMetaView) -> Seq<u8> {
    be_u32(m.offset as u32) + be_u16(m.first_key.len() as u16) + m.first_key + be_u16(
        m.last_key.len() as u16,
    ) + m.last_key
}

/// The block metas written one after another.
pub open spec fn metas_bytes(ms: Seq<BlockMetaView>) -> Seq<u8>
    decreases ms.len(),
{
    if ms.len() == 0 {
        Seq::empty()
    } else {
        metas_bytes(ms.drop_last()) + meta_bytes(ms.last())
    }
}

/// Whether a block meta can be written: its offset fits four bytes and
/// the length of each key two.
pub open spec fn meta_fits(m: BlockMetaView) -> bool {
    &&& m.offset <= u32::MAX
    &&& m.first_key.len() <= u16::MAX
    &&& m.last_key.len() <= u16::MAX
}

/// The wire forms of the blocks that hold `blocks`, one after another.
pub open spec fn blocks_bytes(blocks: Seq<Seq<Entry>>) -> Seq<u8>
    decreases blocks.len(),
{
    if blocks.len() == 0 {
        Seq::empty()
    } else {
        blocks_bytes(blocks.drop_last()) + encoded(block_of(blocks.last()))
    }
}

/// The entries of all blocks, in order.
pub open spec fn all_entries(blocks: Seq<Seq<Entry>>) -> Seq<Entry>
    decreases blocks.len(),
{
    if blocks.len() == 0 {
        Seq::empty()
    } else {
        all_entries(blocks.drop_last()) + blocks.last()
    }
}

/// The index of a table made of `blocks`: each block's offset is the
/// length of all blocks before it, and its keys are those of its first
/// and last entry.
pub open spec fn metas_of(blocks: Seq<Seq<Entry>>) -> Seq<BlockMetaView> {
    Seq::new(
        blocks.len(),
        |i: int|
            BlockMetaView {
                offset: blocks_bytes(blocks.take(i)).len(),
                first_key: blocks[i].first().key,
                last_key: blocks[i].last().key,
            },
    )
}

/// The whole table on the wire: the blocks, the index, and the position
/// of the index as a big-endian `u32`.
pub open spec fn table_bytes(blocks: Seq<Seq<Entry>>) -> Seq<u8> {
    blocks_bytes(blocks) + metas_bytes(metas_of(blocks)) + be_u32(
        blocks_bytes(blocks).len() as u32,
    )
}

/// Describes a finished table.
pub struct SsTable {
    /// The index: one meta for each block, in the table's order.
    pub block_meta: Vec<BlockMeta>,
    /// Where the index begins in the table's bytes.
    pub block_meta_offset: usize,
    /// The table's number.
    pub id: usize,
    /// The serialised bloom filter, where one was built.
    pub bloom: Option<Vec<u8>>,
    /// The key of the table's first entry.
    pub first_key: Vec<u8>,
    /// The key of the table's last entry.
    pub last_key: Vec<u8>,
    /// The largest timestamp in the table; `u64::MAX` while unknown.
    pub max_ts: u64,
}

/// Why a table could not be built.
#[derive(Clone, Copy, Debug, PartialEq, Eq, Structural)]
pub enum BuildError {
    /// No entry was added.
    Empty,
    /// The blocks take more bytes than the footer can address.
    TooLarge,
}

impl BlockMeta {
    /// Appends the wire form of each meta to `buf`, in order.
    pub fn encode_block_meta(block_meta: &[BlockMeta], buf: &mut Vec<u8>)
        requires
            forall|i: int| 0 <= i < block_meta@.len() ==> meta_fits(#[trigger] block_meta@[i]@),
        ensures
            final(buf)@ == old(buf)@ + metas_bytes(meta_views(block_meta@)),
    {
        let ghost ms = meta_views(block_meta@);
        let mut i: usize = 0;
        assert(metas_bytes(ms.take(0)) =~= Seq::<u8>::empty());
        assert(buf@ =~= old(buf)@ + metas_bytes(ms.take(0)));
        while i < block_meta.len()
            invariant
                i <= block_meta@.len(),
                ms == meta_views(block_meta@),
                forall|j: int| 0 <= j < block_meta@.len() ==> meta_fits(#[trigger] block_meta@[j]@),
                buf@ == old(buf)@ + metas_bytes(ms.take(i as int)),
            decreases block_meta@.len() - i,
        {
            let meta = &block_meta[i];
            assert(meta_fits(block_meta@[i as int]@));
            let ghost before = buf@;
            put_u32(buf, meta.offset as u32);
            put_u16(buf, meta.first_key.len() as u16);
            buf.extend_from_slice(meta.first_key.as_slice());
            put_u16(buf, meta.last_key.len() as u16);
            buf.extend_from_slice(meta.last_key.as_slice());
            proof {
                assert(ms.take(i + 1).drop_last() =~= ms.take(i as int));
                assert(ms.take(i + 1).last() == meta@);
                assert(buf@ =~= before + meta_bytes(meta@));
                assert(buf@ =~= old(buf)@ + metas_bytes(ms.take(i + 1)));
            }
            i += 1;
        }
        assert(ms.take(i as int) =~= ms);
    }
}

/// Finishing one more block appends its wire form and its entries.
pub proof fn lemma_blocks_push(blocks: Seq<Seq<Entry>>, es: Seq<Entry>)
    ensures
        blocks_bytes(blocks.push(es)) == blocks_bytes(blocks) + encoded(block_of(es)),
        all_entries(blocks.push(es)) == all_entries(blocks) + es,
{
    assert(blocks.push(es).drop_last() =~= blocks);
}

/// The blocks before the `j`-th end where it begins, and the `j`-th
/// ends within the bytes of all blocks.
pub proof fn lemma_block_span(blocks: Seq<Seq<Entry>>, j: int)
    requires
        0 <= j < blocks.len(),
    ensures
        blocks_bytes(blocks.take(j + 1)) == blocks_bytes(blocks.take(j)) + encoded(
            block_of(blocks[j]),
        ),
        blocks_bytes(blocks.take(j + 1)).len() <= blocks_bytes(blocks).len(),
        blocks_bytes(blocks).subrange(0, blocks_bytes(blocks.take(j + 1)).len() as int)
            == blocks_bytes(blocks.take(j + 1)),
    decreases blocks.len() - j,
{
    assert(blocks.take(j + 1) =~= blocks.take(j).push(blocks[j]));
    lemma_blocks_push(blocks.take(j), blocks[j]);
    if j + 1 == blocks.len() {
        assert(blocks.take(j + 1) =~= blocks);
        assert(blocks_bytes(blocks).subrange(0, blocks_bytes(blocks).len() as int)
            =~= blocks_bytes(blocks));
    } else {
        lemma_block_span(blocks, j + 1);
        let short = blocks_bytes(blocks.take(j + 1));
        let long = blocks_bytes(blocks.take(j + 2));
        assert(blocks_bytes(blocks).subrange(0, short.len() as int) =~= long.subrange(
            0,
            short.len() as int,
        ));
        assert(long.subrange(0, short.len() as int) =~= short);
    }
}

/// Whether each block holds an entry and keeps its data within the limit.
pub open spec fn blocks_sound(blocks: Seq<Seq<Entry>>) -> bool {
    forall|i: int|
        0 <= i < blocks.len() ==> (#[trigger] blocks[i]).len() > 0 && entries_bytes(
            blocks[i],
        ).len() <= MAX_BLOCK_DATA
}

/// Whether the keys of `es` strictly ascend.
pub open spec fn keys_ascending(es: Seq<Entry>) -> bool {
    forall|i: int, j: int|
        0 <= i < j < es.len() ==> key_lt((#[trigger] es[i]).key, (#[trigger] es[j]).key)
}

/// The entries of the `j`-th block stand in `all_entries(blocks)` right
/// behind those of the blocks before it.
pub proof fn lemma_entries_span(blocks: Seq<Seq<Entry>>, j: int)
    requires
        0 <= j < blocks.len(),
    ensures
        all_entries(blocks.take(j + 1)) == all_entries(blocks.take(j)) + blocks[j],
        all_entries(blocks.take(j + 1)).len() <= all_entries(blocks).len(),
        all_entries(blocks).subrange(0, all_entries(blocks.take(j + 1)).len() as int)
            == all_entries(blocks.take(j + 1)),
    decreases blocks.len() - j,
{
    assert(blocks.take(j + 1) =~= blocks.take(j).push(blocks[j]));
    lemma_blocks_push(blocks.take(j), blocks[j]);
    if j + 1 == blocks.len() {
        assert(blocks.take(j + 1) =~= blocks);
        assert(all_entries(blocks).subrange(0, all_entries(blocks).len() as int) =~= all_entries(
            blocks,
        ));
    } else {
        lemma_entries_span(blocks, j + 1);
        let short = all_entries(blocks.take(j + 1));
        let long = all_entries(blocks.take(j + 2));
        assert(all_entries(blocks).subrange(0, short.len() as int) =~= long.subrange(
            0,
            short.len() as int,
        ));
        assert(long.subrange(0, short.len() as int) =~= short);
    }
}

/// Later blocks begin further on, in bytes and in entries.
pub proof fn lemma_spans_ordered(blocks: Seq<Seq<Entry>>, i: int, j: int)
    requires
        0 <= i <= j <= blocks.len(),
    ensures
        blocks_bytes(blocks.take(i)).len() + 2 * (j - i) <= blocks_bytes(blocks.take(j)).len(),
        all_entries(blocks.take(i)).len() <= all_entries(blocks.take(j)).len(),
    decreases j - i,
{
    if i < j {
        lemma_spans_ordered(blocks, i, j - 1);
        lemma_block_span(blocks, j - 1);
        lemma_entries_span(blocks, j - 1);
    }
}

/// In the index of a table whose entries were fed with strictly
/// ascending keys, the offsets strictly ascend, no block's first key
/// comes after its last, and every block ends before the next begins.
pub proof fn lemma_index_ascending(blocks: Seq<Seq<Entry>>)
    requires
        blocks_sound(blocks),
        keys_ascending(all_entries(blocks)),
    ensures
        metas_of(blocks).len() == blocks.len(),
        forall|i: int|
            0 <= i < blocks.len() ==> key_le(
                (#[trigger] metas_of(blocks)[i]).first_key,
                metas_of(blocks)[i].last_key,
            ),
        forall|i: int, j: int|
            0 <= i < j < blocks.len() ==> (#[trigger] metas_of(blocks)[i]).offset < (
            #[trigger] metas_of(blocks)[j]).offset && key_lt(
                metas_of(blocks)[i].last_key,
                metas_of(blocks)[j].first_key,
            ),
{
    let all = all_entries(blocks);
    let ms = metas_of(blocks);
    assert forall|i: int| 0 <= i < blocks.len() implies key_le(
        (#[trigger] ms[i]).first_key,
        ms[i].last_key,
    ) by {
        let start = all_entries(blocks.take(i)).len() as int;
        let n = blocks[i].len() as int;
        lemma_entries_span(blocks, i);
        assert(all.subrange(0, start + n)[start] == blocks[i][0]);
        assert(all.subrange(0, start + n)[start + n - 1] == blocks[i][n - 1]);
        if n > 1 {
            assert(key_lt(all[start].key, all[start + n - 1].key));
        }
    }
    assert forall|i: int, j: int| 0 <= i < j < blocks.len() implies (#[trigger] ms[i]).offset < (
    #[trigger] ms[j]).offset && key_lt(ms[i].last_key, ms[j].first_key) by {
        lemma_spans_ordered(blocks, i, j);
        let si = all_entries(blocks.take(i)).len() as int;
        let ni = blocks[i].len() as int;
        let sj = all_entries(blocks.take(j)).len() as int;
        let nj = blocks[j].len() as int;
        lemma_entries_span(blocks, i);
        lemma_entries_span(blocks, j);
        lemma_spans_ordered(blocks, i + 1, j);
        assert(all.subrange(0, si + ni)[si + ni - 1] == blocks[i][ni - 1]);
        assert(all.subrange(0, sj + nj)[sj] == blocks[j][0]);
        assert(key_lt(all[si + ni - 1].key, all[sj].key));
    }
}

/// From the offset that the index gives for the `i`-th block on, the
/// table's bytes hold that block's wire form; the next block begins
/// where it ends.
pub proof fn lemma_block_in_table(blocks: Seq<Seq<Entry>>, i: int)
    requires
        0 <= i < blocks.len(),
    ensures
        metas_of(blocks)[i].offset + encoded(block_of(blocks[i])).len() <= blocks_bytes(
            blocks,
        ).len(),
        i + 1 < blocks.len() ==> metas_of(blocks)[i].offset + encoded(block_of(blocks[i])).len()
            == metas_of(blocks)[i + 1].offset,
        table_bytes(blocks).subrange(
            metas_of(blocks)[i].offset as int,
            (metas_of(blocks)[i].offset + encoded(block_of(blocks[i])).len()) as int,
        ) == encoded(block_of(blocks[i])),
{
    let wire = encoded(block_of(blocks[i]));
    let at = blocks_bytes(blocks.take(i)).len() as int;
    let upto = blocks_bytes(blocks.take(i + 1));
    let all = blocks_bytes(blocks);
    let table = table_bytes(blocks);
    lemma_block_span(blocks, i);
    assert(upto.len() == at + wire.len());
    assert forall|k: int| 0 <= k < wire.len() implies table[at + k] == wire[k] by {
        assert(table[at + k] == all[at + k]);
        assert(all.subrange(0, upto.len() as int)[at + k] == all[at + k]);
        assert(upto[at + k] == wire[k]);
    }
    assert(table.subrange(at, at + wire.len()) =~= wire);
}

/// The wire form of a block that holds an entry and keeps its data
/// within the limit decodes to the block, and the block's offsets point
/// at its entries, in order.
pub proof fn lemma_block_reads_back(es: Seq<Entry>)
    requires
        entries_bytes(es).len() <= MAX_BLOCK_DATA,
    ensures
        decodable(encoded(block_of(es))),
        decoded(encoded(block_of(es))) == block_of(es),
        entries_of(decoded(encoded(block_of(es)))) == es,
{
    lemma_prefix_grows(es, 0, es.len() as int);
    assert(es.take(es.len() as int) =~= es);
    assert(block_of(es).offsets.len() <= u16::MAX);
    lemma_decode_encode(block_of(es));
    lemma_entries_of_block(es);
}

} // verus!
