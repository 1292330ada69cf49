//! Packs sorted entries into blocks and the blocks into a table.

use crate::block::builder::{accepts, BlockBuilder};
use crate::block::{
    entries_bytes, entry_len, lemma_entry_within, lemma_prefix_grows, Entry, MAX_BLOCK_DATA,
};
use crate::block::{block_of, decodable, decoded, encoded, entries_of};
use crate::table::{
    all_entries, blocks_bytes, blocks_sound, lemma_block_in_table, lemma_block_reads_back, lemma_block_span, lemma_blocks_push, meta_fits, meta_views,
    metas_of, table_bytes, BlockMeta, BuildError, SsTable,
};
use crate::wire::{extend_with_bytes, put_u32};
use vstd::prelude::*;

verus! {

/// Builds a table from entries fed in key order.
pub struct SsTableBuilder {
    builder: BlockBuilder,
    first_key: Vec<u8>,
    last_key: Vec<u8>,
    data: Vec<u8>,
    meta: Vec<BlockMeta>,
    block_size: usize,
    blocks: Ghost<Seq<Seq<Entry>>>,
}

/// What a table builder holds: the entries of each finished block, and
/// those of the block in progress.
pub struct TableBuilderView {
    pub blocks: Seq<Seq<Entry>>,
    pub current: Seq<Entry>,
}

impl TableBuilderView {
    /// All entries fed so far, in order.
    pub open spec fn entries(self) -> Seq<Entry> {
        all_entries(self.blocks) + self.current
    }

    /// The blocks of the table once the block in progress is finished.
    pub open spec fn finished(self) -> Seq<Seq<Entry>> {
        self.blocks.push(self.current)
    }

    /// The state after one more entry under the budget `block_size`: the
    /// block in progress takes it, or it is finished and the entry starts
    /// the next block.
    pub open spec fn added(self, block_size: usize, e: Entry) -> TableBuilderView {
        if accepts(self.current, block_size, e) {
            TableBuilderView { blocks: self.blocks, current: self.current.push(e) }
        } else {
            TableBuilderView { blocks: self.finished(), current: seq![e] }
        }
    }
}

impl View for SsTableBuilder {
    type V = TableBuilderView;

    closed spec fn view(&self) -> TableBuilderView {
        TableBuilderView { blocks: self.blocks@, current: self.builder@ }
    }
}

impl SsTableBuilder {
    /// The budget for the wire form of each block.
    pub closed spec fn block_size(&self) -> usize {
        self.block_size
    }

    /// What holds between any two steps: the bytes and the index are
    /// those of the finished blocks, and the two keys kept are those of
    /// the first and last entry of the block in progress.
    closed spec fn inv(&self) -> bool {
        &&& self.builder.wf()
        &&& self.builder.block_size() == self.block_size
        &&& self.data@ == blocks_bytes(self.blocks@)
        &&& meta_views(self.meta@) == metas_of(self.blocks@)
        &&& blocks_sound(self.blocks@)
        &&& (self.builder@.len() > 0 ==> self.first_key@ == self.builder@.first().key
            && self.last_key@ == self.builder@.last().key)
        &&& (self.builder@.len() == 0 ==> self.first_key@.len() == 0 && self.last_key@.len() == 0)
    }

    /// The builder's invariant.
    pub closed spec fn wf(&self) -> bool {
        &&& self.inv()
        &&& (self.blocks@.len() > 0 ==> self.builder@.len() > 0)
    }

    /// What the invariant says of the view: every finished block holds an
    /// entry and keeps its data within the limit, so does the block in
    /// progress once a block was finished, and its data is within the
    /// limit in any case.
    pub proof fn lemma_wf_view(&self)
        requires
            self.wf(),
        ensures
            blocks_sound(self@.blocks),
            self@.blocks.len() > 0 ==> self@.current.len() > 0,
            entries_bytes(self@.current).len() <= MAX_BLOCK_DATA,
            self@.current.len() > 0 ==> blocks_sound(self@.finished()),
    {
        self.builder.lemma_wf_data_bound();
    }

    /// A builder for a table whose blocks aim at `block_size` bytes.
    pub fn new(block_size: usize) -> (b: SsTableBuilder)
        ensures
            b.wf(),
            b.block_size() == block_size,
            b@.blocks.len() == 0,
            b@.current.len() == 0,
    {
        let b = SsTableBuilder {
            builder: BlockBuilder::new(block_size),
            first_key: Vec::new(),
            last_key: Vec::new(),
            data: Vec::new(),
            meta: Vec::new(),
            block_size,
            blocks: Ghost(Seq::empty()),
        };
        assert(meta_views(b.meta@) =~= metas_of(b.blocks@));
        b
    }

    /// Adds one entry. The block in progress takes it if it has room;
    /// if not, that block is finished and the entry starts the next one.
    /// The entry must fit a block of its own.
    pub fn add(&mut self, key: &[u8], value: &[u8])
        requires
            old(self).wf(),
            entry_len(Entry { key: key@, value: value@ }) <= MAX_BLOCK_DATA,
        ensures
            final(self).wf(),
            final(self).block_size() == old(self).block_size(),
            final(self)@ == old(self)@.added(
                old(self).block_size(),
                Entry { key: key@, value: value@ },
            ),
    {
        let ghost e = Entry { key: key@, value: value@ };
        if self.builder.is_empty() {
            self.first_key.clear();
            self.first_key.extend_from_slice(key);
        }
        if self.builder.add(key, value) {
            self.last_key.clear();
            self.last_key.extend_from_slice(key);
            assert(self.first_key@ =~= self.builder@.first().key);
            assert(self.last_key@ =~= key@);
            return ;
        }
        assert(self.builder@.len() > 0) by {
            assert(entries_bytes(Seq::<Entry>::empty()).len() == 0);
        }
        self.rotate_block();
        let accepted = self.builder.add(key, value);
        assert(accepted) by {
            assert(entries_bytes(Seq::<Entry>::empty()).len() == 0);
        }
        self.first_key.clear();
        self.last_key.clear();
        self.first_key.extend_from_slice(key);
        self.last_key.extend_from_slice(key);
        proof {
            assert(self.builder@ =~= seq![e]);
            assert(self.first_key@ =~= key@);
            assert(self.last_key@ =~= key@);
        }
    }

    /// The bytes of the finished blocks: a close estimate of the table's
    /// size, which leaves out the block in progress and the index.
    pub fn estimated_size(&self) -> (n: usize)
        requires
            self.wf(),
        ensures
            n == blocks_bytes(self@.blocks).len(),
    {
        self.data.len()
    }

    /// Finishes the block in progress: its wire form goes behind the
    /// bytes so far, and the index gets its offset and its two keys.
    fn rotate_block(&mut self)
        requires
            old(self).inv(),
            old(self).builder@.len() > 0,
        ensures
            final(self).inv(),
            final(self).block_size == old(self).block_size,
            final(self).blocks@ == old(self).blocks@.push(old(self).builder@),
            final(self).builder@.len() == 0,
    {
        let ghost blocks = self.blocks@;
        let ghost current = self.builder@;
        let ghost metas = self.meta@;
        let mut builder = BlockBuilder::new(self.block_size);
        std::mem::swap(&mut self.builder, &mut builder);
        proof {
            builder.lemma_wf_data_bound();
            lemma_prefix_grows(current, 0, current.len() as int);
            assert(current.take(current.len() as int) =~= current);
        }
        let block = builder.build();
        let encoded_block = block.encode();
        let mut first_key: Vec<u8> = Vec::new();
        let mut last_key: Vec<u8> = Vec::new();
        std::mem::swap(&mut self.first_key, &mut first_key);
        std::mem::swap(&mut self.last_key, &mut last_key);
        let meta = BlockMeta { offset: self.data.len(), first_key, last_key };
        self.meta.push(meta);
        extend_with_bytes(&mut self.data, encoded_block);
        self.blocks = Ghost(blocks.push(current));
        proof {
            let next = blocks.push(current);
            assert(next.drop_last() =~= blocks);
            assert(meta_views(metas).len() == metas_of(blocks).len());
            assert(self.meta@ == metas.push(meta));
            assert(meta_views(self.meta@).len() == next.len());
            assert forall|i: int| 0 <= i < next.len() implies meta_views(self.meta@)[i] == metas_of(
                next,
            )[i] by {
                if i < blocks.len() {
                    assert(next.take(i) =~= blocks.take(i));
                    assert(meta_views(metas)[i] == metas_of(blocks)[i]);
                    assert(self.meta@[i] == metas[i]);
                } else {
                    assert(next.take(i) =~= blocks);
                    assert(self.meta@[i] == meta);
                }
            }
            assert(meta_views(self.meta@) =~= metas_of(next));
        }
    }
}

impl SsTableBuilder {
    /// Finishes the table. The block in progress is finished, and the
    /// table's bytes are the blocks, the index, and the position of the
    /// index in four bytes. Fails if no entry was added, or if that
    /// position does not fit four bytes. The table's first key is that of
    /// its first block, and its last key that of its last block; no bloom
    /// filter is attached, and the largest timestamp is left unknown.
    pub fn build(self, id: usize) -> (built: Result<(SsTable, Vec<u8>), BuildError>)
        requires
            self.wf(),
        ensures
            match built {
                Ok((table, bytes)) => {
                    &&& self@.current.len() > 0
                    &&& blocks_bytes(self@.finished()).len() <= u32::MAX
                    &&& bytes@ == table_bytes(self@.finished())
                    &&& meta_views(table.block_meta@) == metas_of(self@.finished())
                    &&& table.block_meta_offset == blocks_bytes(self@.finished()).len()
                    &&& table.id == id
                    &&& table.bloom is None
                    &&& table.first_key@ == self@.finished().first().first().key
                    &&& table.last_key@ == self@.finished().last().last().key
                    &&& table.max_ts == u64::MAX
                },
                Err(BuildError::Empty) => self@.current.len() == 0,
                Err(BuildError::TooLarge) => {
                    &&& self@.current.len() > 0
                    &&& blocks_bytes(self@.finished()).len() > u32::MAX
                },
            },
    {
        let mut this = self;
        let ghost all = this@.finished();
        if this.builder.is_empty() {
            return Err(BuildError::Empty);
        }
        proof {
            lemma_blocks_push(this.blocks@, this.builder@);
            this.builder.lemma_wf_data_bound();
            lemma_prefix_grows(this.builder@, 0, this.builder@.len() as int);
            assert(this.builder@.take(this.builder@.len() as int) =~= this.builder@);
        }
        let pending: usize = this.builder.estimated_size();
        let limit: usize = u32::MAX as usize;
        if this.data.len() > limit || limit - this.data.len() < pending {
            return Err(BuildError::TooLarge);
        }
        this.rotate_block();
        assert(this.blocks@ == all);
        assert(blocks_sound(all));
        assert(meta_views(this.meta@).len() == all.len());
        let metas = this.meta;
        let mut buf = this.data;
        let meta_offset: usize = buf.len();
        proof {
            assert forall|i: int| 0 <= i < metas@.len() implies meta_fits(#[trigger] metas@[i]@) by {
                assert(metas@[i]@ == meta_views(metas@)[i]);
                assert(all[i].len() > 0);
                lemma_block_span(all, i);
                lemma_entry_within(all[i], 0);
                lemma_entry_within(all[i], all[i].len() - 1);
            }
        }
        BlockMeta::encode_block_meta(metas.as_slice(), &mut buf);
        put_u32(&mut buf, meta_offset as u32);
        let first_key = metas[0].first_key.clone();
        let last_key = metas[metas.len() - 1].last_key.clone();
        proof {
            assert(metas@[0]@ == meta_views(metas@)[0]);
            assert(metas@[metas@.len() - 1]@ == meta_views(metas@)[metas@.len() - 1]);
            assert(buf@ =~= table_bytes(all));
        }
        let table = SsTable {
            block_meta: metas,
            block_meta_offset: meta_offset,
            id,
            bloom: None,
            first_key,
            last_key,
            max_ts: u64::MAX,
        };
        Ok((table, buf))
    }

    /// Finishes the table under the number 0.
    pub fn build_for_test(self) -> (built: Result<(SsTable, Vec<u8>), BuildError>)
        requires
            self.wf(),
        ensures
            match built {
                Ok((table, bytes)) => {
                    &&& self@.current.len() > 0
                    &&& blocks_bytes(self@.finished()).len() <= u32::MAX
                    &&& bytes@ == table_bytes(self@.finished())
                    &&& meta_views(table.block_meta@) == metas_of(self@.finished())
                    &&& table.block_meta_offset == blocks_bytes(self@.finished()).len()
                    &&& table.id == 0
                    &&& table.bloom is None
                    &&& table.first_key@ == self@.finished().first().first().key
                    &&& table.last_key@ == self@.finished().last().last().key
                    &&& table.max_ts == u64::MAX
                },
                Err(BuildError::Empty) => self@.current.len() == 0,
                Err(BuildError::TooLarge) => {
                    &&& self@.current.len() > 0
                    &&& blocks_bytes(self@.finished()).len() > u32::MAX
                },
            },
    {
        self.build(0)
    }
}

/// One more entry goes behind all entries fed before, whichever block
/// takes it.
pub proof fn lemma_added_entries(v: TableBuilderView, block_size: usize, e: Entry)
    ensures
        v.added(block_size, e).entries() == v.entries().push(e),
{
    lemma_blocks_push(v.blocks, v.current);
    assert(v.added(block_size, e).entries() =~= v.entries().push(e));
}

/// The blocks of a finished table hold, one after another, all entries
/// that were fed.
pub proof fn lemma_finished_entries(v: TableBuilderView)
    ensures
        all_entries(v.finished()) == v.entries(),
{
    lemma_blocks_push(v.blocks, v.current);
}

/// A finished table gives back what was fed. Its index has one block
/// more than were finished before. Every block stands in the table's
/// bytes at the offset that the index gives, and decodes to the entries
/// that the builder put into it. And the entries of all blocks, one
/// block after another, are the entries fed, in the order fed.
pub proof fn lemma_table_reads_back(v: TableBuilderView, i: int)
    requires
        blocks_sound(v.finished()),
        0 <= i < v.finished().len(),
    ensures
        metas_of(v.finished()).len() == v.blocks.len() + 1,
        all_entries(v.finished()) == v.entries(),
        ({
            let blocks = v.finished();
            let at = metas_of(blocks)[i].offset as int;
            let wire = table_bytes(blocks).subrange(at, at + encoded(block_of(blocks[i])).len());
            &&& at + encoded(block_of(blocks[i])).len() <= blocks_bytes(blocks).len()
            &&& decodable(wire)
            &&& entries_of(decoded(wire)) == blocks[i]
        }),
{
    lemma_finished_entries(v);
    lemma_block_in_table(v.finished(), i);
    lemma_block_reads_back(v.finished()[i]);
}

} // verus!
