//! Walks the entries of one block.

use crate::block::{
    built, entries_of, lemma_built_layout, lemma_entries_of_index, Block, BlockView, Entry,
};
use crate::iterators::StorageIterator;
use crate::wire::read_u16;
use core::convert::Infallible;
use vstd::prelude::*;

verus! {

/// A cursor over the entries of a block, in the block's order.
pub struct BlockIterator {
    block: Block,
    idx: usize,
}

impl BlockIterator {
    /// The block that is walked.
    pub closed spec fn block(&self) -> BlockView {
        self.block@
    }

    /// How many entries were passed.
    pub closed spec fn position(&self) -> nat {
        self.idx as nat
    }

    /// An iterator that stands on the first entry of `block`.
    pub fn create_and_seek_to_first(block: Block) -> (it: BlockIterator)
        requires
            built(block@),
        ensures
            it.inv(),
            it.block() == block@,
            it.remaining() == entries_of(block@),
    {
        let it = BlockIterator { block, idx: 0 };
        proof {
            lemma_entries_of_index(block@);
        }
        assert(it.remaining() =~= entries_of(block@));
        it
    }

    /// Where the current entry starts in the block's data.
    fn entry_start(&self) -> (at: usize)
        requires
            self.inv(),
            self.remaining().len() > 0,
        ensures
            at == self.block().offsets[self.position() as int],
            self.position() < self.block().offsets.len(),
    {
        proof {
            lemma_entries_of_index(self.block@);
        }
        self.block.offsets[self.idx] as usize
    }
}

/// Passing one entry more leaves what is left without its first.
proof fn lemma_skip_one(es: Seq<Entry>, i: int)
    requires
        0 <= i <= es.len(),
        es.skip(i).len() > 0,
    ensures
        i < es.len(),
        es.skip(i).skip(1) == es.skip(i + 1),
{
    assert(es.skip(i).skip(1) =~= es.skip(i + 1));
}

impl StorageIterator for BlockIterator {
    type Error = Infallible;

    open spec fn inv(&self) -> bool {
        &&& built(self.block())
        &&& self.position() <= self.block().offsets.len()
    }

    open spec fn remaining(&self) -> Seq<Entry> {
        entries_of(self.block()).skip(self.position() as int)
    }

    fn key(&self) -> (k: &[u8]) {
        let at = self.entry_start();
        proof {
            lemma_built_layout(self.block@, self.idx as int);
        }
        let data = self.block.data.as_slice();
        let key_len = read_u16(data[at], data[at + 1]) as usize;
        &data[at + 2..at + 2 + key_len]
    }

    fn value(&self) -> (v: &[u8]) {
        let at = self.entry_start();
        proof {
            lemma_built_layout(self.block@, self.idx as int);
        }
        let data = self.block.data.as_slice();
        let key_len = read_u16(data[at], data[at + 1]) as usize;
        let value_at = at + 2 + key_len;
        let value_len = read_u16(data[value_at], data[value_at + 1]) as usize;
        &data[value_at + 2..value_at + 2 + value_len]
    }

    fn is_valid(&self) -> (valid: bool) {
        proof {
            lemma_entries_of_index(self.block@);
        }
        self.idx < self.block.offsets.len()
    }

    fn next(&mut self) -> (r: Result<(), Infallible>)
        ensures
            r is Ok,
    {
        let len = self.block.offsets.len();
        proof {
            lemma_entries_of_index(self.block@);
            lemma_skip_one(entries_of(self.block@), self.idx as int);
        }
        assert(self.idx < len);
        self.idx = self.idx + 1;
        Ok(())
    }
}

} // verus!
