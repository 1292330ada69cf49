//! Builds a block entry by entry, within a byte budget.

use crate::block::{
    block_of, built, encoded, encoded_len, entries_bytes, entries_of, entries_offsets,
    entry_bytes, entry_len, lemma_block_of_built, lemma_block_of_ordered,
    lemma_entries_bytes_push, offsets_ordered, Block, Entry, MAX_BLOCK_DATA,
};
use crate::wire::put_u16;
use vstd::prelude::*;

verus! {

/// Collects entries for one block until the next would pass the budget.
pub struct BlockBuilder {
    offsets: Vec<u16>,
    data: Vec<u8>,
    block_size: usize,
    entries: Ghost<Seq<Entry>>,
}

impl View for BlockBuilder {
    type V = Seq<Entry>;

    /// The entries accepted so far, in order.
    closed spec fn view(&self) -> Seq<Entry> {
        self.entries@
    }
}

/// Whether a block that holds `es` under the budget `block_size` takes
/// `e` as well. The data may never pass `MAX_BLOCK_DATA`; an empty
/// block takes any entry that meets this, a block with entries only one
/// that keeps its wire form within the budget.
pub open spec fn accepts(es: Seq<Entry>, block_size: usize, e: Entry) -> bool {
    &&& entries_bytes(es).len() + entry_len(e) <= MAX_BLOCK_DATA
    &&& (es.len() == 0 || encoded_len(es) + entry_len(e) + 2 <= block_size)
}

impl BlockBuilder {
    /// The budget, in bytes, for the block's wire form.
    pub closed spec fn block_size(&self) -> usize {
        self.block_size
    }

    /// The builder's invariant: data and offsets are those of the block
    /// that holds the accepted entries, the data is within its limit, and
    /// a block of two or more entries is within the budget.
    pub closed spec fn wf(&self) -> bool {
        &&& self.data@ == entries_bytes(self.entries@)
        &&& self.offsets@ == entries_offsets(self.entries@)
        &&& self.data@.len() <= MAX_BLOCK_DATA
        &&& (self.entries@.len() >= 2 ==> encoded_len(self.entries@) <= self.block_size)
    }

    /// The data of a well-formed builder is within the limit of a block.
    pub proof fn lemma_wf_data_bound(&self)
        requires
            self.wf(),
        ensures
            entries_bytes(self@).len() <= MAX_BLOCK_DATA,
    {
    }

    /// An empty builder with the given budget.
    pub fn new(block_size: usize) -> (b: BlockBuilder)
        ensures
            b.wf(),
            b@ == Seq::<Entry>::empty(),
            b.block_size() == block_size,
    {
        let b = BlockBuilder {
            offsets: Vec::new(),
            data: Vec::new(),
            block_size,
            entries: Ghost(Seq::empty()),
        };
        assert(b.offsets@ =~= entries_offsets(b.entries@));
        b
    }

    /// The length that the block's wire form has now.
    pub fn estimated_size(&self) -> (n: usize)
        requires
            self.wf(),
        ensures
            n == encoded_len(self@),
    {
        proof {
            lemma_block_of_ordered(self.entries@);
        }
        2 + self.offsets.len() * 2 + self.data.len()
    }

    /// Whether no entry was accepted yet.
    pub fn is_empty(&self) -> (empty: bool)
        requires
            self.wf(),
        ensures
            empty == (self@.len() == 0),
    {
        self.offsets.is_empty()
    }

    /// Appends one entry if `accepts` allows it, and says whether it did.
    /// A refused entry leaves the builder as it was.
    pub fn add(&mut self, key: &[u8], value: &[u8]) -> (accepted: bool)
        requires
            old(self).wf(),
        ensures
            final(self).wf(),
            final(self).block_size() == old(self).block_size(),
            accepted == accepts(old(self)@, old(self).block_size(), Entry { key: key@, value: value@ }),
            accepted ==> final(self)@ == old(self)@.push(Entry { key: key@, value: value@ }),
            !accepted ==> final(self)@ == old(self)@,
    {
        let ghost e = Entry { key: key@, value: value@ };
        let ghost es = self.entries@;
        proof {
            lemma_block_of_ordered(es);
            lemma_entries_bytes_push(es, e);
        }
        if key.len() > MAX_BLOCK_DATA || value.len() > MAX_BLOCK_DATA {
            return false;
        }
        let need: usize = 4 + key.len() + value.len();
        if self.data.len() + need > MAX_BLOCK_DATA {
            return false;
        }
        if !self.offsets.is_empty() {
            let size: usize = 2 + self.offsets.len() * 2 + self.data.len();
            if self.block_size < size || self.block_size - size < need + 2 {
                return false;
            }
        }
        let at: u16 = self.data.len() as u16;
        self.offsets.push(at);
        put_u16(&mut self.data, key.len() as u16);
        self.data.extend_from_slice(key);
        put_u16(&mut self.data, value.len() as u16);
        self.data.extend_from_slice(value);
        self.entries = Ghost(es.push(e));
        proof {
            assert(self.data@ =~= entries_bytes(es) + entry_bytes(e));
            assert forall|i: int| 0 <= i < es.len() + 1 implies es.push(e).take(i) == if i
                <= es.len() {
                es.take(i)
            } else {
                es.push(e)
            } by {
                if i <= es.len() {
                    assert(es.push(e).take(i) =~= es.take(i));
                }
            }
            assert(es.take(es.len() as int) =~= es);
            assert(self.offsets@ =~= entries_offsets(es.push(e)));
        }
        true
    }

    /// The finished block: it holds the accepted entries, and its
    /// offsets are as many, point into the data, and strictly increase.
    pub fn build(self) -> (block: Block)
        requires
            self.wf(),
        ensures
            block@ == block_of(self@),
            block@.offsets.len() == self@.len(),
            offsets_ordered(block@),
            entries_of(block@) == self@,
            built(block@),
    {
        proof {
            lemma_block_of_ordered(self.entries@);
            lemma_block_of_built(self.entries@);
        }
        Block { data: self.data, offsets: self.offsets }
    }
}

/// Whether a block of budget `block_size` has room for `e` alone, with
/// its offset and the count behind the data.
pub open spec fn fits_alone(e: Entry, block_size: usize) -> bool {
    entry_len(e) + 4 <= block_size
}

/// The wire form of the block that holds `es` is `encoded_len(es)` long.
pub proof fn lemma_encoded_len(es: Seq<Entry>)
    ensures
        encoded(block_of(es)).len() == encoded_len(es),
{
}

/// The wire form of a block never passes the budget by more than the two
/// bytes of the count, and a block that holds entries stays within the
/// budget, as long as each of its entries fits alone.
pub proof fn lemma_block_within_budget(b: BlockBuilder)
    requires
        b.wf(),
        forall|i: int| 0 <= i < b@.len() ==> fits_alone(#[trigger] b@[i], b.block_size()),
    ensures
        encoded(block_of(b@)).len() <= b.block_size() + 2,
        b@.len() > 0 ==> encoded(block_of(b@)).len() <= b.block_size(),
{
    let es = b@;
    if es.len() == 1 {
        assert(fits_alone(es[0], b.block_size()));
        assert(entries_bytes(es.drop_last()).len() == 0);
        assert(entries_bytes(es).len() == entry_len(es[0]));
    }
}

} // verus!
