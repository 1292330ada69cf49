//! Iterators over sorted entries.

pub mod merge_iterator;

pub use merge_iterator::MergeIterator;

use crate::block::Entry;
use vstd::prelude::*;

verus! {

/// A cursor over a run of entries. It stands on the first of the entries
/// that remain, and is valid as long as one remains.
///
/// What is proved of a merge holds for sources that keep the contracts
/// below. `BlockIterator` is proved to keep them. An implementation
/// written outside verified code cannot state `inv` and `remaining`; it
/// is taken on trust to behave as a cursor over some run of entries:
/// `key` and `value` read the current entry without moving, `is_valid`
/// says whether there is one, and `next` passes exactly one entry.
pub trait StorageIterator {
    /// What a failed step reports.
    type Error;

    /// The iterator's own invariant.
    open spec fn inv(&self) -> bool {
        true
    }

    /// The entries not yet passed, the current one first.
    open spec fn remaining(&self) -> Seq<Entry> {
        Seq::empty()
    }

    /// The key of the current entry.
    fn key(&self) -> (k: &[u8])
        requires
            self.inv(),
            self.remaining().len() > 0,
        ensures
            k@ == self.remaining()[0].key,
    ;

    /// The value of the current entry.
    fn value(&self) -> (v: &[u8])
        requires
            self.inv(),
            self.remaining().len() > 0,
        ensures
            v@ == self.remaining()[0].value,
    ;

    /// Whether an entry remains.
    fn is_valid(&self) -> (valid: bool)
        requires
            self.inv(),
        ensures
            valid == (self.remaining().len() > 0),
    ;

    /// Passes the current entry. After a failure the iterator is still
    /// sound, but nothing is known of what remains.
    fn next(&mut self) -> (r: Result<(), Self::Error>)
        requires
            old(self).inv(),
            old(self).remaining().len() > 0,
        ensures
            final(self).inv(),
            r is Ok ==> final(self).remaining() == old(self).remaining().skip(1),
    ;
}

} // verus!
