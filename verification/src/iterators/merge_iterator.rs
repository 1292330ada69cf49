//! Merges several sorted sources into one stream without repeated keys.

use crate::block::Entry;
use crate::iterators::StorageIterator;
use crate::key::{
    compare_keys, key_lt, lemma_key_lt_irreflexive, lemma_key_lt_total, lemma_key_lt_transitive,
    KeyOrder,
};
use crate::table::keys_ascending;
use vstd::prelude::*;

verus! {

/// A source in the active set, with its position among the sources given.
struct HeapWrapper<I: StorageIterator>(usize, Box<I>);

/// The entry that the last step chose, kept while its source moves on.
struct Winner {
    key: Vec<u8>,
    value: Vec<u8>,
    source_valid: bool,
}

/// Merges sources of one type. Where a key occurs in several sources,
/// the source with the smallest position provides its value.
pub struct MergeIterator<I: StorageIterator> {
    iters: Vec<HeapWrapper<I>>,
    current: Option<Winner>,
    sources: Ghost<Seq<Seq<Entry>>>,
}

/// What a merge holds: for each source given, by position, the entries
/// that remain of it; the entry chosen by the last step, if any; and
/// whether the source of that entry had more to give.
pub struct MergeView {
    pub sources: Seq<Seq<Entry>>,
    pub current: Option<Entry>,
    pub current_source_valid: bool,
}

impl<I: StorageIterator> HeapWrapper<I> {
    /// Whether `self` is chosen before `other`: the smaller key goes
    /// first, and of two equal keys the one of the smaller position.
    fn precedes(&self, other: &Self) -> (first: bool)
        requires
            self.1.inv(),
            self.1.remaining().len() > 0,
            other.1.inv(),
            other.1.remaining().len() > 0,
        ensures
            first == {
                ||| key_lt(self.1.remaining()[0].key, other.1.remaining()[0].key)
                ||| self.1.remaining()[0].key == other.1.remaining()[0].key && self.0 < other.0
            },
    {
        proof {
            lemma_key_lt_total(self.1.remaining()[0].key, other.1.remaining()[0].key);
        }
        match compare_keys(self.1.key(), other.1.key()) {
            KeyOrder::Less => true,
            KeyOrder::Equal => self.0 < other.0,
            KeyOrder::Greater => false,
        }
    }
}

/// Whether some wrapper of `active` stands for the source at `index`.
spec fn holds_index<I: StorageIterator>(active: Seq<HeapWrapper<I>>, index: int) -> bool {
    exists|j: int| 0 <= j < active.len() && #[trigger] active[j].0 == index
}

/// Whether some wrapper of `active` at place `from` or later stands for
/// the source at `index`.
spec fn holds_index_from<I: StorageIterator>(
    active: Seq<HeapWrapper<I>>,
    from: int,
    index: int,
) -> bool {
    exists|t: int| from <= t < active.len() && #[trigger] active[t].0 == index
}

/// Whether nothing remains of any source.
pub open spec fn exhausted(sources: Seq<Seq<Entry>>) -> bool {
    forall|i: int| 0 <= i < sources.len() ==> (#[trigger] sources[i]).len() == 0
}

/// Whether source `w` provides the next entry: of all sources with an
/// entry left, its current key is the smallest, and among those with
/// that key, its position is the smallest.
pub open spec fn is_winner(sources: Seq<Seq<Entry>>, w: int) -> bool {
    &&& 0 <= w < sources.len()
    &&& sources[w].len() > 0
    &&& forall|i: int|
        0 <= i < sources.len() && (#[trigger] sources[i]).len() > 0 ==> {
            ||| key_lt(sources[w][0].key, sources[i][0].key)
            ||| sources[w][0].key == sources[i][0].key && w <= i
        }
}

/// The position of the source that provides the next entry.
pub open spec fn winner_of(sources: Seq<Seq<Entry>>) -> int {
    choose|w: int| is_winner(sources, w)
}

/// The sources after the entry with key `k` was chosen: every source
/// that stands on `k` has passed it, the others are as they were.
pub open spec fn advanced(sources: Seq<Seq<Entry>>, k: Seq<u8>) -> Seq<Seq<Entry>> {
    Seq::new(
        sources.len(),
        |i: int|
            if sources[i].len() > 0 && sources[i][0].key == k {
                sources[i].skip(1)
            } else {
                sources[i]
            },
    )
}

impl MergeView {
    /// The merge after one step. With nothing left in any source, no
    /// entry is held. Else the winning source's current entry is held,
    /// and every source that stood on its key has passed it.
    pub open spec fn stepped(self) -> MergeView {
        if exhausted(self.sources) {
            MergeView { sources: self.sources, current: None, current_source_valid: false }
        } else {
            let w = winner_of(self.sources);
            MergeView {
                sources: advanced(self.sources, self.sources[w][0].key),
                current: Some(self.sources[w][0]),
                current_source_valid: self.sources[w].len() > 1,
            }
        }
    }
}

/// At most one source provides the next entry.
pub proof fn lemma_winner_unique(sources: Seq<Seq<Entry>>, a: int, b: int)
    requires
        is_winner(sources, a),
        is_winner(sources, b),
    ensures
        a == b,
{
    lemma_key_lt_total(sources[a][0].key, sources[b][0].key);
}

impl<I: StorageIterator> View for MergeIterator<I> {
    type V = MergeView;

    closed spec fn view(&self) -> MergeView {
        MergeView {
            sources: self.sources@,
            current: match self.current {
                Some(w) => Some(Entry { key: w.key@, value: w.value@ }),
                None => None,
            },
            current_source_valid: match self.current {
                Some(w) => w.source_valid,
                None => false,
            },
        }
    }
}

impl<I: StorageIterator> MergeIterator<I> {
    /// Whether `w` stands for one of `sources`: it is sound, on an entry,
    /// and what remains of it is what `sources` says at its position.
    spec fn stands_for(w: HeapWrapper<I>, sources: Seq<Seq<Entry>>) -> bool {
        &&& w.0 < sources.len()
        &&& w.1.inv()
        &&& w.1.remaining() == sources[w.0 as int]
        &&& w.1.remaining().len() > 0
    }

    /// Whether `active` is the active set for `sources`: it holds exactly
    /// the sources with an entry left, each once, and each sound.
    spec fn active_for(active: Seq<HeapWrapper<I>>, sources: Seq<Seq<Entry>>) -> bool {
        &&& forall|j: int| 0 <= j < active.len() ==> Self::stands_for(#[trigger] active[j], sources)
        &&& Self::distinct(active)
        &&& forall|i: int|
            0 <= i < sources.len() && (#[trigger] sources[i]).len() > 0 ==> holds_index(active, i)
    }

    /// The merge's invariant.
    pub closed spec fn wf(&self) -> bool {
        Self::active_for(self.iters@, self.sources@)
    }

    /// Whether each iterator given is sound.
    pub open spec fn all_sound(iters: Seq<Box<I>>) -> bool {
        forall|i: int| 0 <= i < iters.len() ==> (#[trigger] iters[i]).inv()
    }

    /// What remains of each iterator given, by position.
    pub open spec fn remaining_of(iters: Seq<Box<I>>) -> Seq<Seq<Entry>> {
        Seq::new(iters.len(), |i: int| iters[i].remaining())
    }

    /// A merge of the iterators given; the position of each in `iters` is
    /// its priority. Those with no entry left are dropped at once. No
    /// entry is chosen yet.
    pub fn create(iters: Vec<Box<I>>) -> (m: MergeIterator<I>)
        requires
            Self::all_sound(iters@),
        ensures
            m.wf(),
            m@.sources == Self::remaining_of(iters@),
            m@.current is None,
            !m@.current_source_valid,
    {
        let ghost given = iters@;
        let ghost sources = Self::remaining_of(given);
        let mut iters = iters;
        let mut active: Vec<HeapWrapper<I>> = Vec::new();
        while iters.len() > 0
            invariant
                iters@.len() <= given.len(),
                iters@ == given.take(iters@.len() as int),
                Self::all_sound(given),
                sources == Self::remaining_of(given),
                forall|j: int|
                    0 <= j < active@.len() ==> Self::stands_for(#[trigger] active@[j], sources)
                        && iters@.len() <= active@[j].0,
                forall|j: int, k: int|
                    0 <= j < k < active@.len() ==> (#[trigger] active@[j]).0 != (
                    #[trigger] active@[k]).0,
                forall|i: int|
                    iters@.len() <= i < sources.len() && (#[trigger] sources[i]).len() > 0
                        ==> holds_index(active@, i),
            decreases iters@.len(),
        {
            let ghost before = active@;
            let idx: usize = iters.len() - 1;
            let iter = iters.pop().unwrap();
            assert(iter == given[idx as int]);
            assert(iter.inv());
            assert(iters@ =~= given.take(idx as int));
            if iter.is_valid() {
                active.push(HeapWrapper(idx, iter));
                assert(active@[before.len() as int].0 == idx);
            }
            assert forall|i: int|
                iters@.len() <= i < sources.len() && (#[trigger] sources[i]).len() > 0
                    implies holds_index(active@, i) by {
                if i > idx {
                    let j = choose|j: int| 0 <= j < before.len() && #[trigger] before[j].0 == i;
                    assert(active@[j].0 == i);
                }
            }
        }
        MergeIterator { iters: active, current: None, sources: Ghost(sources) }
    }
}

impl<I: StorageIterator> MergeIterator<I> {
    /// Whether an entry is held: the last step chose one.
    pub fn has_current(&self) -> (held: bool)
        ensures
            held == (self@.current is Some),
    {
        self.current.is_some()
    }

    /// Whether an entry is held and its source had more to give when it
    /// was chosen.
    pub fn is_valid(&self) -> (valid: bool)
        ensures
            valid == (self@.current is Some && self@.current_source_valid),
    {
        match &self.current {
            Some(w) => w.source_valid,
            None => false,
        }
    }

    /// The key of the entry held.
    pub fn key(&self) -> (k: &[u8])
        requires
            self@.current is Some,
        ensures
            k@ == self@.current.unwrap().key,
    {
        self.current.as_ref().unwrap().key.as_slice()
    }

    /// The value of the entry held.
    pub fn value(&self) -> (v: &[u8])
        requires
            self@.current is Some,
        ensures
            v@ == self@.current.unwrap().value,
    {
        self.current.as_ref().unwrap().value.as_slice()
    }

    /// The place in the active set of the source that provides the next
    /// entry: smallest key first, and among equal keys smallest position.
    fn winner_position(&self) -> (best: usize)
        requires
            self.wf(),
            self.iters@.len() > 0,
        ensures
            best < self.iters@.len(),
            is_winner(self.sources@, self.iters@[best as int].0 as int),
    {
        let ghost active = self.iters@;
        let ghost sources = self.sources@;
        let mut best: usize = 0;
        let mut j: usize = 1;
        assert(Self::stands_for(active[0], sources));
        while j < self.iters.len()
            invariant
                1 <= j <= active.len(),
                best < j,
                active == self.iters@,
                sources == self.sources@,
                Self::active_for(active, sources),
                forall|t: int|
                    0 <= t < j ==> {
                        ||| key_lt(
                            active[best as int].1.remaining()[0].key,
                            (#[trigger] active[t]).1.remaining()[0].key,
                        )
                        ||| active[best as int].1.remaining()[0].key
                            == active[t].1.remaining()[0].key && active[best as int].0
                            <= active[t].0
                    },
            decreases active.len() - j,
        {
            assert(Self::stands_for(active[j as int], sources));
            assert(Self::stands_for(active[best as int], sources));
            let ghost kb = active[best as int].1.remaining()[0].key;
            let ghost kj = active[j as int].1.remaining()[0].key;
            let better = self.iters[j].precedes(&self.iters[best]);
            proof {
                lemma_key_lt_total(kj, kb);
                if better {
                    assert forall|t: int| 0 <= t < j + 1 implies {
                        ||| key_lt(kj, (#[trigger] active[t]).1.remaining()[0].key)
                        ||| kj == active[t].1.remaining()[0].key && active[j as int].0
                            <= active[t].0
                    } by {
                        let kt = active[t].1.remaining()[0].key;
                        if t < j && key_lt(kb, kt) && key_lt(kj, kb) {
                            lemma_key_lt_transitive(kj, kb, kt);
                        }
                    }
                }
            }
            if better {
                best = j;
            }
            j += 1;
        }
        proof {
            let w = active[best as int].0 as int;
            assert(Self::stands_for(active[best as int], sources));
            assert forall|i: int| 0 <= i < sources.len() && (#[trigger] sources[i]).len() > 0 implies {
                ||| key_lt(sources[w][0].key, sources[i][0].key)
                ||| sources[w][0].key == sources[i][0].key && w <= i
            } by {
                assert(holds_index(active, i));
                let t = choose|t: int| 0 <= t < active.len() && #[trigger] active[t].0 == i;
                assert(Self::stands_for(active[t], sources));
            }
        }
        best
    }
}

impl<I: StorageIterator> MergeIterator<I> {
    /// Whether no two wrappers of `active` stand for the same source.
    spec fn distinct(active: Seq<HeapWrapper<I>>) -> bool {
        forall|j: int, k: int|
            0 <= j < k < active.len() ==> (#[trigger] active[j]).0 != (#[trigger] active[k]).0
    }

    /// Whether `w` stands on the key `key`.
    spec fn stands_on(w: HeapWrapper<I>, key: Seq<u8>) -> bool {
        w.1.remaining().len() > 0 && w.1.remaining()[0].key == key
    }

    /// Lets every source of `rest` that stands on `key` pass it, and
    /// keeps the sources that still hold an entry. Only the step of a
    /// source can fail: where no source stands on `key`, none is moved,
    /// and the sources come back as they are.
    fn pass_key(
        rest: Vec<HeapWrapper<I>>,
        key: &[u8],
        Ghost(sources): Ghost<Seq<Seq<Entry>>>,
    ) -> (r: Result<Vec<HeapWrapper<I>>, I::Error>)
        requires
            forall|j: int| 0 <= j < rest@.len() ==> Self::stands_for(#[trigger] rest@[j], sources),
            Self::distinct(rest@),
        ensures
            match r {
                Ok(kept) => {
                    &&& forall|j: int|
                        0 <= j < kept@.len() ==> Self::stands_for(
                            #[trigger] kept@[j],
                            advanced(sources, key@),
                        ) && holds_index(rest@, kept@[j].0 as int)
                    &&& Self::distinct(kept@)
                    &&& forall|t: int|
                        0 <= t < rest@.len() && advanced(sources, key@)[(
                        #[trigger] rest@[t]).0 as int].len() > 0 ==> holds_index(
                            kept@,
                            rest@[t].0 as int,
                        )
                },
                Err(_) => exists|j: int|
                    0 <= j < rest@.len() && Self::stands_on(#[trigger] rest@[j], key@),
            },
    {
        let ghost given = rest@;
        let ghost after = advanced(sources, key@);
        let mut pending = rest;
        let mut kept: Vec<HeapWrapper<I>> = Vec::new();
        while pending.len() > 0
            invariant
                given == rest@,
                pending@.len() <= given.len(),
                pending@ == given.take(pending@.len() as int),
                after == advanced(sources, key@),
                forall|j: int| 0 <= j < given.len() ==> Self::stands_for(#[trigger] given[j], sources),
                Self::distinct(given),
                forall|j: int|
                    0 <= j < kept@.len() ==> Self::stands_for(#[trigger] kept@[j], after)
                        && holds_index_from(given, pending@.len() as int, kept@[j].0 as int),
                Self::distinct(kept@),
                forall|t: int|
                    pending@.len() <= t < given.len() && after[(#[trigger] given[t]).0 as int].len()
                        > 0 ==> holds_index(kept@, given[t].0 as int),
            decreases pending@.len(),
        {
            let ghost before = kept@;
            let ghost at = pending@.len() - 1;
            let mut w = pending.pop().unwrap();
            assert(w == given[at]);
            assert(pending@ =~= given.take(at));
            assert(Self::stands_for(given[at], sources));
            let ghost was = w.1.remaining();
            let same = match compare_keys(w.1.key(), key) {
                KeyOrder::Equal => true,
                _ => false,
            };
            proof {
                lemma_key_lt_total(was[0].key, key@);
            }
            if same {
                match w.1.next() {
                    Ok(()) => {},
                    Err(e) => {
                        assert(Self::stands_on(given[at], key@));
                        return Err(e);
                    },
                }
            }
            assert(w.1.remaining() == after[w.0 as int]);
            if w.1.is_valid() {
                kept.push(w);
                proof {
                    assert(kept@[before.len() as int] == w);
                    assert(Self::stands_for(w, after));
                    assert forall|j: int, k: int| 0 <= j < k < kept@.len() implies (
                    #[trigger] kept@[j]).0 != (#[trigger] kept@[k]).0 by {
                        if k == before.len() {
                            assert(holds_index_from(given, at + 1, before[j].0 as int));
                            let t = choose|t: int|
                                at < t < given.len() && #[trigger] given[t].0 == before[j].0;
                            assert(given[at].0 != given[t].0);
                        }
                    }
                }
            }
            proof {
                assert forall|j: int| 0 <= j < kept@.len() implies holds_index_from(
                    given,
                    at,
                    (#[trigger] kept@[j]).0 as int,
                ) by {
                    if j < before.len() {
                        assert(holds_index_from(given, at + 1, before[j].0 as int));
                        let t = choose|t: int|
                            at < t < given.len() && #[trigger] given[t].0 == before[j].0;
                        assert(given[t].0 == kept@[j].0);
                    } else {
                        assert(given[at].0 == kept@[j].0);
                    }
                }
                assert forall|t: int|
                    pending@.len() <= t < given.len() && after[(#[trigger] given[t]).0 as int].len()
                        > 0 implies holds_index(kept@, given[t].0 as int) by {
                    if t > at {
                        assert(holds_index(before, given[t].0 as int));
                        let j = choose|j: int|
                            0 <= j < before.len() && #[trigger] before[j].0 == given[t].0;
                        assert(kept@[j].0 == given[t].0);
                    } else {
                        assert(kept@[before.len() as int].0 == given[t].0);
                    }
                }
            }
        }
        proof {
            assert forall|j: int| 0 <= j < kept@.len() implies holds_index(
                given,
                (#[trigger] kept@[j]).0 as int,
            ) by {
                assert(holds_index_from(given, 0, kept@[j].0 as int));
                let t = choose|t: int| 0 <= t < given.len() && #[trigger] given[t].0 == kept@[j].0;
                assert(given[t].0 == kept@[j].0);
            }
        }
        Ok(kept)
    }
}

impl<I: StorageIterator> MergeIterator<I> {
    /// Gives up every source after a failed step.
    fn abandon(&mut self)
        ensures
            final(self).wf(),
            exhausted(final(self)@.sources),
            final(self)@.current is None,
    {
        self.iters = Vec::new();
        self.current = None;
        self.sources = Ghost(Seq::empty());
    }

    /// Moves the merge on by one key. With no source left, the entry held
    /// is let go and nothing else changes. Else the source with the
    /// smallest current key, and among several the one given first,
    /// provides the entry that is held from now on; every source that
    /// stands on that key passes it, and a source that runs out is
    /// dropped. A failure of a source is handed on as it came; the merge
    /// then gives up all sources.
    pub fn next(&mut self) -> (r: Result<(), I::Error>)
        requires
            old(self).wf(),
        ensures
            final(self).wf(),
            exhausted(old(self)@.sources) ==> r is Ok,
            r is Ok ==> final(self)@ == old(self)@.stepped(),
            r is Err ==> exhausted(final(self)@.sources) && final(self)@.current is None,
    {
        let ghost sources = self.sources@;
        let ghost active = self.iters@;
        if self.iters.len() == 0 {
            self.current = None;
            proof {
                assert forall|i: int| 0 <= i < sources.len() implies (#[trigger] sources[i]).len()
                    == 0 by {
                    if sources[i].len() > 0 {
                        assert(holds_index(active, i));
                    }
                }
            }
            return Ok(());
        }
        let best = self.winner_position();
        let ghost w = active[best as int].0 as int;
        proof {
            assert(Self::stands_for(active[best as int], sources));
            lemma_winner_unique(sources, winner_of(sources), w);
        }
        let ghost after = advanced(sources, sources[w][0].key);

        let mut rest: Vec<HeapWrapper<I>> = Vec::new();
        std::mem::swap(&mut self.iters, &mut rest);
        let mut winner = rest.remove(best);
        let ghost others = rest@;
        proof {
            assert forall|j: int| 0 <= j < others.len() implies Self::stands_for(
                #[trigger] others[j],
                sources,
            ) && others[j].0 != w by {
                if j < best {
                    assert(others[j] == active[j]);
                } else {
                    assert(others[j] == active[j + 1]);
                }
            }
            assert(Self::distinct(others)) by {
                assert forall|j: int, k: int| 0 <= j < k < others.len() implies (
                #[trigger] others[j]).0 != (#[trigger] others[k]).0 by {
                    let jj = if j < best { j } else { j + 1 };
                    let kk = if k < best { k } else { k + 1 };
                    assert(others[j] == active[jj]);
                    assert(others[k] == active[kk]);
                }
            }
        }
        let mut key: Vec<u8> = Vec::new();
        key.extend_from_slice(winner.1.key());
        let mut value: Vec<u8> = Vec::new();
        value.extend_from_slice(winner.1.value());
        assert(key@ =~= sources[w][0].key);
        assert(value@ =~= sources[w][0].value);

        let mut kept = match Self::pass_key(rest, key.as_slice(), Ghost(sources)) {
            Ok(kept) => kept,
            Err(e) => {
                self.abandon();
                return Err(e);
            },
        };
        match winner.1.next() {
            Ok(()) => {},
            Err(e) => {
                self.abandon();
                return Err(e);
            },
        }
        let source_valid = winner.1.is_valid();
        let ghost passed = kept@;
        if source_valid {
            kept.push(winner);
        }
        proof {
            assert(winner.1.remaining() == after[w]);
            assert forall|j: int| 0 <= j < kept@.len() implies Self::stands_for(
                #[trigger] kept@[j],
                after,
            ) by {
                if j < passed.len() {
                    assert(kept@[j] == passed[j]);
                }
            }
            assert(Self::distinct(kept@)) by {
                assert forall|j: int, k: int| 0 <= j < k < kept@.len() implies (
                #[trigger] kept@[j]).0 != (#[trigger] kept@[k]).0 by {
                    assert(kept@[j] == passed[j]);
                    if k == passed.len() {
                        assert(holds_index(others, passed[j].0 as int));
                        let t = choose|t: int|
                            0 <= t < others.len() && #[trigger] others[t].0 == passed[j].0;
                        assert(others[t].0 != w);
                    } else {
                        assert(kept@[k] == passed[k]);
                    }
                }
            }
            assert forall|i: int| 0 <= i < after.len() && (#[trigger] after[i]).len()
                > 0 implies holds_index(kept@, i) by {
                assert(sources[i].len() > 0);
                assert(holds_index(active, i));
                let p = choose|p: int| 0 <= p < active.len() && #[trigger] active[p].0 == i;
                if p == best {
                    assert(kept@[passed.len() as int].0 == i);
                } else {
                    let t = if p < best { p } else { p - 1 };
                    assert(others[t] == active[p]);
                    assert(holds_index(passed, others[t].0 as int));
                    let j = choose|j: int| 0 <= j < passed.len() && #[trigger] passed[j].0 == i;
                    assert(kept@[j].0 == i);
                }
            }
        }
        self.iters = kept;
        self.sources = Ghost(after);
        self.current = Some(Winner { key, value, source_valid });
        Ok(())
    }
}

/// Whether the keys of each source strictly ascend.
pub open spec fn sources_ascending(sources: Seq<Seq<Entry>>) -> bool {
    forall|i: int| 0 <= i < sources.len() ==> keys_ascending(#[trigger] sources[i])
}

/// A merge of no sources, or of sources that have all run out, holds no
/// entry, and a step leaves it as it is.
pub proof fn lemma_exhausted_stays(v: MergeView)
    requires
        exhausted(v.sources),
        v.current is None,
        !v.current_source_valid,
    ensures
        v.stepped() == v,
        v.stepped().current is None,
{
}

/// While a source holds an entry, some source provides the next one.
pub proof fn lemma_winner_exists(sources: Seq<Seq<Entry>>)
    requires
        !exhausted(sources),
    ensures
        is_winner(sources, winner_of(sources)),
    decreases sources.len(),
{
    let n = sources.len() as int;
    let last = n - 1;
    let front = sources.drop_last();
    if exhausted(front) {
        assert forall|i: int| 0 <= i < n && (#[trigger] sources[i]).len() > 0 implies i == last by {
            if i < last {
                assert(front[i].len() == 0);
            }
        }
        assert(sources[last].len() > 0);
        assert(is_winner(sources, last));
    } else {
        lemma_winner_exists(front);
        let a = winner_of(front);
        let ka = sources[a][0].key;
        assert(front[a] == sources[a]);
        if sources[last].len() == 0 {
            assert forall|i: int| 0 <= i < n && (#[trigger] sources[i]).len() > 0 implies {
                ||| key_lt(ka, sources[i][0].key)
                ||| ka == sources[i][0].key && a <= i
            } by {
                assert(front[i] == sources[i]);
            }
            assert(is_winner(sources, a));
        } else {
            let kl = sources[last][0].key;
            lemma_key_lt_total(ka, kl);
            if key_lt(kl, ka) {
                assert forall|i: int| 0 <= i < n && (#[trigger] sources[i]).len() > 0 implies {
                    ||| key_lt(kl, sources[i][0].key)
                    ||| kl == sources[i][0].key && last <= i
                } by {
                    if i < last {
                        assert(front[i] == sources[i]);
                        if key_lt(ka, sources[i][0].key) {
                            lemma_key_lt_transitive(kl, ka, sources[i][0].key);
                        }
                    }
                }
                assert(is_winner(sources, last));
            } else {
                assert forall|i: int| 0 <= i < n && (#[trigger] sources[i]).len() > 0 implies {
                    ||| key_lt(ka, sources[i][0].key)
                    ||| ka == sources[i][0].key && a <= i
                } by {
                    if i < last {
                        assert(front[i] == sources[i]);
                    }
                }
                assert(is_winner(sources, a));
            }
        }
    }
}

/// Of the sources that stand on the key chosen, the one given first
/// provides the entry, and no source stands on a smaller key.
pub proof fn lemma_winner_has_priority(sources: Seq<Seq<Entry>>, i: int)
    requires
        !exhausted(sources),
        0 <= i < sources.len(),
        sources[i].len() > 0,
    ensures
        !key_lt(sources[i][0].key, sources[winner_of(sources)][0].key),
        sources[i][0].key == sources[winner_of(sources)][0].key ==> winner_of(sources) <= i,
{
    lemma_winner_exists(sources);
    let w = winner_of(sources);
    lemma_key_lt_total(sources[w][0].key, sources[i][0].key);
}

/// With sources whose keys strictly ascend, a step leaves the key it
/// chose behind in every source: whatever a source stands on afterwards
/// comes after that key, so no source shows the key again, and the
/// sources still ascend.
pub proof fn lemma_step_passes_key(v: MergeView, i: int)
    requires
        sources_ascending(v.sources),
        !exhausted(v.sources),
        0 <= i < v.sources.len(),
    ensures
        v.stepped().current is Some,
        sources_ascending(v.stepped().sources),
        v.stepped().sources.len() == v.sources.len(),
        v.stepped().sources[i].len() > 0 ==> key_lt(
            v.stepped().current.unwrap().key,
            v.stepped().sources[i][0].key,
        ),
{
    let s = v.sources;
    lemma_winner_exists(s);
    let w = winner_of(s);
    let k = s[w][0].key;
    let after = advanced(s, k);
    assert forall|j: int| 0 <= j < after.len() implies keys_ascending(#[trigger] after[j]) by {
        assert(keys_ascending(s[j]));
        if s[j].len() > 0 && s[j][0].key == k {
            assert forall|a: int, b: int| 0 <= a < b < after[j].len() implies key_lt(
                (#[trigger] after[j][a]).key,
                (#[trigger] after[j][b]).key,
            ) by {
                assert(key_lt(s[j][a + 1].key, s[j][b + 1].key));
            }
        }
    }
    if after[i].len() > 0 {
        assert(keys_ascending(s[i]));
        if s[i][0].key == k {
            assert(key_lt(s[i][0].key, s[i][1].key));
        } else {
            assert(s[i].len() > 0);
        }
    }
}

/// How many entries the sources hold in all.
pub open spec fn entries_left(sources: Seq<Seq<Entry>>) -> nat
    decreases sources.len(),
{
    if sources.len() == 0 {
        0
    } else {
        entries_left(sources.drop_last()) + sources.last().len()
    }
}

/// If no source of `a` holds more than the same source of `b`, and the
/// source at `w` holds less, `a` holds less in all.
pub proof fn lemma_fewer_left(a: Seq<Seq<Entry>>, b: Seq<Seq<Entry>>, w: int)
    requires
        a.len() == b.len(),
        forall|i: int| 0 <= i < a.len() ==> (#[trigger] a[i]).len() <= b[i].len(),
        0 <= w < a.len() ==> a[w].len() < b[w].len(),
    ensures
        entries_left(a) <= entries_left(b),
        0 <= w < a.len() ==> entries_left(a) < entries_left(b),
    decreases a.len(),
{
    if a.len() > 0 {
        let n = a.len() - 1;
        assert(a.last().len() <= b.last().len()) by {
            assert(a[n].len() <= b[n].len());
        }
        assert forall|i: int| 0 <= i < n implies (#[trigger] a.drop_last()[i]).len() <= b.drop_last()[i].len() by {
            assert(a[i].len() <= b[i].len());
        }
        lemma_fewer_left(a.drop_last(), b.drop_last(), w);
    }
}

/// A step takes at least the winner's entry out of the sources.
pub proof fn lemma_step_takes(sources: Seq<Seq<Entry>>)
    requires
        !exhausted(sources),
    ensures
        entries_left(advanced(sources, sources[winner_of(sources)][0].key)) < entries_left(
            sources,
        ),
{
    lemma_winner_exists(sources);
    let w = winner_of(sources);
    lemma_fewer_left(advanced(sources, sources[w][0].key), sources, w);
}

/// The stream that a merge of `sources` gives: the entries that the
/// steps choose one after another, until every source has run out.
pub open spec fn merged(sources: Seq<Seq<Entry>>) -> Seq<Entry>
    decreases entries_left(sources),
{
    if exhausted(sources) {
        Seq::empty()
    } else {
        proof {
            lemma_step_takes(sources);
        }
        let first = sources[winner_of(sources)][0];
        seq![first] + merged(advanced(sources, first.key))
    }
}

/// The stream of a merge is the entry that the next step holds, then the
/// stream of the merge after that step.
pub proof fn lemma_merged_step(v: MergeView)
    ensures
        exhausted(v.sources) ==> merged(v.sources) == Seq::<Entry>::empty(),
        !exhausted(v.sources) ==> merged(v.sources) == seq![v.stepped().current.unwrap()] + merged(
            v.stepped().sources,
        ),
{
}

/// With ascending sources that all stand behind the key `k`, every entry
/// of the merged stream comes after `k`.
pub proof fn lemma_merged_above(sources: Seq<Seq<Entry>>, k: Seq<u8>)
    requires
        sources_ascending(sources),
        forall|i: int|
            0 <= i < sources.len() && (#[trigger] sources[i]).len() > 0 ==> key_lt(
                k,
                sources[i][0].key,
            ),
    ensures
        forall|j: int| 0 <= j < merged(sources).len() ==> key_lt(k, (#[trigger] merged(sources)[j]).key),
    decreases entries_left(sources),
{
    if !exhausted(sources) {
        lemma_winner_exists(sources);
        lemma_step_takes(sources);
        let w = winner_of(sources);
        let first = sources[w][0];
        let after = advanced(sources, first.key);
        let v = MergeView { sources, current: None, current_source_valid: false };
        assert forall|i: int| 0 <= i < after.len() && (#[trigger] after[i]).len() > 0 implies key_lt(
            k,
            after[i][0].key,
        ) by {
            lemma_step_passes_key(v, i);
            lemma_key_lt_transitive(k, first.key, after[i][0].key);
        }
        assert(sources_ascending(after)) by {
            lemma_step_passes_key(v, w);
        }
        lemma_merged_above(after, k);
        let rest = merged(after);
        assert forall|j: int| 0 <= j < merged(sources).len() implies key_lt(
            k,
            (#[trigger] merged(sources)[j]).key,
        ) by {
            if j > 0 {
                assert(merged(sources)[j] == rest[j - 1]);
            }
        }
    }
}

/// The stream of a merge of ascending sources strictly ascends: it is
/// sorted by key, and no key occurs twice.
pub proof fn lemma_merged_ascending(sources: Seq<Seq<Entry>>)
    requires
        sources_ascending(sources),
    ensures
        keys_ascending(merged(sources)),
    decreases entries_left(sources),
{
    if !exhausted(sources) {
        lemma_winner_exists(sources);
        lemma_step_takes(sources);
        let w = winner_of(sources);
        let first = sources[w][0];
        let after = advanced(sources, first.key);
        let v = MergeView { sources, current: None, current_source_valid: false };
        assert forall|i: int| 0 <= i < after.len() && (#[trigger] after[i]).len() > 0 implies key_lt(
            first.key,
            after[i][0].key,
        ) by {
            lemma_step_passes_key(v, i);
        }
        assert(sources_ascending(after)) by {
            lemma_step_passes_key(v, w);
        }
        lemma_merged_above(after, first.key);
        lemma_merged_ascending(after);
        let rest = merged(after);
        let all = merged(sources);
        assert forall|i: int, j: int| 0 <= i < j < all.len() implies key_lt(
            (#[trigger] all[i]).key,
            (#[trigger] all[j]).key,
        ) by {
            assert(all[j] == rest[j - 1]);
            if i > 0 {
                assert(all[i] == rest[i - 1]);
            }
        }
    }
}

/// Whether `s` holds an entry with the key `k`.
pub open spec fn has_key(s: Seq<Entry>, k: Seq<u8>) -> bool {
    exists|p: int| 0 <= p < s.len() && (#[trigger] s[p]).key == k
}

/// Whether `s` holds the entry `e`.
pub open spec fn has_entry(s: Seq<Entry>, e: Entry) -> bool {
    exists|p: int| 0 <= p < s.len() && #[trigger] s[p] == e
}

/// Whether source `i` is the one to provide `e`: it holds `e`, and no
/// source given before it holds the key of `e`.
pub open spec fn provides(sources: Seq<Seq<Entry>>, i: int, e: Entry) -> bool {
    &&& 0 <= i < sources.len()
    &&& has_entry(sources[i], e)
    &&& forall|h: int| 0 <= h < i ==> !has_key(#[trigger] sources[h], e.key)
}

/// Whether some source is the one to provide `e`.
pub open spec fn provided(sources: Seq<Seq<Entry>>, e: Entry) -> bool {
    exists|i: int| provides(sources, i, e)
}

/// In ascending sources the winning source is the first that holds the
/// key it stands on.
proof fn lemma_winner_provides(sources: Seq<Seq<Entry>>)
    requires
        sources_ascending(sources),
        !exhausted(sources),
    ensures
        provides(sources, winner_of(sources), sources[winner_of(sources)][0]),
{
    lemma_winner_exists(sources);
    let w = winner_of(sources);
    let first = sources[w][0];
    assert(sources[w][0] == first);
    assert forall|h: int| 0 <= h < w implies !has_key(#[trigger] sources[h], first.key) by {
        if has_key(sources[h], first.key) {
            let p = choose|p: int| 0 <= p < sources[h].len() && (#[trigger] sources[h][p]).key == first.key;
            assert(sources[h].len() > 0);
            assert(key_lt(first.key, sources[h][0].key));
            assert(keys_ascending(sources[h]));
            if p == 0 {
                lemma_key_lt_irreflexive(first.key);
            } else {
                assert(key_lt(sources[h][0].key, sources[h][p].key));
                lemma_key_lt_total(first.key, sources[h][0].key);
            }
        }
    }
}

/// An entry with another key than the one a step chose is held by a
/// source after the step exactly if it was held before.
proof fn lemma_step_keeps(sources: Seq<Seq<Entry>>, k: Seq<u8>, i: int, e: Entry)
    requires
        0 <= i < sources.len(),
        e.key != k,
    ensures
        has_entry(advanced(sources, k)[i], e) == has_entry(sources[i], e),
        has_key(advanced(sources, k)[i], e.key) == has_key(sources[i], e.key),
{
    let before = sources[i];
    let after = advanced(sources, k)[i];
    if before.len() > 0 && before[0].key == k {
        if has_entry(before, e) {
            let p = choose|p: int| 0 <= p < before.len() && #[trigger] before[p] == e;
            assert(after[p - 1] == e);
        }
        if has_entry(after, e) {
            let p = choose|p: int| 0 <= p < after.len() && #[trigger] after[p] == e;
            assert(before[p + 1] == e);
        }
        if has_key(before, e.key) {
            let p = choose|p: int| 0 <= p < before.len() && (#[trigger] before[p]).key == e.key;
            assert(after[p - 1].key == e.key);
        }
        if has_key(after, e.key) {
            let p = choose|p: int| 0 <= p < after.len() && (#[trigger] after[p]).key == e.key;
            assert(before[p + 1].key == e.key);
        }
    }
}

/// Every entry of the merged stream of ascending sources is provided by
/// the first source that holds its key: where several sources hold a
/// key, the stream has the value of the one given first.
pub proof fn lemma_merged_provided(sources: Seq<Seq<Entry>>)
    requires
        sources_ascending(sources),
    ensures
        forall|j: int| 0 <= j < merged(sources).len() ==> provided(sources, #[trigger] merged(sources)[j]),
    decreases entries_left(sources),
{
    if !exhausted(sources) {
        lemma_winner_exists(sources);
        lemma_step_takes(sources);
        let w = winner_of(sources);
        let first = sources[w][0];
        let after = advanced(sources, first.key);
        let v = MergeView { sources, current: None, current_source_valid: false };
        assert forall|i: int| 0 <= i < after.len() && (#[trigger] after[i]).len() > 0 implies key_lt(
            first.key,
            after[i][0].key,
        ) by {
            lemma_step_passes_key(v, i);
        }
        assert(sources_ascending(after)) by {
            lemma_step_passes_key(v, w);
        }
        lemma_merged_above(after, first.key);
        lemma_merged_provided(after);
        lemma_winner_provides(sources);
        let rest = merged(after);
        let all = merged(sources);
        assert forall|j: int| 0 <= j < all.len() implies provided(sources, #[trigger] all[j]) by {
            if j > 0 {
                let e = rest[j - 1];
                assert(all[j] == e);
                assert(provided(after, e));
                let i = choose|i: int| provides(after, i, e);
                assert(key_lt(first.key, e.key));
                lemma_key_lt_irreflexive(first.key);
                lemma_step_keeps(sources, first.key, i, e);
                assert forall|h: int| 0 <= h < i implies !has_key(#[trigger] sources[h], e.key) by {
                    lemma_step_keeps(sources, first.key, h, e);
                    assert(!has_key(after[h], e.key));
                }
                assert(provides(sources, i, e));
            } else {
                assert(all[0] == first);
                assert(provides(sources, w, first));
            }
        }
    }
}

/// Every key that a source holds occurs in the merged stream of
/// ascending sources.
pub proof fn lemma_merged_complete(sources: Seq<Seq<Entry>>, i: int, p: int)
    requires
        sources_ascending(sources),
        0 <= i < sources.len(),
        0 <= p < sources[i].len(),
    ensures
        has_key(merged(sources), sources[i][p].key),
    decreases entries_left(sources),
{
    assert(sources[i].len() > 0);
    lemma_winner_exists(sources);
    lemma_step_takes(sources);
    let w = winner_of(sources);
    let first = sources[w][0];
    let after = advanced(sources, first.key);
    let all = merged(sources);
    let e = sources[i][p];
    if e.key == first.key {
        assert(all[0].key == e.key);
    } else {
        let v = MergeView { sources, current: None, current_source_valid: false };
        assert(sources_ascending(after)) by {
            lemma_step_passes_key(v, w);
        }
        assert(has_entry(sources[i], e));
        lemma_step_keeps(sources, first.key, i, e);
        let q = choose|q: int| 0 <= q < after[i].len() && #[trigger] after[i][q] == e;
        lemma_merged_complete(after, i, q);
        let rest = merged(after);
        let j = choose|j: int| 0 <= j < rest.len() && (#[trigger] rest[j]).key == e.key;
        assert(all[j + 1] == rest[j]);
    }
}

} // verus!
