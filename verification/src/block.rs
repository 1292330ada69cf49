//! A block: the smallest unit of a table that can be read on its own.

pub mod builder;
pub mod iterator;

pub use builder::BlockBuilder;
pub use iterator::BlockIterator;

use crate::wire::{
    be_u16, bytes_contents, bytes_from_vec, lemma_u16_of_be_inverse, put_u16, read_u16, u16_of_be,
};
use bytes::Bytes;
use vstd::prelude::*;

verus! {

/// A run of encoded entries and the position at which each one starts.
pub struct Block {
    pub data: Vec<u8>,
    pub offsets: Vec<u16>,
}

/// What a block holds, as mathematical sequences.
pub struct BlockView {
    pub data: Seq<u8>,
    pub offsets: Seq<u16>,
}

impl View for Block {
    type V = BlockView;

    open spec fn view(&self) -> BlockView {
        BlockView { data: self.data@, offsets: self.offsets@ }
    }
}

/// The offsets written one after another, two bytes each.
pub open spec fn offsets_bytes(offsets: Seq<u16>) -> Seq<u8> {
    Seq::new(
        2 * offsets.len(),
        |i: int| if i % 2 == 0 { (offsets[i / 2] / 256) as u8 } else { (offsets[i / 2] % 256) as u8 },
    )
}

/// The wire form of a block: its data, its offsets, then their count.
pub open spec fn encoded(b: BlockView) -> Seq<u8> {
    b.data + offsets_bytes(b.offsets) + be_u16(b.offsets.len() as u16)
}

/// The count of entries that the last two bytes of `bytes` announce.
pub open spec fn trailing_count(bytes: Seq<u8>) -> nat {
    u16_of_be(bytes[bytes.len() - 2], bytes[bytes.len() - 1]) as nat
}

/// Whether `bytes` is long enough for the offsets that it announces.
pub open spec fn decodable(bytes: Seq<u8>) -> bool {
    bytes.len() >= 2 && bytes.len() >= 2 * trailing_count(bytes) + 2
}

/// Where the offsets begin in a decodable `bytes`.
pub open spec fn offsets_start(bytes: Seq<u8>) -> int {
    bytes.len() - 2 - 2 * trailing_count(bytes)
}

/// The block that a decodable `bytes` stands for.
pub open spec fn decoded(bytes: Seq<u8>) -> BlockView {
    BlockView {
        data: bytes.subrange(0, offsets_start(bytes)),
        offsets: Seq::new(
            trailing_count(bytes),
            |i: int|
                u16_of_be(
                    bytes[offsets_start(bytes) + 2 * i],
                    bytes[offsets_start(bytes) + 2 * i + 1],
                ),
        ),
    }
}

/// Decoding what `encoded` wrote gives the block back, data and offsets
/// alike, whenever the count of offsets fits its two bytes.
pub proof fn lemma_decode_encode(b: BlockView)
    requires
        b.offsets.len() <= u16::MAX,
    ensures
        decodable(encoded(b)),
        decoded(encoded(b)) == b,
{
    let bytes = encoded(b);
    let n = b.offsets.len();
    assert(bytes.len() == b.data.len() + 2 * n + 2);
    assert(bytes[bytes.len() - 2] == be_u16(n as u16)[0]);
    assert(bytes[bytes.len() - 1] == be_u16(n as u16)[1]);
    assert(trailing_count(bytes) == n);
    assert(offsets_start(bytes) == b.data.len());
    assert(decoded(bytes).data =~= b.data);
    assert forall|i: int| 0 <= i < n implies decoded(bytes).offsets[i] == b.offsets[i] by {
        let start = b.data.len() as int;
        assert(bytes[start + 2 * i] == offsets_bytes(b.offsets)[2 * i]);
        assert(bytes[start + 2 * i + 1] == offsets_bytes(b.offsets)[2 * i + 1]);
    }
    assert(decoded(bytes).offsets =~= b.offsets);
}

impl Block {
    /// Serialises the block: the data, each offset as a big-endian `u16`,
    /// then the number of offsets as a big-endian `u16`.
    pub fn encode(&self) -> (buf: Bytes)
        requires
            self.offsets.len() <= u16::MAX,
            self.data.len() + 2 * self.offsets.len() + 2 <= usize::MAX,
        ensures
            bytes_contents(buf) == encoded(self@),
    {
        let mut buf: Vec<u8> = Vec::with_capacity(self.data.len() + self.offsets.len() * 2 + 2);
        buf.extend_from_slice(self.data.as_slice());
        assert(buf@ =~= self.data@);
        let mut i: usize = 0;
        while i < self.offsets.len()
            invariant
                i <= self.offsets.len(),
                buf@ == self.data@ + offsets_bytes(self.offsets@.take(i as int)),
            decreases self.offsets.len() - i,
        {
            let off: u16 = self.offsets[i];
            put_u16(&mut buf, off);
            proof {
                let before = offsets_bytes(self.offsets@.take(i as int));
                let after = offsets_bytes(self.offsets@.take(i + 1));
                assert(after =~= before + be_u16(off));
            }
            i += 1;
        }
        assert(self.offsets@.take(i as int) =~= self.offsets@);
        put_u16(&mut buf, self.offsets.len() as u16);
        bytes_from_vec(buf)
    }

    /// Whether `data` is long enough to be decoded: it ends in a count,
    /// and holds two bytes for each offset that the count announces.
    pub fn is_decodable(data: &[u8]) -> (ok: bool)
        ensures
            ok == decodable(data@),
    {
        let total_len: usize = data.len();
        if total_len < 2 {
            return false;
        }
        let num_offsets: usize = read_u16(data[total_len - 2], data[total_len - 1]) as usize;
        total_len - 2 >= num_offsets * 2
    }

    /// Reads a block back from its wire form. The count at the end says
    /// how many offsets precede it; all before them is the data.
    pub fn decode(data: &[u8]) -> (block: Block)
        requires
            decodable(data@),
        ensures
            block@ == decoded(data@),
    {
        let total_len: usize = data.len();
        let num_offsets: usize = read_u16(data[total_len - 2], data[total_len - 1]) as usize;
        let offsets_len: usize = num_offsets * 2;
        let start: usize = total_len - 2 - offsets_len;

        let mut region: Vec<u8> = Vec::with_capacity(start);
        let mut k: usize = 0;
        while k < start
            invariant
                k <= start <= data@.len(),
                region@ == data@.subrange(0, k as int),
            decreases start - k,
        {
            region.push(data[k]);
            assert(region@ =~= data@.subrange(0, k + 1));
            k += 1;
        }

        let mut offsets: Vec<u16> = Vec::with_capacity(num_offsets);
        let mut i: usize = 0;
        while i < num_offsets
            invariant
                i <= num_offsets,
                num_offsets == trailing_count(data@),
                start == offsets_start(data@),
                start + 2 * num_offsets + 2 == total_len,
                total_len == data@.len(),
                offsets@ == decoded(data@).offsets.take(i as int),
            decreases num_offsets - i,
        {
            let off: u16 = read_u16(data[start + 2 * i], data[start + 2 * i + 1]);
            offsets.push(off);
            assert(offsets@ =~= decoded(data@).offsets.take(i + 1));
            i += 1;
        }
        assert(offsets@ =~= decoded(data@).offsets);
        Block { data: region, offsets }
    }
}

/// One key with its value.
pub struct Entry {
    pub key: Seq<u8>,
    pub value: Seq<u8>,
}

/// The most bytes that the data of one block may hold: every offset
/// into it is a `u16`.
pub const MAX_BLOCK_DATA: usize = 65535;

/// The bytes that one entry takes in a block's data.
pub open spec fn entry_len(e: Entry) -> nat {
    4 + e.key.len() + e.value.len()
}

/// One entry in a block's data: the key's length, the key, the value's
/// length, the value; both lengths as big-endian `u16`.
pub open spec fn entry_bytes(e: Entry) -> Seq<u8> {
    be_u16(e.key.len() as u16) + e.key + be_u16(e.value.len() as u16) + e.value
}

/// The entries of `es` written one after another.
pub open spec fn entries_bytes(es: Seq<Entry>) -> Seq<u8>
    decreases es.len(),
{
    if es.len() == 0 {
        Seq::empty()
    } else {
        entries_bytes(es.drop_last()) + entry_bytes(es.last())
    }
}

/// Where each entry of `es` starts in `entries_bytes(es)`.
pub open spec fn entries_offsets(es: Seq<Entry>) -> Seq<u16> {
    Seq::new(es.len(), |i: int| entries_bytes(es.take(i)).len() as u16)
}

/// The block that holds exactly the entries `es`, in order.
pub open spec fn block_of(es: Seq<Entry>) -> BlockView {
    BlockView { data: entries_bytes(es), offsets: entries_offsets(es) }
}

/// The length of the wire form of the block that holds `es`.
pub open spec fn encoded_len(es: Seq<Entry>) -> nat {
    entries_bytes(es).len() + 2 * es.len() + 2
}

/// The entry that starts at position `at` of `data`.
pub open spec fn entry_at(data: Seq<u8>, at: int) -> Entry {
    let key_len = u16_of_be(data[at], data[at + 1]) as int;
    let value_at = at + 2 + key_len;
    let value_len = u16_of_be(data[value_at], data[value_at + 1]) as int;
    Entry {
        key: data.subrange(at + 2, value_at),
        value: data.subrange(value_at + 2, value_at + 2 + value_len),
    }
}

/// The entries that a block's offsets point at, in the offsets' order.
#[verifier::opaque]
pub open spec fn entries_of(b: BlockView) -> Seq<Entry> {
    Seq::new(b.offsets.len(), |i: int| entry_at(b.data, b.offsets[i] as int))
}

/// What holds of the offsets of every block that was built entry by
/// entry: each points into the data, and each lies past the one before.
pub open spec fn offsets_ordered(b: BlockView) -> bool {
    &&& forall|i: int| 0 <= i < b.offsets.len() ==> (#[trigger] b.offsets[i]) < b.data.len()
    &&& forall|i: int, j: int|
        0 <= i < j < b.offsets.len() ==> (#[trigger] b.offsets[i]) < (#[trigger] b.offsets[j])
}

/// Appending an entry appends its bytes.
pub proof fn lemma_entries_bytes_push(es: Seq<Entry>, e: Entry)
    ensures
        entries_bytes(es.push(e)) == entries_bytes(es) + entry_bytes(e),
        entries_bytes(es.push(e)).len() == entries_bytes(es).len() + entry_len(e),
{
    assert(es.push(e).drop_last() =~= es);
}

/// A longer prefix of the entries takes more bytes than a shorter one.
pub proof fn lemma_prefix_grows(es: Seq<Entry>, i: int, j: int)
    requires
        0 <= i <= j <= es.len(),
    ensures
        entries_bytes(es.take(i)).len() + 4 * (j - i) <= entries_bytes(es.take(j)).len(),
    decreases j - i,
{
    if i < j {
        lemma_prefix_grows(es, i, j - 1);
        assert(es.take(j) =~= es.take(j - 1).push(es[j - 1]));
        lemma_entries_bytes_push(es.take(j - 1), es[j - 1]);
    }
}

/// In a block built from entries whose bytes stay within the limit,
/// there is one offset for each entry, every offset points into the
/// data, and the offsets strictly increase.
pub proof fn lemma_block_of_ordered(es: Seq<Entry>)
    requires
        entries_bytes(es).len() <= MAX_BLOCK_DATA,
    ensures
        block_of(es).offsets.len() == es.len(),
        offsets_ordered(block_of(es)),
{
    let b = block_of(es);
    assert(es.take(es.len() as int) =~= es);
    assert forall|i: int| 0 <= i < b.offsets.len() implies (#[trigger] b.offsets[i])
        < b.data.len() by {
        lemma_prefix_grows(es, i, es.len() as int);
    }
    assert forall|i: int, j: int| 0 <= i < j < b.offsets.len() implies (#[trigger] b.offsets[i])
        < (#[trigger] b.offsets[j]) by {
        lemma_prefix_grows(es, i, j);
        lemma_prefix_grows(es, j, es.len() as int);
    }
}

/// The bytes of a prefix of the entries are a prefix of the bytes of all.
pub proof fn lemma_prefix_bytes(es: Seq<Entry>, j: int)
    requires
        0 <= j <= es.len(),
    ensures
        entries_bytes(es.take(j)).len() <= entries_bytes(es).len(),
        entries_bytes(es).subrange(0, entries_bytes(es.take(j)).len() as int) == entries_bytes(
            es.take(j),
        ),
    decreases es.len() - j,
{
    if j == es.len() {
        assert(es.take(j) =~= es);
        assert(entries_bytes(es).subrange(0, entries_bytes(es).len() as int) =~= entries_bytes(
            es,
        ));
    } else {
        lemma_prefix_bytes(es, j + 1);
        assert(es.take(j + 1) =~= es.take(j).push(es[j]));
        lemma_entries_bytes_push(es.take(j), es[j]);
        let short = entries_bytes(es.take(j));
        let long = entries_bytes(es.take(j + 1));
        assert(entries_bytes(es).subrange(0, short.len() as int) =~= long.subrange(
            0,
            short.len() as int,
        ));
        assert(long.subrange(0, short.len() as int) =~= short);
    }
}

/// The parts of one entry's bytes: the key's length, the key, the
/// value's length, the value.
pub proof fn lemma_entry_bytes_parts(e: Entry)
    requires
        e.key.len() <= u16::MAX,
        e.value.len() <= u16::MAX,
    ensures
        ({
            let eb = entry_bytes(e);
            let kl = e.key.len() as int;
            let vl = e.value.len() as int;
            &&& eb.len() == 4 + kl + vl
            &&& u16_of_be(eb[0], eb[1]) == kl
            &&& u16_of_be(eb[2 + kl], eb[3 + kl]) == vl
            &&& eb.subrange(2, 2 + kl) == e.key
            &&& eb.subrange(4 + kl, 4 + kl + vl) == e.value
        }),
{
    let eb = entry_bytes(e);
    let kl = e.key.len() as int;
    let vl = e.value.len() as int;
    let head = be_u16(e.key.len() as u16);
    let mid = be_u16(e.value.len() as u16);
    assert(eb[0] == head[0] && eb[1] == head[1]);
    assert(eb[2 + kl] == mid[0] && eb[3 + kl] == mid[1]);
    assert(eb.subrange(2, 2 + kl) =~= e.key);
    assert(eb.subrange(4 + kl, 4 + kl + vl) =~= e.value);
}

/// The `i`-th entry's bytes stand in the data of the block that holds
/// `es`, from the entry's offset on.
pub proof fn lemma_entry_in_data(es: Seq<Entry>, i: int)
    requires
        entries_bytes(es).len() <= MAX_BLOCK_DATA,
        0 <= i < es.len(),
    ensures
        block_of(es).offsets[i] == entries_bytes(es.take(i)).len(),
        block_of(es).offsets[i] + entry_len(es[i]) <= block_of(es).data.len(),
        block_of(es).data.subrange(
            block_of(es).offsets[i] as int,
            block_of(es).offsets[i] + entry_len(es[i]),
        ) == entry_bytes(es[i]),
{
    let data = entries_bytes(es);
    let e = es[i];
    let front = entries_bytes(es.take(i));
    let upto = entries_bytes(es.take(i + 1));
    let at = front.len() as int;
    lemma_prefix_grows(es, i, es.len() as int);
    lemma_prefix_bytes(es, i + 1);
    assert(es.take(es.len() as int) =~= es);
    assert(es.take(i + 1) =~= es.take(i).push(e));
    lemma_entries_bytes_push(es.take(i), e);
    assert(upto == front + entry_bytes(e));
    assert(data.subrange(0, upto.len() as int) == upto);
    assert(data.subrange(at, at + entry_len(e)) =~= data.subrange(0, upto.len() as int).subrange(
        at,
        at + entry_len(e),
    ));
    assert(upto.subrange(at, at + entry_len(e)) =~= entry_bytes(e));
}

/// How the `i`-th entry lies in the block that holds `es`: at its offset
/// stand the key's length, the key, the value's length and the value,
/// all within the data.
pub proof fn lemma_entry_layout(es: Seq<Entry>, i: int)
    requires
        entries_bytes(es).len() <= MAX_BLOCK_DATA,
        0 <= i < es.len(),
    ensures
        ({
            let b = block_of(es);
            let at = b.offsets[i] as int;
            let kl = es[i].key.len() as int;
            let vl = es[i].value.len() as int;
            &&& at == entries_bytes(es.take(i)).len()
            &&& at + 4 + kl + vl <= b.data.len()
            &&& u16_of_be(b.data[at], b.data[at + 1]) == kl
            &&& u16_of_be(b.data[at + 2 + kl], b.data[at + 3 + kl]) == vl
            &&& b.data.subrange(at + 2, at + 2 + kl) == es[i].key
            &&& b.data.subrange(at + 4 + kl, at + 4 + kl + vl) == es[i].value
        }),
{
    let data = block_of(es).data;
    let e = es[i];
    let at = block_of(es).offsets[i] as int;
    let kl = e.key.len() as int;
    let vl = e.value.len() as int;
    let eb = entry_bytes(e);
    lemma_entry_in_data(es, i);
    lemma_entry_within(es, i);
    lemma_entry_bytes_parts(e);
    let part = data.subrange(at, at + 4 + kl + vl);
    assert(part == eb);
    assert(part[0] == data[at] && part[1] == data[at + 1]);
    assert(part[2 + kl] == data[at + 2 + kl] && part[3 + kl] == data[at + 3 + kl]);
    assert(data.subrange(at + 2, at + 2 + kl) =~= part.subrange(2, 2 + kl));
    assert(data.subrange(at + 4 + kl, at + 4 + kl + vl) =~= part.subrange(4 + kl, 4 + kl + vl));
}

/// Reading the entries that the offsets of `block_of(es)` point at gives
/// `es` back.
pub proof fn lemma_entries_of_block(es: Seq<Entry>)
    requires
        entries_bytes(es).len() <= MAX_BLOCK_DATA,
    ensures
        entries_of(block_of(es)) == es,
{
    reveal(entries_of);
    let b = block_of(es);
    assert forall|i: int| 0 <= i < es.len() implies entries_of(b)[i] == es[i] by {
        lemma_entry_layout(es, i);
    }
    assert(entries_of(b) =~= es);
}

/// A block has one entry for each offset, which starts where the offset
/// points.
pub proof fn lemma_entries_of_index(b: BlockView)
    ensures
        entries_of(b).len() == b.offsets.len(),
        forall|i: int|
            0 <= i < b.offsets.len() ==> #[trigger] entries_of(b)[i] == entry_at(
                b.data,
                b.offsets[i] as int,
            ),
{
    reveal(entries_of);
}

/// Whether a block is as a builder leaves it: its data and offsets are
/// those of the block that holds the entries its offsets point at, and
/// its data is within the limit.
pub closed spec fn built(b: BlockView) -> bool {
    &&& b == block_of(entries_of(b))
    &&& b.data.len() <= MAX_BLOCK_DATA
}

/// The block that holds `es` is as a builder leaves it.
pub proof fn lemma_block_of_built(es: Seq<Entry>)
    requires
        entries_bytes(es).len() <= MAX_BLOCK_DATA,
    ensures
        built(block_of(es)),
        entries_of(block_of(es)) == es,
{
    lemma_entries_of_block(es);
}

/// A block that is as a builder left it is the block that holds the
/// entries its offsets point at.
pub proof fn lemma_built_holds(b: BlockView)
    requires
        built(b),
    ensures
        b == block_of(entries_of(b)),
        entries_bytes(entries_of(b)).len() <= MAX_BLOCK_DATA,
{
}

/// How the `i`-th entry lies in a block that is as a builder left it.
pub proof fn lemma_built_layout(b: BlockView, i: int)
    requires
        built(b),
        0 <= i < b.offsets.len(),
    ensures
        ({
            let e = entries_of(b)[i];
            let at = b.offsets[i] as int;
            let kl = e.key.len() as int;
            let vl = e.value.len() as int;
            &&& entries_of(b).len() == b.offsets.len()
            &&& at == entries_bytes(entries_of(b).take(i)).len()
            &&& at + 4 + kl + vl <= b.data.len()
            &&& b.data.len() <= MAX_BLOCK_DATA
            &&& u16_of_be(b.data[at], b.data[at + 1]) == kl
            &&& u16_of_be(b.data[at + 2 + kl], b.data[at + 3 + kl]) == vl
            &&& b.data.subrange(at + 2, at + 2 + kl) == e.key
            &&& b.data.subrange(at + 4 + kl, at + 4 + kl + vl) == e.value
        }),
{
    lemma_entries_of_index(b);
    lemma_entry_layout(entries_of(b), i);
}

/// No entry takes more bytes than all entries together.
pub proof fn lemma_entry_within(es: Seq<Entry>, k: int)
    requires
        0 <= k < es.len(),
    ensures
        entry_len(es[k]) <= entries_bytes(es).len(),
{
    lemma_prefix_bytes(es, k + 1);
    assert(es.take(k + 1) =~= es.take(k).push(es[k]));
    lemma_entries_bytes_push(es.take(k), es[k]);
}

/// The length of the key that stands at `at` in `data`.
pub open spec fn key_len_at(data: Seq<u8>, at: int) -> int {
    u16_of_be(data[at], data[at + 1]) as int
}

/// The length of the value of the entry that stands at `at` in `data`.
pub open spec fn value_len_at(data: Seq<u8>, at: int) -> int {
    let value_at = at + 2 + key_len_at(data, at);
    u16_of_be(data[value_at], data[value_at + 1]) as int
}

/// Whether an entry stands at `at` wholly within `data`.
pub open spec fn entry_within(data: Seq<u8>, at: int) -> bool {
    &&& 0 <= at
    &&& at + 4 <= data.len()
    &&& at + 4 + key_len_at(data, at) <= data.len()
    &&& at + 4 + key_len_at(data, at) + value_len_at(data, at) <= data.len()
}

/// An entry that lies within `data` at `at` is written as the bytes it
/// was read from.
pub proof fn lemma_entry_at_bytes(data: Seq<u8>, at: int)
    requires
        entry_within(data, at),
    ensures
        entry_len(entry_at(data, at)) == 4 + key_len_at(data, at) + value_len_at(data, at),
        entry_bytes(entry_at(data, at)) == data.subrange(
            at,
            at + 4 + key_len_at(data, at) + value_len_at(data, at),
        ),
{
    let e = entry_at(data, at);
    let kl = key_len_at(data, at);
    let vl = value_len_at(data, at);
    assert(e.key.len() == kl);
    assert(e.value.len() == vl);
    lemma_u16_of_be_inverse(data[at], data[at + 1]);
    lemma_u16_of_be_inverse(data[at + 2 + kl], data[at + 3 + kl]);
    let head = be_u16(kl as u16);
    let mid = be_u16(vl as u16);
    assert(head[0] == data[at] && head[1] == data[at + 1]);
    assert(mid[0] == data[at + 2 + kl] && mid[1] == data[at + 3 + kl]);
    assert(entry_bytes(e) =~= data.subrange(at, at + 4 + kl + vl));
}

/// In a block that is as a builder left it, the `i`-th offset points
/// behind the bytes of the entries before, and an entry stands there.
proof fn lemma_built_passes(b: BlockView, i: int)
    requires
        built(b),
        0 <= i < b.offsets.len(),
    ensures
        b.offsets[i] == entries_bytes(entries_of(b).take(i)).len(),
        entry_within(b.data, b.offsets[i] as int),
{
    lemma_built_layout(b, i);
}

/// One entry more: if the first `i` entries fill the data up to `pos`
/// and an entry stands there, the first `i + 1` fill it up to that
/// entry's end.
proof fn lemma_entries_fill(b: BlockView, i: int, pos: int)
    requires
        0 <= i < b.offsets.len(),
        b.offsets[i] == pos,
        entry_within(b.data, pos),
        entries_bytes(entries_of(b).take(i)) == b.data.subrange(0, pos),
    ensures
        entries_bytes(entries_of(b).take(i + 1)) == b.data.subrange(
            0,
            pos + 4 + key_len_at(b.data, pos) + value_len_at(b.data, pos),
        ),
{
    let es = entries_of(b);
    let e = es[i];
    lemma_entries_of_index(b);
    lemma_entry_at_bytes(b.data, pos);
    assert(es.take(i + 1) =~= es.take(i).push(e));
    lemma_entries_bytes_push(es.take(i), e);
    let next = pos + 4 + key_len_at(b.data, pos) + value_len_at(b.data, pos);
    assert(b.data.subrange(0, next) =~= b.data.subrange(0, pos) + b.data.subrange(pos, next));
}

/// A block whose entries fill its data, each at its offset, is as a
/// builder leaves it; with data left over, or too much of it, it is not.
proof fn lemma_filled_is_built(b: BlockView, pos: int)
    requires
        0 <= pos <= b.data.len(),
        b.data.len() <= MAX_BLOCK_DATA,
        entries_bytes(entries_of(b)) == b.data.subrange(0, pos),
        forall|j: int|
            0 <= j < b.offsets.len() ==> (#[trigger] b.offsets[j]) == entries_bytes(
                entries_of(b).take(j),
            ).len(),
    ensures
        built(b) == (pos == b.data.len()),
{
    let es = entries_of(b);
    lemma_entries_of_index(b);
    if pos == b.data.len() {
        assert(b.data.subrange(0, pos) =~= b.data);
        assert(b.offsets =~= entries_offsets(es));
    }
}

impl Block {
    /// Whether the block is as a builder leaves it: the offsets point at
    /// entries that lie one behind the other and fill the data, which is
    /// within the limit of a block.
    pub fn is_built(&self) -> (ok: bool)
        ensures
            ok == built(self@),
    {
        let ghost b = self@;
        let ghost es = entries_of(b);
        let n: usize = self.offsets.len();
        let total: usize = self.data.len();
        if total > MAX_BLOCK_DATA {
            return false;
        }
        proof {
            lemma_entries_of_index(b);
            assert(entries_bytes(es.take(0)) =~= b.data.subrange(0, 0));
        }
        let mut pos: usize = 0;
        let mut i: usize = 0;
        while i < n
            invariant
                b == self@,
                es == entries_of(b),
                n == b.offsets.len(),
                total == b.data.len(),
                total <= MAX_BLOCK_DATA,
                i <= n,
                pos <= total,
                entries_bytes(es.take(i as int)) == b.data.subrange(0, pos as int),
                forall|j: int|
                    0 <= j < i ==> (#[trigger] b.offsets[j]) == entries_bytes(es.take(j)).len(),
            decreases n - i,
        {
            proof {
                if built(b) {
                    lemma_built_passes(b, i as int);
                }
            }
            if self.offsets[i] as usize != pos {
                return false;
            }
            if total - pos < 4 {
                return false;
            }
            let key_len: usize = read_u16(self.data[pos], self.data[pos + 1]) as usize;
            if total - pos - 4 < key_len {
                return false;
            }
            let value_len: usize = read_u16(
                self.data[pos + 2 + key_len],
                self.data[pos + 3 + key_len],
            ) as usize;
            if total - pos - 4 - key_len < value_len {
                return false;
            }
            proof {
                lemma_entries_fill(b, i as int, pos as int);
            }
            pos = pos + 4 + key_len + value_len;
            i += 1;
        }
        proof {
            lemma_entries_of_index(b);
            assert(es.take(n as int) =~= es);
            lemma_filled_is_built(b, pos as int);
        }
        pos == total
    }
}

} // verus!
