use vstd::prelude::*;
use crate::codec::{
    get_u16_le, lemma_u16_le, lemma_u64_le, put_u16_le, u16_at, u16_le,
    u64_at, u64_le,
};
use crate::key::copy_bytes;

verus! {

/// Overlap with the block's first key, read from an entry's own bytes `w`.
pub open spec fn w_overlap(w: Seq<u8>) -> int {
    u16_at(w, 0) as int
}

pub open spec fn w_rest_len(w: Seq<u8>) -> int {
    u16_at(w, 2) as int
}

/// The key bytes that the entry stores after the shared prefix.
pub open spec fn w_rest(w: Seq<u8>) -> Seq<u8> {
    w.subrange(4, 4 + w_rest_len(w))
}

pub open spec fn w_ts(w: Seq<u8>) -> u64 {
    u64_at(w, 4 + w_rest_len(w))
}

pub open spec fn w_value_len(w: Seq<u8>) -> int {
    u16_at(w, 12 + w_rest_len(w)) as int
}

pub open spec fn w_value(w: Seq<u8>) -> Seq<u8> {
    w.subrange(14 + w_rest_len(w), w.len() as int)
}

/// `w` is exactly one encoded entry: its lengths account for every byte.
pub open spec fn entry_wf(w: Seq<u8>) -> bool {
    w.len() >= 4 && 14 + w_rest_len(w) <= w.len() && 14 + w_rest_len(w) + w_value_len(w) == w.len()
}

/// The encoding of one entry.
pub open spec fn entry_bytes(overlap: u16, rest: Seq<u8>, ts: u64, value: Seq<u8>) -> Seq<u8> {
    u16_le(overlap) + u16_le(rest.len() as u16) + rest + u64_le(ts) + u16_le(value.len() as u16)
        + value
}

/// Where entry `i` ends: at the next offset, or at the end of the entries region.
pub open spec fn entry_end(d: Seq<u8>, o: Seq<u16>, i: int) -> int {
    if i + 1 < o.len() {
        o[i + 1] as int
    } else {
        d.len() as int
    }
}

/// The bytes of entry `i`.
pub open spec fn window(d: Seq<u8>, o: Seq<u16>, i: int) -> Seq<u8> {
    d.subrange(o[i] as int, entry_end(d, o, i))
}

/// The entries region `d` with offsets `o` holds a non-empty run of entries
/// that tile it; entry 0 stores its whole key and later entries share at most
/// that much of it.
pub open spec fn block_wf(d: Seq<u8>, o: Seq<u16>) -> bool {
    &&& o.len() >= 1
    &&& o[0] == 0
    &&& forall|i: int| 0 <= i < o.len() ==> o[i] <= #[trigger] entry_end(d, o, i) <= d.len()
    &&& forall|i: int| 0 <= i < o.len() ==> entry_wf(#[trigger] window(d, o, i))
    &&& forall|i: int|
        0 <= i < o.len() ==> w_overlap(#[trigger] window(d, o, i)) <= w_rest_len(window(d, o, 0))
    &&& w_overlap(window(d, o, 0)) == 0
}

/// The full key of entry `i`: a prefix of the first key, then the stored rest.
pub open spec fn entry_key(d: Seq<u8>, o: Seq<u16>, i: int) -> Seq<u8> {
    w_rest(window(d, o, 0)).take(w_overlap(window(d, o, i))) + w_rest(window(d, o, i))
}

/// The entries of a block, in order: ((key, timestamp), value).
pub open spec fn block_entries(d: Seq<u8>, o: Seq<u16>) -> Seq<((Seq<u8>, u64), Seq<u8>)> {
    Seq::new(
        o.len(),
        |i: int| ((entry_key(d, o, i), w_ts(window(d, o, i))), w_value(window(d, o, i))),
    )
}

/// The offsets as consecutive little-endian `u16`s.
pub open spec fn u16s_le(o: Seq<u16>) -> Seq<u8>
    decreases o.len(),
{
    if o.len() == 0 {
        Seq::empty()
    } else {
        u16s_le(o.drop_last()) + u16_le(o.last())
    }
}

/// The encoded form of a block: entries, offsets, then the entry count.
pub open spec fn encoded_block(d: Seq<u8>, o: Seq<u16>) -> Seq<u8> {
    d + u16s_le(o) + u16_le(o.len() as u16)
}

/// The `n` little-endian offsets stored from `start`.
pub open spec fn offsets_in(b: Seq<u8>, start: int, n: int) -> Seq<u16> {
    Seq::new(n as nat, |i: int| u16_at(b, start + 2 * i))
}

pub open spec fn stored_count(b: Seq<u8>) -> int {
    u16_at(b, b.len() - 2) as int
}

pub open spec fn entries_region_len(b: Seq<u8>) -> int {
    b.len() - 2 - 2 * stored_count(b)
}

/// The bytes hold a well-formed encoded block.
pub open spec fn decodable(b: Seq<u8>) -> bool {
    &&& b.len() >= 2
    &&& entries_region_len(b) >= 0
    &&& block_wf(
        b.take(entries_region_len(b)),
        offsets_in(b, entries_region_len(b), stored_count(b)),
    )
}

pub proof fn lemma_entry_bytes(overlap: u16, rest: Seq<u8>, ts: u64, value: Seq<u8>)
    requires
        rest.len() <= 0xFFFF,
        value.len() <= 0xFFFF,
    ensures
        entry_wf(entry_bytes(overlap, rest, ts, value)),
        w_overlap(entry_bytes(overlap, rest, ts, value)) == overlap,
        w_rest_len(entry_bytes(overlap, rest, ts, value)) == rest.len(),
        w_rest(entry_bytes(overlap, rest, ts, value)) == rest,
        w_ts(entry_bytes(overlap, rest, ts, value)) == ts,
        w_value(entry_bytes(overlap, rest, ts, value)) == value,
        entry_bytes(overlap, rest, ts, value).len() == 14 + rest.len() + value.len(),
{
    let w = entry_bytes(overlap, rest, ts, value);
    let rl = rest.len() as int;
    let a = u16_le(overlap);
    let b = u16_le(rest.len() as u16);
    let c = u64_le(ts);
    let e = u16_le(value.len() as u16);
    assert(w.len() == 14 + rl + value.len());
    assert(w[0] == a[0] && w[1] == a[1]);
    assert(w[2] == b[0] && w[3] == b[1]);
    lemma_u16_le(overlap);
    lemma_u16_le(rest.len() as u16);
    lemma_u16_le(value.len() as u16);
    lemma_u64_le(ts);
    assert(w_rest_len(w) == rl);
    assert(w.subrange(4, 4 + rl) =~= rest);
    assert forall|k: int| 0 <= k < 8 implies w[4 + rl + k] == c[k] by {}
    assert(w_ts(w) == ts);
    assert(w[12 + rl] == e[0] && w[13 + rl] == e[1]);
    assert(w_value_len(w) == value.len());
    assert(w.subrange(14 + rl, w.len() as int) =~= value);
}

proof fn lemma_u16s_le(o: Seq<u16>, i: int)
    requires
        0 <= i < o.len(),
    ensures
        u16s_le(o).len() == 2 * o.len(),
        u16_at(u16s_le(o), 2 * i) == o[i],
    decreases o.len(),
{
    let p = o.drop_last();
    if i + 1 < o.len() {
        lemma_u16s_le(p, i);
        assert(u16s_le(o)[2 * i] == u16s_le(p)[2 * i]);
        assert(u16s_le(o)[2 * i + 1] == u16s_le(p)[2 * i + 1]);
    } else {
        lemma_u16s_len(p);
        lemma_u16_le(o.last());
    }
}

pub proof fn lemma_u16s_len(o: Seq<u16>)
    ensures
        u16s_le(o).len() == 2 * o.len(),
    decreases o.len(),
{
    if o.len() > 0 {
        lemma_u16s_len(o.drop_last());
    }
}

/// Decoding an encoded well-formed block gives back its entries region and
/// its offsets.
pub proof fn lemma_block_round_trip(d: Seq<u8>, o: Seq<u16>)
    requires
        block_wf(d, o),
        o.len() <= 0xFFFF,
    ensures
        decodable(encoded_block(d, o)),
        encoded_block(d, o).take(entries_region_len(encoded_block(d, o))) == d,
        offsets_in(
            encoded_block(d, o),
            entries_region_len(encoded_block(d, o)),
            stored_count(encoded_block(d, o)),
        ) == o,
{
    let b = encoded_block(d, o);
    lemma_u16s_len(o);
    let n = o.len() as u16;
    lemma_u16_le(n);
    assert(b[b.len() - 2] == u16_le(n)[0]);
    assert(b[b.len() - 1] == u16_le(n)[1]);
    assert(stored_count(b) == o.len());
    assert(entries_region_len(b) == d.len());
    assert(b.take(d.len() as int) =~= d);
    let offs = offsets_in(b, d.len() as int, o.len() as int);
    assert forall|i: int| 0 <= i < o.len() implies offs[i] == o[i] by {
        lemma_u16s_le(o, i);
        assert(b[d.len() + 2 * i] == u16s_le(o)[2 * i]);
        assert(b[d.len() + 2 * i + 1] == u16s_le(o)[2 * i + 1]);
    }
    assert(offs =~= o);
}

/// Appending one well-formed entry to a block (or to nothing) keeps the
/// block well-formed, leaves the earlier entries' bytes alone, and makes the
/// new entry the last one.
pub proof fn lemma_append_entry(d: Seq<u8>, o: Seq<u16>, e: Seq<u8>)
    requires
        (o.len() == 0 && d.len() == 0) || block_wf(d, o),
        d.len() <= 0xFFFF,
        entry_wf(e),
        o.len() == 0 ==> w_overlap(e) == 0,
        o.len() > 0 ==> w_overlap(e) <= w_rest_len(window(d, o, 0)),
    ensures
        block_wf(d + e, o.push(d.len() as u16)),
        forall|i: int|
            0 <= i < o.len() ==> #[trigger] window(d + e, o.push(d.len() as u16), i) == window(
                d,
                o,
                i,
            ),
        window(d + e, o.push(d.len() as u16), o.len() as int) == e,
{
    let d2 = d + e;
    let o2 = o.push(d.len() as u16);
    let n = o.len() as int;
    assert forall|i: int| 0 <= i < n implies #[trigger] window(d2, o2, i) == window(d, o, i) by {
        assert(entry_end(d2, o2, i) == entry_end(d, o, i));
        assert(o2[i] == o[i]);
        assert(window(d2, o2, i) =~= window(d, o, i));
    }
    assert(window(d2, o2, n) =~= e);
    assert forall|i: int| 0 <= i < o2.len() implies o2[i] <= #[trigger] entry_end(d2, o2, i)
        <= d2.len() by {
        if i < n {
            assert(o2[i] == o[i]);
            assert(o[i] <= entry_end(d, o, i) <= d.len());
        }
    }
    assert forall|i: int| 0 <= i < o2.len() implies entry_wf(#[trigger] window(d2, o2, i)) by {
        if i < n {
            assert(window(d2, o2, i) == window(d, o, i));
        }
    }
    if n > 0 {
        assert(window(d2, o2, 0) == window(d, o, 0));
    }
    assert forall|i: int| 0 <= i < o2.len() implies w_overlap(#[trigger] window(d2, o2, i))
        <= w_rest_len(window(d2, o2, 0)) by {
        if i < n {
            assert(window(d2, o2, i) == window(d, o, i));
        }
    }
}

/// A block holds fewer entries than its count field can name.
pub proof fn lemma_entries_len(b: Block)
    requires
        b.wf(),
    ensures
        b.entries().len() <= 0xFFFF,
{
}

/// Checks that `d` with offsets `o` is a well-formed entries region.
pub fn check_block(d: &[u8], o: &[u16]) -> (r: bool)
    ensures
        r == block_wf(d@, o@),
{
    let n = o.len();
    if n == 0 || o[0] != 0 {
        return false;
    }
    let mut first_rest: usize = 0;
    let mut i: usize = 0;
    while i < n
        invariant
            n == o@.len(),
            n >= 1,
            o@[0] == 0,
            i <= n,
            forall|j: int| 0 <= j < i ==> o@[j] <= #[trigger] entry_end(d@, o@, j) <= d@.len(),
            forall|j: int| 0 <= j < i ==> entry_wf(#[trigger] window(d@, o@, j)),
            i > 0 ==> first_rest == w_rest_len(window(d@, o@, 0)),
            i > 0 ==> w_overlap(window(d@, o@, 0)) == 0,
            forall|j: int|
                0 <= j < i ==> w_overlap(#[trigger] window(d@, o@, j)) <= w_rest_len(
                    window(d@, o@, 0),
                ),
        decreases n - i,
    {
        let start = o[i] as usize;
        let end = if i + 1 < n {
            o[i + 1] as usize
        } else {
            d.len()
        };
        assert(end == entry_end(d@, o@, i as int));
        if end > d.len() || start > end || end - start < 4 {
            assert(!block_wf(d@, o@)) by {
                if block_wf(d@, o@) {
                    assert(o@[i as int] <= entry_end(d@, o@, i as int) <= d@.len());
                    assert(entry_wf(window(d@, o@, i as int)));
                }
            }
            return false;
        }
        let ghost w = window(d@, o@, i as int);
        let overlap = get_u16_le(d, start);
        let rest_len = get_u16_le(d, start + 2) as usize;
        assert(overlap == u16_at(w, 0) && rest_len == w_rest_len(w)) by {
            assert(w[0] == d@[start as int] && w[1] == d@[start + 1]);
            assert(w[2] == d@[start + 2] && w[3] == d@[start + 3]);
        }
        if end - start < 14 + rest_len {
            assert(!block_wf(d@, o@)) by {
                if block_wf(d@, o@) {
                    assert(entry_wf(window(d@, o@, i as int)));
                }
            }
            return false;
        }
        let value_len = get_u16_le(d, start + 12 + rest_len) as usize;
        assert(value_len == w_value_len(w)) by {
            assert(w[12 + rest_len] == d@[start + 12 + rest_len]);
            assert(w[13 + rest_len] == d@[start + 13 + rest_len]);
        }
        if end - start != 14 + rest_len + value_len {
            assert(!block_wf(d@, o@)) by {
                if block_wf(d@, o@) {
                    assert(entry_wf(window(d@, o@, i as int)));
                }
            }
            return false;
        }
        if i == 0 {
            if overlap != 0 {
                return false;
            }
            first_rest = rest_len;
        }
        if overlap as usize > first_rest {
            assert(!block_wf(d@, o@)) by {
                if block_wf(d@, o@) {
                    assert(w_overlap(window(d@, o@, i as int)) <= w_rest_len(window(d@, o@, 0)));
                }
            }
            return false;
        }
        i = i + 1;
    }
    true
}

/// The smallest unit of reading and caching: a sorted run of entries.
pub struct Block {
    pub data: Vec<u8>,
    pub offsets: Vec<u16>,
}

/// Why a byte string could not be read back as a block.
#[derive(Debug, Clone, Copy, PartialEq, Eq)]
pub enum BlockError {
    CorruptBlock,
}

impl Block {
    /// A block that cursors can walk: well-formed, with a count that fits its field.
    pub open spec fn wf(&self) -> bool {
        block_wf(self.data@, self.offsets@) && self.offsets@.len() <= 0xFFFF
    }

    pub open spec fn entries(&self) -> Seq<((Seq<u8>, u64), Seq<u8>)> {
        block_entries(self.data@, self.offsets@)
    }

    /// Entries, then offsets, then the count, little-endian.
    pub fn encode(&self) -> (r: Vec<u8>)
        requires
            self.offsets@.len() <= 0xFFFF,
        ensures
            r@ == encoded_block(self.data@, self.offsets@),
    {
        let mut buf = copy_bytes(self.data.as_slice());
        let mut i: usize = 0;
        while i < self.offsets.len()
            invariant
                i <= self.offsets@.len(),
                buf@ == self.data@ + u16s_le(self.offsets@.take(i as int)),
            decreases self.offsets@.len() - i,
        {
            put_u16_le(&mut buf, self.offsets[i]);
            assert(self.offsets@.take(i + 1).drop_last() == self.offsets@.take(i as int));
            i = i + 1;
        }
        assert(self.offsets@.take(self.offsets@.len() as int) == self.offsets@);
        put_u16_le(&mut buf, self.offsets.len() as u16);
        buf
    }

    /// Reads a block back from its encoded form.
    pub fn decode(data: &[u8]) -> (r: Result<Block, BlockError>)
        ensures
            r is Ok <==> decodable(data@),
            r matches Ok(b) ==> b.wf() && b.data@ == data@.take(entries_region_len(data@))
                && b.offsets@ == offsets_in(data@, entries_region_len(data@), stored_count(data@)),
    {
        let len = data.len();
        if len < 2 {
            return Err(BlockError::CorruptBlock);
        }
        let n = get_u16_le(data, len - 2) as usize;
        if len - 2 < 2 * n {
            return Err(BlockError::CorruptBlock);
        }
        let data_end = len - 2 - 2 * n;
        let ghost offs = offsets_in(data@, data_end as int, n as int);
        let mut offsets: Vec<u16> = Vec::new();
        let mut i: usize = 0;
        while i < n
            invariant
                data_end + 2 * n + 2 == len == data@.len(),
                i <= n,
                offs == offsets_in(data@, data_end as int, n as int),
                offsets@ == offs.take(i as int),
            decreases n - i,
        {
            let x = get_u16_le(data, data_end + 2 * i);
            assert(x == offs[i as int]);
            offsets.push(x);
            assert(offsets@ =~= offs.take(i + 1));
            i = i + 1;
        }
        assert(offsets@ =~= offs);
        let mut entries: Vec<u8> = Vec::new();
        crate::key::extend_from_range(&mut entries, data, 0, data_end);
        assert(entries@ =~= data@.take(data_end as int));
        if check_block(entries.as_slice(), offsets.as_slice()) {
            Ok(Block { data: entries, offsets })
        } else {
            Err(BlockError::CorruptBlock)
        }
    }
}

} // verus!
