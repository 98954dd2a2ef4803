use vstd::prelude::*;
use vstd::slice::slice_subrange;
use std::sync::Arc;
use crate::block::{entry_end, w_overlap, w_rest, w_rest_len, w_ts, w_value, window, Block};
use crate::codec::{get_u16_le, get_u64_le};
use crate::key::{extend_from_range, key_lt, KeyVec};

verus! {

/// Reads entry `i` of a well-formed block: its key, and where its value lies.
fn decode_entry(block: &Block, i: usize, first: &[u8]) -> (r: (KeyVec, usize, usize))
    requires
        block.wf(),
        i < block.offsets@.len(),
        i == 0 || first@ == w_rest(window(block.data@, block.offsets@, 0)),
    ensures
        r.0@ == block.entries()[i as int].0,
        r.1 <= r.2 <= block.data@.len(),
        block.data@.subrange(r.1 as int, r.2 as int) == block.entries()[i as int].1,
{
    let ghost d = block.data@;
    let ghost o = block.offsets@;
    let ghost w = window(d, o, i as int);
    let n = block.offsets.len();
    let data = block.data.as_slice();
    let start = block.offsets[i] as usize;
    let end = if i + 1 < n {
        block.offsets[i + 1] as usize
    } else {
        block.data.len()
    };
    assert(end == entry_end(d, o, i as int));
    assert(o[i as int] <= entry_end(d, o, i as int) <= d.len());
    assert(crate::block::entry_wf(w));
    let overlap = get_u16_le(data, start) as usize;
    let rest_len = get_u16_le(data, start + 2) as usize;
    assert(overlap == w_overlap(w) && rest_len == w_rest_len(w)) by {
        assert(w[0] == d[start as int] && w[1] == d[start + 1]);
        assert(w[2] == d[start + 2] && w[3] == d[start + 3]);
    }
    let ts = get_u64_le(data, start + 4 + rest_len);
    assert(ts == w_ts(w)) by {
        assert forall|k: int| 0 <= k < 8 implies #[trigger] w[4 + rest_len + k] == d[start + 4
            + rest_len + k] by {}
    }
    let mut key: Vec<u8> = Vec::new();
    if i > 0 {
        assert(overlap <= w_rest_len(window(d, o, 0)));
        assert(first@.len() == w_rest_len(window(d, o, 0)));
        extend_from_range(&mut key, first, 0, overlap);
    }
    extend_from_range(&mut key, data, start + 4, start + 4 + rest_len);
    proof {
        assert(d.subrange(start + 4, start + 4 + rest_len) =~= w_rest(w));
        if i == 0 {
            assert(w_overlap(window(d, o, 0)) == 0);
            assert(key@ =~= w_rest(window(d, o, 0)).take(0) + w_rest(w));
        } else {
            assert(first@.subrange(0, overlap as int) == w_rest(window(d, o, 0)).take(overlap as int));
        }
        assert(d.subrange(start + 14 + rest_len, end as int) =~= w_value(w));
    }
    (KeyVec::from_vec_with_ts(key, ts), start + 14 + rest_len, end)
}

/// A cursor over the entries of a shared block.
pub struct BlockIterator {
    block: Arc<Block>,
    key: KeyVec,
    value_range: (usize, usize),
    idx: usize,
    first_key: KeyVec,
}

impl BlockIterator {
    pub closed spec fn block(&self) -> Block {
        *self.block
    }

    /// Position of the cursor among the block's entries.
    pub closed spec fn index(&self) -> int {
        self.idx as int
    }

    pub closed spec fn current_key(&self) -> (Seq<u8>, u64) {
        self.key@
    }

    pub closed spec fn wf(&self) -> bool {
        let b = *self.block;
        let n = b.offsets@.len();
        &&& b.wf()
        &&& self.idx < n ==> {
            &&& self.key@ == b.entries()[self.idx as int].0
            &&& self.value_range.0 <= self.value_range.1 <= b.data@.len()
            &&& b.data@.subrange(self.value_range.0 as int, self.value_range.1 as int)
                == b.entries()[self.idx as int].1
            &&& self.first_key.key@ == w_rest(window(b.data@, b.offsets@, 0))
        }
        &&& self.idx >= n ==> self.key@.0.len() == 0
    }

    pub open spec fn entries(&self) -> Seq<((Seq<u8>, u64), Seq<u8>)> {
        self.block().entries()
    }

    /// Over entries with non-empty keys, the cursor is valid exactly while it
    /// stands on an entry; with `seek_to_first` (index 0), `next` (index + 1)
    /// and `key` / `value` (the entry at the index), a walk to exhaustion
    /// yields the block's entries in order.
    pub proof fn lemma_valid_iff_on_entry(&self)
        requires
            self.wf(),
            forall|i: int| 0 <= i < self.entries().len() ==> (#[trigger] self.entries()[i]).0.0.len() > 0,
        ensures
            self.valid() <==> 0 <= self.index() < self.entries().len(),
    {
    }

    pub proof fn lemma_block_wf(&self)
        requires
            self.wf(),
        ensures
            self.block().wf(),
    {
    }

    /// The cursor is on an entry, and that entry's key is not empty.
    pub open spec fn valid(&self) -> bool {
        0 <= self.index() < self.entries().len() && self.entries()[self.index()].0.0.len() > 0
    }

    fn new(block: Arc<Block>) -> (r: Self)
        requires
            block.wf(),
        ensures
            r.block() == *block,
            r.index() == r.entries().len(),
            r.wf(),
    {
        let n = block.offsets.len();
        Self { block, key: KeyVec::new(), value_range: (0, 0), idx: n, first_key: KeyVec::new() }
    }

    /// Creates a cursor on the first entry.
    pub fn create_and_seek_to_first(block: Arc<Block>) -> (r: Self)
        requires
            block.wf(),
        ensures
            r.wf(),
            r.block() == *block,
            r.index() == 0,
    {
        let mut it = BlockIterator::new(block);
        it.seek_to_first();
        it
    }

    /// Creates a cursor on the first entry whose key is not below `key`.
    pub fn create_and_seek_to_key(block: Arc<Block>, key: &KeyVec) -> (r: Self)
        requires
            block.wf(),
        ensures
            r.wf(),
            r.block() == *block,
            r.seeked_to(key@),
    {
        let mut it = BlockIterator::new(block);
        it.seek_to_key(key);
        it
    }

    /// Every entry before the cursor has a non-empty key below `k`; the cursor is
    /// past the end, on an entry with an empty key, or on one not below `k`.
    pub open spec fn seeked_to(&self, k: (Seq<u8>, u64)) -> bool {
        &&& 0 <= self.index() <= self.entries().len()
        &&& forall|j: int|
            0 <= j < self.index() ==> #[trigger] self.entries()[j].0.0.len() > 0 && key_lt(
                self.entries()[j].0,
                k,
            )
        &&& self.valid() ==> !key_lt(self.entries()[self.index()].0, k)
    }

    /// The key of the current entry (empty when the cursor is past the end).
    pub fn key(&self) -> (r: &KeyVec)
        requires
            self.wf(),
        ensures
            self.index() < self.entries().len() ==> r@ == self.entries()[self.index()].0,
            self.index() >= self.entries().len() ==> r@.0.len() == 0,
    {
        &self.key
    }

    /// The value of the current entry.
    pub fn value(&self) -> (r: &[u8])
        requires
            self.wf(),
        ensures
            self.index() < self.entries().len() ==> r@ == self.entries()[self.index()].1,
    {
        if self.value_range.0 <= self.value_range.1 && self.value_range.1 <= self.block.data.len() {
            slice_subrange(self.block.data.as_slice(), self.value_range.0, self.value_range.1)
        } else {
            slice_subrange(self.block.data.as_slice(), 0, 0)
        }
    }

    pub fn is_valid(&self) -> (r: bool)
        requires
            self.wf(),
        ensures
            r == self.valid(),
    {
        !self.key.is_empty()
    }

    /// Moves to the first entry.
    pub fn seek_to_first(&mut self)
        requires
            old(self).wf(),
        ensures
            final(self).wf(),
            final(self).block() == old(self).block(),
            final(self).index() == 0,
    {
        let (key, lo, hi) = decode_entry(&self.block, 0, &[]);
        self.first_key = key.clone_key();
        self.key = key;
        self.value_range = (lo, hi);
        self.idx = 0;
        proof {
            let b = *self.block;
            assert(b.entries()[0].0.0 == w_rest(window(b.data@, b.offsets@, 0)).take(0) + w_rest(
                window(b.data@, b.offsets@, 0),
            ));
            assert(w_rest(window(b.data@, b.offsets@, 0)).take(0) + w_rest(
                window(b.data@, b.offsets@, 0),
            ) =~= w_rest(window(b.data@, b.offsets@, 0)));
        }
    }

    /// Moves to the next entry, or past the end; past the end it stays put.
    pub fn next(&mut self)
        requires
            old(self).wf(),
        ensures
            final(self).wf(),
            final(self).block() == old(self).block(),
            final(self).index() == if old(self).index() < old(self).entries().len() {
                old(self).index() + 1
            } else {
                old(self).index()
            },
    {
        if self.idx >= self.block.offsets.len() {
            return;
        }
        let i = self.idx + 1;
        if i >= self.block.offsets.len() {
            self.idx = i;
            self.key = KeyVec::new();
        } else {
            let (key, lo, hi) = decode_entry(&self.block, i, self.first_key.key_ref());
            self.key = key;
            self.value_range = (lo, hi);
            self.idx = i;
        }
    }

    /// Moves to the first entry whose key is not below `key`: every entry
    /// passed over is below it.
    pub fn seek_to_key(&mut self, key: &KeyVec)
        requires
            old(self).wf(),
        ensures
            final(self).wf(),
            final(self).block() == old(self).block(),
            final(self).seeked_to(key@),
    {
        self.seek_to_first();
        while self.is_valid() && self.key.lt(key)
            invariant
                self.wf(),
                self.block() == old(self).block(),
                0 <= self.index() <= self.entries().len(),
                forall|j: int|
                    0 <= j < self.index() ==> #[trigger] self.entries()[j].0.0.len() > 0 && key_lt(
                        self.entries()[j].0,
                        key@,
                    ),
            decreases self.entries().len() - self.index(),
        {
            let ghost i0 = self.index();
            assert(self.entries()[i0].0.0.len() > 0 && key_lt(self.entries()[i0].0, key@));
            self.next();
            assert(self.entries() == old(self).entries());
        }
    }
}

} // verus!
