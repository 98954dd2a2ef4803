use vstd::prelude::*;
use crate::block::{
    block_entries, block_wf, entry_bytes, entry_key, lemma_append_entry, lemma_entry_bytes,
    w_overlap, w_rest, w_rest_len, w_ts, w_value, window, Block,
};
use crate::codec::{put_u16_le, put_u64_le};
use crate::key::{common_prefix, extend_from_range, get_common_prefix, is_common_prefix, KeyVec};

verus! {

/// Bound on the entries region of a block under construction.
pub const MAX_BLOCK_DATA: usize = 0x4_0000;

proof fn lemma_add_entry(
    d: Seq<u8>,
    o: Seq<u16>,
    fk: Seq<u8>,
    key: Seq<u8>,
    ts: u64,
    value: Seq<u8>,
    overlap: int,
)
    requires
        (o.len() == 0 && d.len() == 0 && overlap == 0) || (block_wf(d, o) && fk == w_rest(
            window(d, o, 0),
        ) && is_common_prefix(fk, key, overlap)),
        d.len() <= 0xFFFF,
        key.len() <= 0xFFFF,
        value.len() <= 0xFFFF,
    ensures
        ({
            let e = entry_bytes(overlap as u16, key.subrange(overlap, key.len() as int), ts, value);
            let d2 = d + e;
            let o2 = o.push(d.len() as u16);
            &&& block_wf(d2, o2)
            &&& e.len() == 14 + key.len() - overlap + value.len()
            &&& block_entries(d2, o2) == (if o.len() == 0 {
                Seq::empty()
            } else {
                block_entries(d, o)
            }).push(((key, ts), value))
            &&& w_rest(window(d2, o2, 0)) == (if o.len() == 0 {
                key
            } else {
                fk
            })
        }),
{
    let rest = key.subrange(overlap, key.len() as int);
    let e = entry_bytes(overlap as u16, rest, ts, value);
    lemma_entry_bytes(overlap as u16, rest, ts, value);
    lemma_append_entry(d, o, e);
    let d2 = d + e;
    let o2 = o.push(d.len() as u16);
    let n = o.len() as int;
    if n > 0 {
        assert(window(d2, o2, 0) == window(d, o, 0));
        assert(fk.subrange(0, overlap) == key.subrange(0, overlap));
        assert(fk.take(overlap) + rest =~= key);
        assert forall|i: int| 0 <= i < n implies #[trigger] block_entries(d2, o2)[i]
            == block_entries(d, o)[i] by {
            assert(window(d2, o2, i) == window(d, o, i));
        }
        assert(block_entries(d2, o2)[n] == ((key, ts), value));
        assert(block_entries(d2, o2) =~= block_entries(d, o).push(((key, ts), value)));
    } else {
        assert(window(d2, o2, 0) == e);
        assert(rest =~= key);
        assert(entry_key(d2, o2, 0) =~= key);
        assert(block_entries(d2, o2) =~= seq![((key, ts), value)]);
        assert(Seq::<((Seq<u8>, u64), Seq<u8>)>::empty().push(((key, ts), value)) == seq![((key, ts), value)]);
    }
}

/// Accumulates sorted entries into one block.
pub struct BlockBuilder {
    offsets: Vec<u16>,
    data: Vec<u8>,
    block_size: usize,
    first_key: KeyVec,
}

impl BlockBuilder {
    pub closed spec fn data_view(&self) -> Seq<u8> {
        self.data@
    }

    pub closed spec fn offsets_view(&self) -> Seq<u16> {
        self.offsets@
    }

    /// The target size given at creation.
    pub closed spec fn target_size(&self) -> usize {
        self.block_size
    }

    /// The key bytes of the first entry (empty before the first `add`).
    pub closed spec fn first_key_view(&self) -> Seq<u8> {
        self.first_key.key@
    }

    pub closed spec fn wf(&self) -> bool {
        &&& self.offsets@.len() == 0 ==> self.data@.len() == 0 && self.first_key.key@.len() == 0
        &&& self.offsets@.len() > 0 ==> block_wf(self.data@, self.offsets@)
            && self.first_key.key@ == w_rest(window(self.data@, self.offsets@, 0))
        &&& self.data@.len() <= MAX_BLOCK_DATA
        &&& self.offsets@.len() * 14 <= self.data@.len()
    }

    pub open spec fn num_entries(&self) -> nat {
        self.offsets_view().len()
    }

    /// The entries added so far, in order: ((key, timestamp), value).
    pub open spec fn entries(&self) -> Seq<((Seq<u8>, u64), Seq<u8>)> {
        if self.num_entries() == 0 {
            Seq::empty()
        } else {
            block_entries(self.data_view(), self.offsets_view())
        }
    }

    /// Key bytes that a new entry with this key would store after the shared prefix.
    pub open spec fn rest_len_for(&self, key: Seq<u8>) -> int {
        if self.num_entries() == 0 {
            key.len() as int
        } else {
            key.len() - common_prefix(self.first_key_view(), key)
        }
    }

    /// Whether `add` takes the entry: always into an empty block; otherwise when
    /// the offset of the new entry fits in 16 bits and the block, with the entry,
    /// its offset and the count, stays within the target size.
    pub open spec fn accepts(&self, key: Seq<u8>, value: Seq<u8>) -> bool {
        self.num_entries() == 0 || (self.data_view().len() <= 0xFFFF && self.data_view().len() + 2
            * (self.num_entries() + 1) + 2 + 14 + self.rest_len_for(key) + value.len()
            <= self.target_size())
    }

    pub proof fn lemma_bounds(&self)
        requires
            self.wf(),
        ensures
            self.data_view().len() <= MAX_BLOCK_DATA,
            self.num_entries() * 14 <= self.data_view().len(),
            self.num_entries() > 0 ==> block_wf(self.data_view(), self.offsets_view()),
            self.num_entries() == 0 ==> self.data_view().len() == 0,
    {
    }

    /// Creates an empty builder with a target block size.
    pub fn new(block_size: usize) -> (r: Self)
        ensures
            r.wf(),
            r.entries() == Seq::<((Seq<u8>, u64), Seq<u8>)>::empty(),
            r.num_entries() == 0,
            r.data_view().len() == 0,
            r.target_size() == block_size,
    {
        Self { offsets: Vec::new(), data: Vec::new(), block_size, first_key: KeyVec::new() }
    }

    /// Adds an entry; returns false, changing nothing, when the block is full.
    /// A later entry stores only the part of its key after the prefix that it
    /// shares with the first key.
    pub fn add(&mut self, key: &KeyVec, value: &[u8]) -> (r: bool)
        requires
            old(self).wf(),
            key.key@.len() <= 0xFFFF,
            value@.len() <= 0xFFFF,
        ensures
            final(self).wf(),
            r == old(self).accepts(key.key@, value@),
            final(self).target_size() == old(self).target_size(),
            r ==> final(self).entries() == old(self).entries().push((key@, value@)),
            r ==> final(self).data_view() == old(self).data_view() + entry_bytes(
                (key.key@.len() - old(self).rest_len_for(key.key@)) as u16,
                key.key@.subrange(key.key@.len() - old(self).rest_len_for(key.key@), key.key@.len() as int),
                key.ts,
                value@,
            ),
            r ==> final(self).num_entries() == old(self).num_entries() + 1,
            r ==> final(self).offsets_view() == old(self).offsets_view().push(
                old(self).data_view().len() as u16,
            ),
            !r ==> final(self).entries() == old(self).entries() && final(self).data_view()
                == old(self).data_view() && final(self).offsets_view() == old(self).offsets_view()
                && final(self).first_key_view() == old(self).first_key_view(),
            old(self).num_entries() > 0 ==> final(self).first_key_view() == old(self).first_key_view(),
            old(self).num_entries() == 0 ==> final(self).first_key_view() == key.key@,
    {
        let kb = key.key_ref();
        let empty = self.offsets.len() == 0;
        let overlap: usize = if empty {
            0
        } else {
            get_common_prefix(self.first_key.key_ref(), kb)
        };
        let rest_len = kb.len() - overlap;
        if !empty && (self.data.len() > 0xFFFF || self.data.len() + 2 * (self.offsets.len() + 1) + 2
            + 14 + rest_len + value.len() > self.block_size) {
            return false;
        }
        let ghost d = self.data@;
        let ghost o = self.offsets@;
        let ghost rest = kb@.subrange(overlap as int, kb@.len() as int);
        self.offsets.push(self.data.len() as u16);
        put_u16_le(&mut self.data, overlap as u16);
        put_u16_le(&mut self.data, rest_len as u16);
        extend_from_range(&mut self.data, kb, overlap, kb.len());
        put_u64_le(&mut self.data, key.ts);
        put_u16_le(&mut self.data, value.len() as u16);
        let ghost before_value = self.data@;
        extend_from_range(&mut self.data, value, 0, value.len());
        assert(value@.subrange(0, value@.len() as int) == value@);
        let ghost e = entry_bytes(overlap as u16, rest, key.ts, value@);
        assert(self.data@ =~= d + e);
        proof {
            lemma_add_entry(d, o, self.first_key.key@, kb@, key.ts, value@, overlap as int);
        }
        if empty {
            self.first_key = key.clone_key();
        }
        true
    }

    /// Whether no entry has been added.
    pub fn is_empty(&self) -> (r: bool)
        ensures
            r == (self.num_entries() == 0),
    {
        self.offsets.len() == 0
    }

    /// Finishes the block.
    pub fn build(self) -> (r: Block)
        requires
            self.wf(),
            self.num_entries() > 0,
        ensures
            r.wf(),
            r.entries() == self.entries(),
            r.data@ == self.data_view(),
            r.offsets@ == self.offsets_view(),
    {
        Block { data: self.data, offsets: self.offsets }
    }

    /// Size of the block if it were encoded now.
    pub fn block_size(&self) -> (r: usize)
        requires
            self.wf(),
        ensures
            r == self.data_view().len() + 2 * self.num_entries() + 2,
    {
        self.data.len() + 2 * self.offsets.len() + 2
    }
}

} // verus!
