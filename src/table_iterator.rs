use vstd::prelude::*;
use std::sync::Arc;
use crate::block::{block_entries, decodable, entries_region_len, offsets_in, stored_count, Block};
use crate::block_iterator::BlockIterator;
use crate::key::{key_lt, KeyVec};
use crate::table::{block_for_key, SsTable, StorageError};

verus! {

impl SsTable {
    /// Block `i` decodes.
    pub open spec fn block_ok(&self, i: int) -> bool {
        decodable(self.block_bytes(i))
    }

    /// Every block decodes.
    pub open spec fn all_blocks_ok(&self) -> bool {
        forall|i: int| 0 <= i < self.metas().len() ==> #[trigger] self.block_ok(i)
    }

    /// The entries of block `i`, when it decodes.
    pub open spec fn block_entries_at(&self, i: int) -> Seq<((Seq<u8>, u64), Seq<u8>)> {
        let b = self.block_bytes(i);
        block_entries(b.take(entries_region_len(b)), offsets_in(b, entries_region_len(b), stored_count(b)))
    }
}

/// Entry `j` of `es` exists and has a non-empty key.
pub open spec fn valid_at(es: Seq<((Seq<u8>, u64), Seq<u8>)>, j: int) -> bool {
    0 <= j < es.len() && es[j].0.0.len() > 0
}

/// A cursor over a table: the index of the current block and a cursor in it.
pub struct SsTableIterator {
    table: Arc<SsTable>,
    blk_iter: BlockIterator,
    blk_idx: usize,
}

impl SsTableIterator {
    pub closed spec fn table(&self) -> SsTable {
        *self.table
    }

    pub closed spec fn block_index(&self) -> int {
        self.blk_idx as int
    }

    pub closed spec fn cursor(&self) -> BlockIterator {
        self.blk_iter
    }

    pub open spec fn entry_index(&self) -> int {
        self.cursor().index()
    }

    /// Entries of the current block.
    pub open spec fn entries_here(&self) -> Seq<((Seq<u8>, u64), Seq<u8>)> {
        self.cursor().entries()
    }

    pub open spec fn wf(&self) -> bool {
        &&& self.table().wf()
        &&& 0 <= self.block_index() < self.table().metas().len()
        &&& self.cursor().wf()
        &&& self.table().block_ok(self.block_index())
        &&& self.entries_here() == self.table().block_entries_at(self.block_index())
    }

    pub open spec fn valid(&self) -> bool {
        self.cursor().valid()
    }

    /// `next` leaves the current block: the step inside it finds no entry, and
    /// another block follows.
    pub open spec fn leaves_block(&self) -> bool {
        !valid_at(self.entries_here(), self.entry_index() + 1) && self.block_index() + 1
            < self.table().metas().len()
    }

    /// Where `next` goes: the next entry of this block, the first entry of
    /// the next block when the step finds none here, or nowhere past the end.
    pub open spec fn step_position(&self) -> (int, int) {
        if self.leaves_block() {
            (self.block_index() + 1, 0)
        } else if self.entry_index() < self.entries_here().len() {
            (self.block_index(), self.entry_index() + 1)
        } else {
            (self.block_index(), self.entry_index())
        }
    }

    /// The cursor is valid after `next`.
    pub open spec fn step_valid(&self) -> bool {
        valid_at(self.table().block_entries_at(self.step_position().0), self.step_position().1)
    }

    fn load_first(table: &Arc<SsTable>, idx: usize) -> (r: Result<BlockIterator, StorageError>)
        requires
            table.wf(),
            idx < table.metas().len(),
        ensures
            r is Ok <==> table.block_ok(idx as int),
            r matches Ok(it) ==> it.wf() && it.index() == 0 && it.entries() == table.block_entries_at(idx as int),
    {
        let block = table.read_block(idx)?;
        Ok(BlockIterator::create_and_seek_to_first(block))
    }

    /// Creates a cursor on the first entry of the table.
    pub fn new(table: Arc<SsTable>) -> (r: Result<Self, StorageError>)
        requires
            table.wf(),
        ensures
            r is Ok <==> table.block_ok(0),
            r matches Ok(it) ==> it.wf() && it.table() == *table && it.block_index() == 0
                && it.entry_index() == 0,
    {
        let blk_iter = Self::load_first(&table, 0)?;
        Ok(Self { table, blk_iter, blk_idx: 0 })
    }

    /// Creates a cursor on the first entry of the table.
    pub fn create_and_seek_to_first(table: Arc<SsTable>) -> (r: Result<Self, StorageError>)
        requires
            table.wf(),
        ensures
            r is Ok <==> table.block_ok(0),
            r matches Ok(it) ==> it.wf() && it.table() == *table && it.block_index() == 0
                && it.entry_index() == 0,
    {
        Self::new(table)
    }

    /// Moves to the first entry of the table; on failure nothing changes.
    pub fn seek_to_first(&mut self) -> (r: Result<(), StorageError>)
        requires
            old(self).wf(),
        ensures
            final(self).wf(),
            final(self).table() == old(self).table(),
            r is Ok <==> old(self).table().block_ok(0),
            r is Ok ==> final(self).block_index() == 0 && final(self).entry_index() == 0,
            r is Err ==> *final(self) == *old(self),
    {
        let it = Self::load_first(&self.table, 0)?;
        self.blk_iter = it;
        self.blk_idx = 0;
        Ok(())
    }

    /// Creates a cursor on the first entry not below `key`.
    pub fn create_and_seek_to_key(table: Arc<SsTable>, key: &KeyVec) -> (r: Result<Self, StorageError>)
        requires
            table.wf(),
        ensures
            r matches Ok(it) ==> it.wf() && it.table() == *table && it.seeked_to(key@),
            table.all_blocks_ok() ==> r is Ok,
            r is Err ==> !table.all_blocks_ok(),
    {
        let mut it = Self::create_and_seek_to_first(table)?;
        it.seek_to_key(key)?;
        Ok(it)
    }

    /// The cursor stands where a search for `k` ends: in the block where the
    /// search starts, past every entry below `k` there; or at the start of the
    /// block after it, when every entry of that block is below `k`.
    pub open spec fn seeked_to(&self, k: (Seq<u8>, u64)) -> bool {
        ||| block_for_key(self.table().metas(), k, self.block_index()) && self.cursor().seeked_to(k)
        ||| self.block_index() > 0 && block_for_key(self.table().metas(), k, self.block_index() - 1)
            && self.entry_index() == 0
    }

    /// Moves to the first entry not below `key`, as the index and the blocks say.
    #[verifier::rlimit(100)]
    pub fn seek_to_key(&mut self, key: &KeyVec) -> (r: Result<(), StorageError>)
        requires
            old(self).wf(),
        ensures
            final(self).wf(),
            final(self).table() == old(self).table(),
            r is Ok ==> final(self).seeked_to(key@),
            old(self).table().all_blocks_ok() ==> r is Ok,
            r is Err ==> !old(self).table().all_blocks_ok(),
    {
        let idx = self.table.find_block_idx(key);
        let block = match self.table.read_block(idx) {
            Ok(b) => b,
            Err(e) => {
                assert(!self.table().block_ok(idx as int));
                return Err(e);
            },
        };
        let it = BlockIterator::create_and_seek_to_key(block, key);
        self.blk_iter = it;
        self.blk_idx = idx;
        let n = self.table.num_of_blocks();
        if !self.blk_iter.is_valid() && idx < n - 1 {
            let next = match Self::load_first(&self.table, idx + 1) {
                Ok(it) => it,
                Err(e) => {
                    assert(!self.table().block_ok(idx + 1));
                    return Err(e);
                },
            };
            self.blk_iter = next;
            self.blk_idx = idx + 1;
        }
        Ok(())
    }

    pub fn key(&self) -> (r: &KeyVec)
        requires
            self.wf(),
        ensures
            self.entry_index() < self.entries_here().len() ==> r@ == self.entries_here()[self.entry_index()].0,
    {
        self.blk_iter.key()
    }

    pub fn value(&self) -> (r: &[u8])
        requires
            self.wf(),
        ensures
            self.entry_index() < self.entries_here().len() ==> r@ == self.entries_here()[self.entry_index()].1,
    {
        self.blk_iter.value()
    }

    pub fn is_valid(&self) -> (r: bool)
        requires
            self.wf(),
        ensures
            r == self.valid(),
    {
        self.blk_iter.is_valid()
    }

    /// Steps to the next entry; when the current block has none left, moves to
    /// the first entry of the next block, if any.
    pub fn next(&mut self) -> (r: Result<(), StorageError>)
        requires
            old(self).wf(),
        ensures
            final(self).wf(),
            final(self).table() == old(self).table(),
            r is Err <==> old(self).leaves_block() && !old(self).table().block_ok(old(self).block_index() + 1),
            r is Ok && old(self).leaves_block() ==> final(self).block_index() == old(self).block_index() + 1
                && final(self).entry_index() == 0,
            r is Ok ==> (final(self).block_index(), final(self).entry_index()) == old(self).step_position()
                && (final(self).valid() <==> old(self).step_valid()),
            r is Ok && !old(self).leaves_block() ==> final(self).block_index() == old(self).block_index()
                && final(self).entry_index() == if old(self).entry_index() < old(self).entries_here().len() {
                old(self).entry_index() + 1
            } else {
                old(self).entry_index()
            },
    {
        self.blk_iter.next();
        let n = self.table.num_of_blocks();
        if !self.blk_iter.is_valid() && self.blk_idx < n - 1 {
            let it = Self::load_first(&self.table, self.blk_idx + 1)?;
            self.blk_iter = it;
            self.blk_idx = self.blk_idx + 1;
        }
        Ok(())
    }
}

} // verus!
