use vstd::prelude::*;
use std::sync::Arc;
use crate::key::{bytes_lt, compare_bytes, Cmp, KeyVec};
use crate::table::{SsTable, StorageError};
use crate::table_iterator::SsTableIterator;

verus! {

/// Every table is well-formed.
pub open spec fn tables_wf(ts: Seq<Arc<SsTable>>) -> bool {
    forall|i: int| 0 <= i < ts.len() ==> (*#[trigger] ts[i]).wf()
}

/// Every block of every table decodes.
pub open spec fn tables_all_ok(ts: Seq<Arc<SsTable>>) -> bool {
    forall|i: int| 0 <= i < ts.len() ==> (*#[trigger] ts[i]).all_blocks_ok()
}

/// Table `l` is where a search for key bytes `k` starts: every earlier table
/// ends below `k`, and this one (unless it is the last) does not.
pub open spec fn table_for_key(ts: Seq<Arc<SsTable>>, k: Seq<u8>, l: int) -> bool {
    &&& 0 <= l < ts.len()
    &&& l == 0 || bytes_lt(ts[l - 1].last_key_view(), k)
    &&& l + 1 == ts.len() || !bytes_lt(ts[l].last_key_view(), k)
}

/// One cursor over tables whose key ranges are disjoint and ascending; each
/// table is opened only when the cursor reaches it.
pub struct SstConcatIterator {
    current: Option<SsTableIterator>,
    next_sst_idx: usize,
    sstables: Vec<Arc<SsTable>>,
}

impl SstConcatIterator {
    pub closed spec fn tables(&self) -> Seq<Arc<SsTable>> {
        self.sstables@
    }

    /// The cursor in the current table, if any.
    pub closed spec fn current(&self) -> Option<SsTableIterator> {
        self.current
    }

    /// Index of the table the cursor is in.
    pub closed spec fn table_index(&self) -> int {
        self.next_sst_idx - 1
    }

    pub open spec fn wf(&self) -> bool {
        &&& tables_wf(self.tables())
        &&& match self.current() {
            Some(it) => {
                &&& it.wf()
                &&& 0 <= self.table_index() < self.tables().len()
                &&& it.table() == *self.tables()[self.table_index()]
            },
            None => self.tables().len() == 0,
        }
    }

    pub open spec fn valid(&self) -> bool {
        self.current() matches Some(it) && it.valid()
    }

    /// Opens the first table at its first entry.
    pub fn new(sstables: Vec<Arc<SsTable>>) -> (r: Result<Self, StorageError>)
        requires
            tables_wf(sstables@),
        ensures
            r matches Ok(c) ==> c.wf() && c.tables() == sstables@ && (sstables@.len() > 0 ==> (
            c.table_index() == 0 && c.current().unwrap().block_index() == 0
                && c.current().unwrap().entry_index() == 0)),
            sstables@.len() == 0 ==> r is Ok,
            sstables@.len() > 0 ==> (r is Ok <==> sstables@[0].block_ok(0)),
    {
        if sstables.len() > 0 {
            let first = SsTableIterator::create_and_seek_to_first(sstables[0].clone())?;
            Ok(Self { current: Some(first), next_sst_idx: 1, sstables })
        } else {
            Ok(Self { current: None, next_sst_idx: 0, sstables })
        }
    }

    pub fn create_and_seek_to_first(sstables: Vec<Arc<SsTable>>) -> (r: Result<Self, StorageError>)
        requires
            tables_wf(sstables@),
        ensures
            r matches Ok(c) ==> c.wf() && c.tables() == sstables@ && (sstables@.len() > 0 ==> (
            c.table_index() == 0 && c.current().unwrap().block_index() == 0
                && c.current().unwrap().entry_index() == 0)),
            sstables@.len() == 0 ==> r is Ok,
            sstables@.len() > 0 ==> (r is Ok <==> sstables@[0].block_ok(0)),
    {
        Self::new(sstables)
    }

    /// Opens only the table where a search for `key` starts, and seeks in it.
    pub fn create_and_seek_to_key(sstables: Vec<Arc<SsTable>>, key: &KeyVec) -> (r: Result<Self, StorageError>)
        requires
            tables_wf(sstables@),
        ensures
            r matches Ok(c) ==> c.wf() && c.tables() == sstables@ && (sstables@.len() > 0 ==> (
            table_for_key(sstables@, key@.0, c.table_index()) && c.current().unwrap().seeked_to(key@))),
            sstables@.len() == 0 ==> r is Ok,
            tables_all_ok(sstables@) ==> r is Ok,
            r is Err ==> !tables_all_ok(sstables@),
    {
        let len = sstables.len();
        if len == 0 {
            return Ok(Self { current: None, next_sst_idx: 0, sstables });
        }
        let mut l: usize = 0;
        let mut r: usize = len - 1;
        while l < r
            invariant
                len == sstables@.len(),
                l <= r < len,
                l == 0 || bytes_lt(sstables@[l - 1].last_key_view(), key@.0),
                r + 1 == len || !bytes_lt(sstables@[r as int].last_key_view(), key@.0),
            decreases r - l,
        {
            let mid = l + (r - l) / 2;
            let below = match compare_bytes(sstables[mid].last_key().as_slice(), key.key_ref()) {
                Cmp::Less => true,
                _ => false,
            };
            if below {
                l = mid + 1;
            } else {
                r = mid;
            }
        }
        let it = match SsTableIterator::create_and_seek_to_key(sstables[l].clone(), key) {
            Ok(it) => it,
            Err(e) => {
                assert(!(*sstables@[l as int]).all_blocks_ok());
                return Err(e);
            },
        };
        Ok(Self { current: Some(it), next_sst_idx: l + 1, sstables })
    }

    pub fn key(&self) -> (r: &KeyVec)
        requires
            self.wf(),
            self.tables().len() > 0,
        ensures
            self.current().unwrap().entry_index() < self.current().unwrap().entries_here().len() ==> r@
                == self.current().unwrap().entries_here()[self.current().unwrap().entry_index()].0,
    {
        let it = self.current.as_ref().unwrap();
        it.key()
    }

    pub fn value(&self) -> (r: &[u8])
        requires
            self.wf(),
            self.tables().len() > 0,
        ensures
            self.current().unwrap().entry_index() < self.current().unwrap().entries_here().len() ==> r@
                == self.current().unwrap().entries_here()[self.current().unwrap().entry_index()].1,
    {
        let it = self.current.as_ref().unwrap();
        it.value()
    }

    pub fn is_valid(&self) -> (r: bool)
        requires
            self.wf(),
        ensures
            r == self.valid(),
    {
        match &self.current {
            Some(it) => it.is_valid(),
            None => false,
        }
    }

    /// Steps the current table's cursor; when that table is exhausted, opens
    /// the next table at its first entry.
    #[verifier::rlimit(100)]
    pub fn next(&mut self) -> (r: Result<(), StorageError>)
        requires
            old(self).wf(),
        ensures
            final(self).wf(),
            final(self).tables() == old(self).tables(),
            old(self).tables().len() == 0 ==> r is Ok && *final(self) == *old(self),
            tables_all_ok(old(self).tables()) ==> r is Ok,
            r is Err ==> !tables_all_ok(old(self).tables()),
            old(self).tables().len() > 0 && r is Ok && final(self).table_index() == old(self).table_index()
                ==> (final(self).current().unwrap().block_index(), final(self).current().unwrap().entry_index())
                == old(self).current().unwrap().step_position() && (old(self).current().unwrap().step_valid()
                || old(self).table_index() + 1 == old(self).tables().len()),
            old(self).tables().len() > 0 && r is Ok && final(self).table_index() != old(self).table_index()
                ==> final(self).table_index() == old(self).table_index() + 1
                && !old(self).current().unwrap().step_valid() && final(self).current().unwrap().block_index()
                == 0 && final(self).current().unwrap().entry_index() == 0,
    {
        let mut cur = match self.current.take() {
            Some(it) => it,
            None => {
                return Ok(());
            },
        };
        let stepped = cur.next();
        match stepped {
            Ok(()) => {},
            Err(e) => {
                assert(!(*self.sstables@[self.next_sst_idx - 1]).all_blocks_ok());
                self.current = Some(cur);
                return Err(e);
            },
        }
        if !cur.is_valid() && self.next_sst_idx < self.sstables.len() {
            let idx = self.next_sst_idx;
            match SsTableIterator::create_and_seek_to_first(self.sstables[idx].clone()) {
                Ok(it) => {
                    self.current = Some(it);
                    self.next_sst_idx = idx + 1;
                },
                Err(e) => {
                    assert(!(*self.sstables@[idx as int]).block_ok(0));
                    self.current = Some(cur);
                    return Err(e);
                },
            }
        } else {
            self.current = Some(cur);
        }
        Ok(())
    }

    /// Only one table is open at a time.
    pub fn num_active_iterators(&self) -> (r: usize)
        ensures
            r == 1,
    {
        1
    }
}

} // verus!
