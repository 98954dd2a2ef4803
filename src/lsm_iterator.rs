use vstd::prelude::*;
use crate::key::{bytes_lt, compare_bytes, Cmp};
use crate::table::StorageError;
use crate::table_iterator::SsTableIterator;

verus! {

/// A positional reader over a sorted stream of entries.
pub trait StorageIterator {
    /// The cursor's own consistency condition.
    spec fn inv(&self) -> bool;

    spec fn is_valid_spec(&self) -> bool;

    spec fn key_spec(&self) -> Seq<u8>;

    spec fn value_spec(&self) -> Seq<u8>;

    /// A bound on the steps left; each step from a valid position lowers it.
    spec fn remaining(&self) -> nat;

    fn is_valid(&self) -> (r: bool)
        requires
            self.inv(),
        ensures
            r == self.is_valid_spec(),
    ;

    fn key(&self) -> (r: &[u8])
        requires
            self.inv(),
            self.is_valid_spec(),
        ensures
            r@ == self.key_spec(),
    ;

    fn value(&self) -> (r: &[u8])
        requires
            self.inv(),
            self.is_valid_spec(),
        ensures
            r@ == self.value_spec(),
    ;

    fn next(&mut self) -> (r: Result<(), StorageError>)
        requires
            old(self).inv(),
        ensures
            final(self).inv(),
            old(self).is_valid_spec() && r is Ok ==> final(self).remaining() < old(self).remaining(),
    ;

    fn num_active_iterators(&self) -> usize;
}

proof fn lemma_steps_drop(n: int, b0: int, i0: int, l0: int, b1: int, i1: int, l1: int)
    requires
        0 <= b0 < n,
        0 <= i0 < l0 <= 0xFFFF,
        0 <= l1 <= 0xFFFF,
        (b1 == b0 && i1 == i0 + 1 && l1 == l0) || (b1 == b0 + 1 && b1 < n && i1 == 0),
    ensures
        (n - 1 - b1) * 0x10000 + (l1 - i1) < (n - 1 - b0) * 0x10000 + (l0 - i0),
        0 <= (n - 1 - b1) * 0x10000 + (l1 - i1),
{
}

impl StorageIterator for SsTableIterator {
    open spec fn inv(&self) -> bool {
        self.wf()
    }

    open spec fn is_valid_spec(&self) -> bool {
        self.valid()
    }

    open spec fn key_spec(&self) -> Seq<u8> {
        self.entries_here()[self.entry_index()].0.0
    }

    open spec fn value_spec(&self) -> Seq<u8> {
        self.entries_here()[self.entry_index()].1
    }

    open spec fn remaining(&self) -> nat {
        ((self.table().metas().len() - 1 - self.block_index()) * 0x10000 + (
        self.entries_here().len() - self.entry_index())) as nat
    }

    fn is_valid(&self) -> (r: bool) {
        SsTableIterator::is_valid(self)
    }

    fn key(&self) -> (r: &[u8]) {
        SsTableIterator::key(self).key_ref()
    }

    fn value(&self) -> (r: &[u8]) {
        SsTableIterator::value(self)
    }

    #[verifier::spinoff_prover]
    #[verifier::rlimit(100)]
    fn next(&mut self) -> (r: Result<(), StorageError>) {
        let ghost n = self.table().metas().len();
        let ghost b0 = self.block_index();
        let ghost i0 = self.entry_index();
        let ghost l0 = self.entries_here().len();
        let ghost was_valid = self.valid();
        let ghost leaves = self.leaves_block();
        let ghost t0 = self.table();
        proof {
            self.cursor().lemma_block_wf();
            crate::block::lemma_entries_len(self.cursor().block());
        }
        let r = SsTableIterator::next(self);
        proof {
            self.cursor().lemma_block_wf();
            crate::block::lemma_entries_len(self.cursor().block());
            if was_valid && r is Ok {
                if leaves {
                    assert(self.block_index() == b0 + 1 && self.entry_index() == 0);
                } else {
                    assert(self.block_index() == b0);
                    assert(self.entries_here() == t0.block_entries_at(b0));
                    assert(self.entry_index() == i0 + 1);
                }
                lemma_steps_drop(
                    n as int,
                    b0,
                    i0,
                    l0 as int,
                    self.block_index(),
                    self.entry_index(),
                    self.entries_here().len() as int,
                );
            }
        }
        r
    }

    fn num_active_iterators(&self) -> usize {
        1
    }
}

/// Upper end of a scan.
pub enum UpperBound {
    Unbounded,
    Included(Vec<u8>),
    Excluded(Vec<u8>),
}

/// Key bytes `k` lie within the bound.
pub open spec fn within(k: Seq<u8>, upper: UpperBound) -> bool {
    match upper {
        UpperBound::Unbounded => true,
        UpperBound::Included(b) => !bytes_lt(b@, k),
        UpperBound::Excluded(b) => bytes_lt(k, b@),
    }
}

fn check_within(k: &[u8], upper: &UpperBound) -> (r: bool)
    ensures
        r == within(k@, *upper),
{
    match upper {
        UpperBound::Unbounded => true,
        UpperBound::Included(b) => match compare_bytes(b.as_slice(), k) {
            Cmp::Less => false,
            _ => true,
        },
        UpperBound::Excluded(b) => match compare_bytes(k, b.as_slice()) {
            Cmp::Less => true,
            _ => false,
        },
    }
}

/// A scan over an inner cursor that hides deletions (empty values) and stops
/// at an upper bound.
pub struct LsmIterator<I: StorageIterator> {
    inner: I,
    upper: UpperBound,
    is_valid: bool,
}

impl<I: StorageIterator> LsmIterator<I> {
    pub closed spec fn inner(&self) -> I {
        self.inner
    }

    pub closed spec fn upper(&self) -> UpperBound {
        self.upper
    }

    pub closed spec fn valid(&self) -> bool {
        self.is_valid
    }

    /// Valid exactly on an inner entry within the bound.
    pub open spec fn wf(&self) -> bool {
        &&& self.inner().inv()
        &&& self.at_rest()
    }

    /// The cursor is valid exactly when the inner cursor is on an entry within the bound.
    pub open spec fn at_rest(&self) -> bool {
        self.valid() <==> (self.inner().is_valid_spec() && within(self.inner().key_spec(), self.upper()))
    }

    /// The cursor rests on a live entry, or is invalid.
    pub open spec fn settled(&self) -> bool {
        self.valid() ==> self.inner().value_spec().len() > 0
    }

    /// Creates the scan and moves past leading deletions.
    pub fn new(iter: I, upper: UpperBound) -> (r: Result<Self, StorageError>)
        requires
            iter.inv(),
        ensures
            r matches Ok(it) ==> it.wf() && it.settled() && it.upper() == upper && it.at_rest(),
            !iter.is_valid_spec() ==> (r matches Ok(it) && it.inner() == iter),
            iter.is_valid_spec() && (iter.value_spec().len() > 0 || !within(iter.key_spec(), upper))
                ==> (r matches Ok(it) && it.inner() == iter),
    {
        let mut valid = iter.is_valid();
        if valid {
            valid = check_within(iter.key(), &upper);
        }
        let mut it = Self { inner: iter, upper, is_valid: valid };
        it.move_to_no_delete()?;
        Ok(it)
    }

    fn next_inner(&mut self) -> (r: Result<(), StorageError>)
        requires
            old(self).wf(),
            old(self).valid(),
        ensures
            final(self).wf(),
            final(self).upper() == old(self).upper(),
            r is Ok ==> final(self).inner().remaining() < old(self).inner().remaining(),
            r is Ok ==> final(self).at_rest(),
    {
        let r = self.inner.next();
        if !self.inner.is_valid() {
            self.is_valid = false;
        } else {
            self.is_valid = check_within(self.inner.key(), &self.upper);
        }
        r
    }

    fn move_to_no_delete(&mut self) -> (r: Result<(), StorageError>)
        requires
            old(self).wf(),
            old(self).at_rest(),
        ensures
            final(self).wf(),
            final(self).upper() == old(self).upper(),
            r is Ok ==> final(self).settled() && final(self).at_rest(),
            r is Ok ==> final(self).inner().remaining() <= old(self).inner().remaining(),
            !old(self).valid() || old(self).inner().value_spec().len() > 0 ==> r is Ok && *final(self)
                == *old(self),
    {
        while self.is_valid && self.inner.value().len() == 0
            invariant
                self.wf(),
                self.at_rest(),
                !old(self).valid() || old(self).inner().value_spec().len() > 0 ==> *self == *old(self),
                self.upper() == old(self).upper(),
                self.inner().remaining() <= old(self).inner().remaining(),
            decreases self.inner().remaining(),
        {
            self.next_inner()?;
        }
        Ok(())
    }
    /// Moves to the next live entry within the bound.
    pub fn advance(&mut self) -> (r: Result<(), StorageError>)
        requires
            old(self).wf(),
            old(self).at_rest(),
        ensures
            final(self).wf(),
            final(self).upper() == old(self).upper(),
            r is Ok ==> final(self).settled() && final(self).at_rest(),
            !old(self).valid() ==> r is Ok && *final(self) == *old(self),
            old(self).valid() && r is Ok ==> final(self).inner().remaining() < old(self).inner().remaining(),
    {
        if !self.is_valid {
            return Ok(());
        }
        self.next_inner()?;
        self.move_to_no_delete()
    }
}

impl<I: StorageIterator> StorageIterator for LsmIterator<I> {
    open spec fn inv(&self) -> bool {
        self.wf()
    }

    open spec fn is_valid_spec(&self) -> bool {
        self.valid()
    }

    open spec fn key_spec(&self) -> Seq<u8> {
        self.inner().key_spec()
    }

    open spec fn value_spec(&self) -> Seq<u8> {
        self.inner().value_spec()
    }

    open spec fn remaining(&self) -> nat {
        self.inner().remaining()
    }

    fn is_valid(&self) -> (r: bool) {
        self.is_valid
    }

    fn key(&self) -> (r: &[u8]) {
        self.inner.key()
    }

    fn value(&self) -> (r: &[u8]) {
        self.inner.value()
    }

    /// Advances once, then past deletions; leaving the bound ends the scan.
    /// An invalid scan stays where it is.
    fn next(&mut self) -> (r: Result<(), StorageError>) {
        self.advance()
    }

    fn num_active_iterators(&self) -> usize {
        self.inner.num_active_iterators()
    }
}


/// Guards a cursor against misuse: once invalid, `next` does nothing; once
/// `next` has failed, the cursor stays invalid and every later `next` fails.
pub struct FusedIterator<I: StorageIterator> {
    iter: I,
    has_errored: bool,
}

impl<I: StorageIterator> FusedIterator<I> {
    pub closed spec fn iter(&self) -> I {
        self.iter
    }

    pub closed spec fn errored(&self) -> bool {
        self.has_errored
    }

    pub fn new(iter: I) -> (r: Self)
        ensures
            r.iter() == iter,
            !r.errored(),
    {
        Self { iter, has_errored: false }
    }
}

impl<I: StorageIterator> StorageIterator for FusedIterator<I> {
    open spec fn inv(&self) -> bool {
        self.iter().inv()
    }

    open spec fn is_valid_spec(&self) -> bool {
        !self.errored() && self.iter().is_valid_spec()
    }

    open spec fn key_spec(&self) -> Seq<u8> {
        self.iter().key_spec()
    }

    open spec fn value_spec(&self) -> Seq<u8> {
        self.iter().value_spec()
    }

    open spec fn remaining(&self) -> nat {
        self.iter().remaining()
    }

    fn is_valid(&self) -> (r: bool) {
        if self.has_errored {
            return false;
        }
        self.iter.is_valid()
    }

    fn key(&self) -> (r: &[u8]) {
        self.iter.key()
    }

    fn value(&self) -> (r: &[u8]) {
        self.iter.value()
    }

    fn next(&mut self) -> (r: Result<(), StorageError>) {
        self.step()
    }

    fn num_active_iterators(&self) -> usize {
        self.iter.num_active_iterators()
    }
}

impl<I: StorageIterator> FusedIterator<I> {
    /// `next`, with what it does stated: a failed cursor fails again and
    /// changes nothing; an invalid one stays put; on a valid one the inner
    /// cursor steps once and its result goes through `record`.
    pub fn step(&mut self) -> (r: Result<(), StorageError>)
        requires
            old(self).inv(),
        ensures
            final(self).inv(),
            old(self).errored() ==> r == Err::<(), StorageError>(StorageError::TaintedCursor) && *final(self) == *old(self),
            !old(self).errored() && !old(self).iter().is_valid_spec() ==> r is Ok && *final(self) == *old(self),
            !old(self).errored() && r is Err ==> final(self).errored(),
            r is Ok ==> !final(self).errored(),
            !old(self).errored() && old(self).iter().is_valid_spec() && r is Ok ==> final(self).iter().remaining()
                < old(self).iter().remaining(),
    {
        if self.has_errored {
            return Err(StorageError::TaintedCursor);
        }
        if self.iter.is_valid() {
            let res = self.iter.next();
            return self.record(res);
        }
        Ok(())
    }

    /// Takes in what the inner cursor's `next` returned: a failure is handed
    /// back as it is and taints this cursor; success leaves it untainted.
    pub fn record(&mut self, res: Result<(), StorageError>) -> (r: Result<(), StorageError>)
        requires
            !old(self).errored(),
        ensures
            r == res,
            final(self).errored() == (res is Err),
            final(self).iter() == old(self).iter(),
    {
        if res.is_err() {
            self.has_errored = true;
        }
        res
    }
}

} // verus!
