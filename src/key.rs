use vstd::prelude::*;

verus! {

/// Lexicographic strict order on byte strings.
pub open spec fn bytes_lt(a: Seq<u8>, b: Seq<u8>) -> bool {
    exists|i: int|
        0 <= i <= a.len() && i <= b.len() && #[trigger] a.subrange(0, i) == b.subrange(0, i) && (
        (i == a.len() && i < b.len()) || (i < a.len() && i < b.len() && a[i] < b[i]))
}

/// Order on versioned keys: bytes ascending, then timestamp descending.
pub open spec fn key_lt(a: (Seq<u8>, u64), b: (Seq<u8>, u64)) -> bool {
    bytes_lt(a.0, b.0) || (a.0 == b.0 && a.1 > b.1)
}

/// `n` is the length of the longest common prefix of `a` and `b`.
pub open spec fn is_common_prefix(a: Seq<u8>, b: Seq<u8>, n: int) -> bool {
    0 <= n <= a.len() && n <= b.len() && a.subrange(0, n) == b.subrange(0, n) && (n == a.len() || n
        == b.len() || a[n] != b[n])
}

/// Length of the longest common prefix of two byte strings.
pub open spec fn common_prefix(a: Seq<u8>, b: Seq<u8>) -> int {
    choose|n: int| is_common_prefix(a, b, n)
}

/// Three-way result of comparing two byte strings.
pub enum Cmp {
    Less,
    Equal,
    Greater,
}

proof fn lemma_first_diff_unique(a: Seq<u8>, b: Seq<u8>, i: int, j: int)
    requires
        0 <= i <= a.len(),
        i <= b.len(),
        a.subrange(0, i) == b.subrange(0, i),
        i == a.len() || i == b.len() || a[i] != b[i],
        0 <= j <= a.len(),
        j <= b.len(),
        a.subrange(0, j) == b.subrange(0, j),
        j == a.len() || j == b.len() || a[j] != b[j],
    ensures
        i == j,
{
    if i < j {
        assert(a.subrange(0, j)[i] == a[i]);
        assert(b.subrange(0, j)[i] == b[i]);
    } else if j < i {
        assert(a.subrange(0, i)[j] == a[j]);
        assert(b.subrange(0, i)[j] == b[j]);
    }
}

/// Compares two byte strings lexicographically.
pub fn compare_bytes(a: &[u8], b: &[u8]) -> (r: Cmp)
    ensures
        (r == Cmp::Less) == bytes_lt(a@, b@),
        (r == Cmp::Equal) == (a@ == b@),
        (r == Cmp::Greater) == bytes_lt(b@, a@),
{
    let n = if a.len() < b.len() { a.len() } else { b.len() };
    let mut i: usize = 0;
    while i < n
        invariant
            n <= a.len(),
            n <= b.len(),
            n == a.len() || n == b.len(),
            i <= n,
            a@.subrange(0, i as int) == b@.subrange(0, i as int),
        ensures
            i <= n,
            a@.subrange(0, i as int) == b@.subrange(0, i as int),
            i == n || a@[i as int] != b@[i as int],
        decreases n - i,
    {
        if a[i] != b[i] {
            break;
        }
        assert(a@.subrange(0, i + 1) == a@.subrange(0, i as int).push(a@[i as int]));
        assert(b@.subrange(0, i + 1) == b@.subrange(0, i as int).push(b@[i as int]));
        i = i + 1;
    }
    let ghost ii = i as int;
    assert(b@.subrange(0, ii) == a@.subrange(0, ii));
    assert forall|j: int|
        0 <= j <= a.len() && j <= b.len() && #[trigger] a@.subrange(0, j) == b@.subrange(0, j) && (
        (j == a.len() && j < b.len()) || (j < a.len() && j < b.len() && a@[j] < b@[j])) implies j
        == ii by {
        lemma_first_diff_unique(a@, b@, ii, j);
    }
    assert forall|j: int|
        0 <= j <= b.len() && j <= a.len() && #[trigger] b@.subrange(0, j) == a@.subrange(0, j) && (
        (j == b.len() && j < a.len()) || (j < b.len() && j < a.len() && b@[j] < a@[j])) implies j
        == ii by {
        lemma_first_diff_unique(a@, b@, ii, j);
    }
    if i < n {
        if a[i] < b[i] {
            Cmp::Less
        } else {
            Cmp::Greater
        }
    } else if a.len() < b.len() {
        Cmp::Less
    } else if b.len() < a.len() {
        Cmp::Greater
    } else {
        assert(a@ == a@.subrange(0, ii));
        assert(b@ == b@.subrange(0, ii));
        Cmp::Equal
    }
}

/// Length of the longest shared prefix of two byte strings.
pub fn get_common_prefix(a: &[u8], b: &[u8]) -> (r: usize)
    ensures
        r == common_prefix(a@, b@),
        is_common_prefix(a@, b@, r as int),
{
    let n = if a.len() < b.len() { a.len() } else { b.len() };
    let mut i: usize = 0;
    while i < n
        invariant
            n <= a.len(),
            n <= b.len(),
            n == a.len() || n == b.len(),
            i <= n,
            a@.subrange(0, i as int) == b@.subrange(0, i as int),
        ensures
            i <= n,
            a@.subrange(0, i as int) == b@.subrange(0, i as int),
            i == n || a@[i as int] != b@[i as int],
        decreases n - i,
    {
        if a[i] != b[i] {
            break;
        }
        assert(a@.subrange(0, i + 1) == a@.subrange(0, i as int).push(a@[i as int]));
        assert(b@.subrange(0, i + 1) == b@.subrange(0, i as int).push(b@[i as int]));
        i = i + 1;
    }
    assert(is_common_prefix(a@, b@, i as int));
    let ghost c = common_prefix(a@, b@);
    assert(is_common_prefix(a@, b@, c));
    proof {
        lemma_first_diff_unique(a@, b@, i as int, c);
    }
    i
}

/// An owned key: a byte string with a timestamp.
pub struct KeyVec {
    pub key: Vec<u8>,
    pub ts: u64,
}

impl KeyVec {
    pub open spec fn view(&self) -> (Seq<u8>, u64) {
        (self.key@, self.ts)
    }

    /// An empty key with timestamp zero.
    pub fn new() -> (r: KeyVec)
        ensures
            r@ == (Seq::<u8>::empty(), 0u64),
    {
        KeyVec { key: Vec::new(), ts: 0 }
    }

    pub fn from_vec_with_ts(key: Vec<u8>, ts: u64) -> (r: KeyVec)
        ensures
            r@ == (key@, ts),
    {
        KeyVec { key, ts }
    }

    pub fn key_ref(&self) -> (r: &[u8])
        ensures
            r@ == self.key@,
    {
        self.key.as_slice()
    }

    pub fn ts(&self) -> (r: u64)
        ensures
            r == self.ts,
    {
        self.ts
    }

    pub fn len(&self) -> (r: usize)
        ensures
            r == self.key@.len(),
    {
        self.key.len()
    }

    pub fn is_empty(&self) -> (r: bool)
        ensures
            r == (self.key@.len() == 0),
    {
        self.key.len() == 0
    }

    pub fn clone_key(&self) -> (r: KeyVec)
        ensures
            r@ == self@,
    {
        KeyVec { key: copy_bytes(self.key.as_slice()), ts: self.ts }
    }

    /// Whether `self` orders before `other`: bytes ascending, timestamp descending.
    pub fn lt(&self, other: &KeyVec) -> (r: bool)
        ensures
            r == key_lt(self@, other@),
    {
        match compare_bytes(self.key.as_slice(), other.key.as_slice()) {
            Cmp::Less => true,
            Cmp::Equal => self.ts > other.ts,
            Cmp::Greater => false,
        }
    }
}

/// Copies a byte slice into a new vector.
pub fn copy_bytes(s: &[u8]) -> (r: Vec<u8>)
    ensures
        r@ == s@,
{
    let mut v: Vec<u8> = Vec::new();
    let mut i: usize = 0;
    while i < s.len()
        invariant
            i <= s.len(),
            v@ == s@.subrange(0, i as int),
        decreases s.len() - i,
    {
        v.push(s[i]);
        assert(s@.subrange(0, i + 1) == s@.subrange(0, i as int).push(s@[i as int]));
        i = i + 1;
    }
    assert(s@.subrange(0, s.len() as int) == s@);
    v
}

/// Copies `s[lo..hi]` onto the end of `v`.
pub fn extend_from_range(v: &mut Vec<u8>, s: &[u8], lo: usize, hi: usize)
    requires
        lo <= hi <= s.len(),
    ensures
        final(v)@ == old(v)@ + s@.subrange(lo as int, hi as int),
{
    let mut i: usize = lo;
    while i < hi
        invariant
            lo <= i <= hi <= s.len(),
            v@ == old(v)@ + s@.subrange(lo as int, i as int),
        decreases hi - i,
    {
        v.push(s[i]);
        assert(s@.subrange(lo as int, i + 1) == s@.subrange(lo as int, i as int).push(s@[i as int]));
        i = i + 1;
    }
}

} // verus!
