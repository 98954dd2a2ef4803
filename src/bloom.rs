use vstd::prelude::*;
use crate::key::extend_from_range;

verus! {

/// Bits per key for a false-positive rate of about one percent:
/// the least integer not below -ln(0.01) / ln(2)^2.
pub const BITS_PER_KEY_ONE_PERCENT: usize = 10;

/// A bloom filter over 32-bit key hashes: a bit array and the number of probes.
pub struct Bloom {
    pub filter: Vec<u8>,
    pub k: u8,
}

/// Probes per key for a given number of bits per key: `bits_per_key * 0.69`
/// rounded down, kept within 1 ..= 30.
pub open spec fn probes_for(bits_per_key: int) -> int {
    let k = bits_per_key * 69 / 100;
    if k < 1 {
        1
    } else if k > 30 {
        30
    } else {
        k
    }
}

/// Bytes of the bit array: at least 64 bits, and `bits_per_key` per key.
pub open spec fn filter_bytes(n_keys: int, bits_per_key: int) -> int {
    let nbits = if n_keys * bits_per_key < 64 {
        64
    } else {
        n_keys * bits_per_key
    };
    (nbits + 7) / 8
}

/// The hash rotated right by 17 bits, added between probes.
pub open spec fn probe_delta(h: u32) -> u32 {
    (h >> 17u32) | (h << 15u32)
}

/// The `i`-th probe position of a hash, before reduction modulo the bit count.
pub open spec fn probe(h: u32, i: nat) -> u32
    decreases i,
{
    if i == 0 {
        h
    } else {
        ((probe(h, (i - 1) as nat) + probe_delta(h)) % 0x1_0000_0000) as u32
    }
}

/// Bit `pos` of the array is set.
pub open spec fn bit_set(f: Seq<u8>, pos: int) -> bool {
    f[pos / 8] & (1u8 << ((pos % 8) as u8)) != 0
}

/// Every probe of hash `h` hits a set bit.
pub open spec fn may_contain_spec(f: Seq<u8>, k: int, h: u32) -> bool {
    forall|i: nat| i < k ==> #[trigger] bit_set(f, (probe(h, i) as int) % (f.len() as int * 8))
}

proof fn lemma_or_keeps(x: u8, m: u8, b: u8)
    ensures
        x & b != 0 ==> (x | m) & b != 0,
        m != 0 && m == b ==> (x | m) & b != 0,
{
    assert(x & b != 0 ==> (x | m) & b != 0) by (bit_vector);
    assert(m != 0 && m == b ==> (x | m) & b != 0) by (bit_vector);
}

proof fn lemma_shift_nonzero(s: u8)
    requires
        s < 8,
    ensures
        (1u8 << s) != 0,
{
    assert(s < 8 ==> (1u8 << s) != 0) by (bit_vector);
}

fn set_bit(f: &mut Vec<u8>, pos: usize)
    requires
        pos / 8 < old(f)@.len(),
    ensures
        final(f)@.len() == old(f)@.len(),
        bit_set(final(f)@, pos as int),
        forall|p: int| 0 <= p / 8 < old(f)@.len() && #[trigger] bit_set(old(f)@, p) ==> bit_set(final(f)@, p),
{
    let byte = pos / 8;
    let mask: u8 = 1u8 << ((pos % 8) as u8);
    proof {
        lemma_shift_nonzero((pos % 8) as u8);
    }
    let old_byte = f[byte];
    f.set(byte, old_byte | mask);
    proof {
        lemma_or_keeps(old_byte, mask, mask);
        assert forall|p: int| 0 <= p / 8 < old(f)@.len() && #[trigger] bit_set(old(f)@, p) implies bit_set(
            final(f)@,
            p,
        ) by {
            if p / 8 == byte as int {
                lemma_or_keeps(old_byte, mask, 1u8 << ((p % 8) as u8));
            }
        }
    }
}

impl Bloom {
    /// Builds a filter in which every hash of `keys` probes only set bits.
    pub fn build_from_key_hashes(keys: &[u32], bits_per_key: usize) -> (r: Bloom)
        requires
            keys@.len() * bits_per_key + 71 <= usize::MAX,
            bits_per_key * 69 <= usize::MAX,
        ensures
            r.k == probes_for(bits_per_key as int),
            r.filter@.len() == filter_bytes(keys@.len() as int, bits_per_key as int),
            forall|j: int| 0 <= j < keys@.len() ==> may_contain_spec(r.filter@, r.k as int, #[trigger] keys@[j]),
    {
        let k0 = bits_per_key * 69 / 100;
        let k: usize = if k0 < 1 {
            1
        } else if k0 > 30 {
            30
        } else {
            k0
        };
        let want = keys.len() * bits_per_key;
        let nbits0 = if want < 64 {
            64
        } else {
            want
        };
        let nbytes = (nbits0 + 7) / 8;
        let nbits = nbytes * 8;
        let mut filter: Vec<u8> = Vec::new();
        let mut z: usize = 0;
        while z < nbytes
            invariant
                z <= nbytes,
                filter@.len() == z,
            decreases nbytes - z,
        {
            filter.push(0);
            z = z + 1;
        }
        let mut j: usize = 0;
        while j < keys.len()
            invariant
                j <= keys@.len(),
                filter@.len() == nbytes,
                nbits == nbytes * 8,
                nbytes >= 8,
                1 <= k <= 30,
                forall|q: int| 0 <= q < j ==> may_contain_spec(filter@, k as int, #[trigger] keys@[q]),
            decreases keys@.len() - j,
        {
            let h0 = keys[j];
            let delta = (h0 >> 17u32) | (h0 << 15u32);
            let mut h = h0;
            let mut t: usize = 0;
            while t < k
                invariant
                    t <= k <= 30,
                    filter@.len() == nbytes,
                    nbits == nbytes * 8,
                    nbytes >= 8,
                    h == probe(h0, t as nat),
                    delta == probe_delta(h0),
                    forall|q: int| 0 <= q < j ==> may_contain_spec(filter@, k as int, #[trigger] keys@[q]),
                    forall|i: nat| i < t ==> #[trigger] bit_set(filter@, (probe(h0, i) as int) % (filter@.len() as int * 8)),
                decreases k - t,
            {
                let pos = (h as usize) % nbits;
                let ghost before = filter@;
                set_bit(&mut filter, pos);
                proof {
                    assert forall|q: int| 0 <= q < j implies may_contain_spec(filter@, k as int, #[trigger] keys@[q]) by {
                        assert forall|i: nat| i < k implies #[trigger] bit_set(filter@, (probe(keys@[q], i) as int) % (filter@.len() as int * 8)) by {
                            assert(bit_set(before, (probe(keys@[q], i) as int) % (before.len() as int * 8)));
                        }
                    }
                    assert forall|i: nat| i < t + 1 implies #[trigger] bit_set(filter@, (probe(h0, i) as int) % (filter@.len() as int * 8)) by {
                        if i < t {
                            assert(bit_set(before, (probe(h0, i) as int) % (before.len() as int * 8)));
                        }
                    }
                }
                h = h.wrapping_add(delta);
                t = t + 1;
            }
            j = j + 1;
        }
        Bloom { filter, k: k as u8 }
    }

    /// Whether a key with hash `h` may be in the set: false only when some
    /// probe hits a clear bit. A filter with more than 30 probes, or with no
    /// bits, rules nothing out.
    pub fn may_contain(&self, h: u32) -> (r: bool)
        ensures
            self.k > 30 || self.filter@.len() == 0 ==> r,
            self.k <= 30 && self.filter@.len() > 0 ==> r == may_contain_spec(self.filter@, self.k as int, h),
    {
        if self.k > 30 || self.filter.len() == 0 {
            return true;
        }
        let nbits: u128 = self.filter.len() as u128 * 8;
        let delta = (h >> 17u32) | (h << 15u32);
        let mut x = h;
        let mut t: u8 = 0;
        while t < self.k
            invariant
                t <= self.k <= 30,
                nbits == self.filter@.len() * 8,
                self.filter@.len() > 0,
                x == probe(h, t as nat),
                delta == probe_delta(h),
                forall|i: nat| i < t ==> #[trigger] bit_set(self.filter@, (probe(h, i) as int) % (self.filter@.len() as int * 8)),
            decreases self.k - t,
        {
            let pos = (x as u128) % nbits;
            let ghost p = (probe(h, t as nat) as int) % (self.filter@.len() as int * 8);
            assert(pos as int == p);
            assert(pos < nbits);
            assert(pos / 8 < self.filter@.len());
            let q = pos / 8;
            assert(q as int == p / 8);
            assert(q < self.filter.len() as u128);
            assert(self.filter@.len() <= usize::MAX);
            let idx = q as usize;
            assert(idx as int == q as int);
            let byte = self.filter[idx];
            let mask: u8 = 1u8 << ((pos % 8) as u8);
            assert(byte == self.filter@[p / 8]);
            assert(mask == 1u8 << ((p % 8) as u8));
            if byte & mask == 0 {
                assert(!bit_set(self.filter@, p));
                return false;
            }
            assert(bit_set(self.filter@, p));
            x = x.wrapping_add(delta);
            t = t + 1;
        }
        true
    }

    /// Appends the bit array, then the probe count.
    pub fn encode(&self, buf: &mut Vec<u8>)
        ensures
            final(buf)@ == old(buf)@ + self.filter@.push(self.k),
    {
        extend_from_range(buf, self.filter.as_slice(), 0, self.filter.len());
        buf.push(self.k);
        assert(self.filter@.subrange(0, self.filter@.len() as int) == self.filter@);
        assert(final(buf)@ =~= old(buf)@ + self.filter@.push(self.k));
    }

    /// Reads a filter back: all bytes but the last are the bit array.
    pub fn decode(buf: &[u8]) -> (r: Option<Bloom>)
        ensures
            r is Some <==> buf@.len() >= 1,
            r matches Some(b) ==> b.filter@.push(b.k) == buf@,
    {
        if buf.len() == 0 {
            return None;
        }
        let mut filter: Vec<u8> = Vec::new();
        extend_from_range(&mut filter, buf, 0, buf.len() - 1);
        let k = buf[buf.len() - 1];
        assert(filter@.push(k) =~= buf@);
        Some(Bloom { filter, k })
    }
}

} // verus!
