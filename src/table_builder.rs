use vstd::prelude::*;
use crate::block::encoded_block;
use crate::block_builder::{BlockBuilder, MAX_BLOCK_DATA};
use crate::bloom::{filter_bytes, may_contain_spec, probes_for, Bloom, BITS_PER_KEY_ONE_PERCENT};
use crate::codec::put_u32_be;
use crate::key::{copy_bytes, KeyVec};
use crate::table::{
    encoded_meta, meta_fits, meta_view, metas_ok, metas_view, sst_image, sst_metas, sst_opens, BlockMeta, SsTable,
    StorageError,
};

verus! {

/// What `farmhash::fingerprint64` gives for a byte string.
pub uninterp spec fn fingerprint64_of(s: Seq<u8>) -> u64;

/// Relies on `farmhash::fingerprint64`: a hash that depends on the bytes
/// alone, stable across versions and platforms, computed with wrapping
/// arithmetic only (so it cannot panic on overflow).
#[verifier::external_body]
fn key_fingerprint64(key: &[u8]) -> (r: u64)
    ensures
        r == fingerprint64_of(key@),
{
    farmhash::fingerprint64(key)
}

/// The 32-bit key hash the bloom filter uses: the low half of the 64-bit fingerprint.
pub open spec fn fingerprint32_of(s: Seq<u8>) -> u32 {
    (fingerprint64_of(s) & 0xFFFF_FFFF) as u32
}

/// The 32-bit key hash of `key`.
pub fn key_hash(key: &[u8]) -> (r: u32)
    ensures
        r == fingerprint32_of(key@),
{
    (key_fingerprint64(key) & 0xFFFF_FFFF) as u32
}

/// Bound on the data blocks of a table under construction; block offsets are 32-bit.
pub const MAX_TABLE_DATA: usize = 0x8000_0000;

pub open spec fn hashes_of(keys: Seq<Seq<u8>>) -> Seq<u32> {
    keys.map_values(|k: Seq<u8>| fingerprint32_of(k))
}

/// Builds a table from sorted entries, cutting blocks at the target size.
pub struct SsTableBuilder {
    builder: BlockBuilder,
    first_key: KeyVec,
    last_key: KeyVec,
    data: Vec<u8>,
    meta: Vec<BlockMeta>,
    block_size: usize,
    key_hash: Vec<u32>,
    keys: Ghost<Seq<Seq<u8>>>,
}

impl SsTableBuilder {
    /// The block being filled.
    pub closed spec fn current(&self) -> BlockBuilder {
        self.builder
    }

    /// Encoded blocks finished so far.
    pub closed spec fn data_view(&self) -> Seq<u8> {
        self.data@
    }

    /// Index records of the finished blocks.
    pub closed spec fn metas(&self) -> Seq<(usize, Seq<u8>, Seq<u8>)> {
        metas_view(self.meta@)
    }

    /// Key bytes of every entry added, in order.
    pub closed spec fn keys(&self) -> Seq<Seq<u8>> {
        self.keys@
    }

    pub closed spec fn key_hashes(&self) -> Seq<u32> {
        self.key_hash@
    }

    pub closed spec fn block_size_view(&self) -> usize {
        self.block_size
    }

    pub closed spec fn wf(&self) -> bool {
        &&& self.builder.wf()
        &&& self.builder.target_size() == self.block_size
        &&& self.meta@.len() == 0 ==> self.data@.len() == 0
        &&& self.meta@.len() > 0 ==> metas_ok(metas_view(self.meta@), self.data@.len() as int)
        &&& self.data@.len() <= MAX_TABLE_DATA + 2 * MAX_BLOCK_DATA
        &&& self.meta@.len() * 14 <= self.data@.len()
        &&& forall|i: int|
            0 <= i < self.meta@.len() ==> (#[trigger] self.meta@[i]).first_key@.len() <= 0xFFFF
                && self.meta@[i].last_key@.len() <= 0xFFFF
        &&& self.builder.num_entries() > 0 ==> self.first_key.key@ == self.builder.entries()[0].0.0
            && self.last_key.key@ == self.builder.entries().last().0.0
        &&& self.first_key.key@.len() <= 0xFFFF
        &&& self.last_key.key@.len() <= 0xFFFF
        &&& self.key_hash@ == hashes_of(self.keys@)
        &&& self.keys@.len() * 14 <= self.data@.len() + self.builder.data_view().len()
    }

    /// The index record that finishing the current block adds.
    pub open spec fn next_meta(&self) -> (usize, Seq<u8>, Seq<u8>) {
        (
            self.data_view().len() as usize,
            self.current().entries()[0].0.0,
            self.current().entries().last().0.0,
        )
    }

    /// Creates a builder with a target block size.
    pub fn new(block_size: usize) -> (r: Self)
        ensures
            r.wf(),
            r.data_view().len() == 0,
            r.metas().len() == 0,
            r.keys().len() == 0,
            r.current().num_entries() == 0,
            r.current().target_size() == block_size,
            r.block_size_view() == block_size,
    {
        let r = Self {
            builder: BlockBuilder::new(block_size),
            first_key: KeyVec::new(),
            last_key: KeyVec::new(),
            data: Vec::new(),
            meta: Vec::new(),
            block_size,
            key_hash: Vec::new(),
            keys: Ghost(Seq::empty()),
        };
        assert(hashes_of(Seq::<Seq<u8>>::empty()) =~= Seq::<u32>::empty());
        r
    }

    /// Encodes the current block onto the data and records its index entry.
    #[verifier::rlimit(100)]
    pub fn finish_block(&mut self)
        requires
            old(self).wf(),
            old(self).current().num_entries() > 0,
            old(self).data_view().len() <= MAX_TABLE_DATA,
        ensures
            final(self).wf(),
            final(self).data_view() == old(self).data_view() + encoded_block(
                old(self).current().data_view(),
                old(self).current().offsets_view(),
            ),
            final(self).metas() == old(self).metas().push(old(self).next_meta()),
            final(self).current().num_entries() == 0,
            final(self).current().target_size() == old(self).current().target_size(),
            final(self).keys() == old(self).keys(),
            final(self).key_hashes() == old(self).key_hashes(),
            final(self).block_size_view() == old(self).block_size_view(),
    {
        proof {
            self.builder.lemma_bounds();
        }
        let mut builder = BlockBuilder::new(self.block_size);
        core::mem::swap(&mut self.builder, &mut builder);
        let block = builder.build();
        let offset = self.data.len();
        let m = BlockMeta {
            offset,
            first_key: copy_bytes(self.first_key.key_ref()),
            last_key: copy_bytes(self.last_key.key_ref()),
        };
        let ghost before = self.meta@;
        self.meta.push(m);
        self.first_key = KeyVec::new();
        self.last_key = KeyVec::new();
        let enc = block.encode();
        crate::key::extend_from_range(&mut self.data, enc.as_slice(), 0, enc.len());
        proof {
            crate::block::lemma_u16s_len(block.offsets@);
            assert(enc@.subrange(0, enc@.len() as int) == enc@);
            assert(metas_view(self.meta@) =~= metas_view(before).push(meta_view(m)));
            let ms = metas_view(self.meta@);
            if before.len() > 0 {
                assert(metas_view(before).last().0 < offset);
                assert(ms[before.len() - 1] == metas_view(before).last());
            }
            assert forall|i: int| 0 <= i < ms.len() - 1 implies (#[trigger] ms[i]).0 < ms[i + 1].0 by {
                if i < before.len() - 1 {
                    assert(ms[i] == metas_view(before)[i]);
                    assert(ms[i + 1] == metas_view(before)[i + 1]);
                }
            }
            assert forall|i: int| 0 <= i < self.meta@.len() implies (#[trigger] self.meta@[i]).first_key@.len()
                <= 0xFFFF && self.meta@[i].last_key@.len() <= 0xFFFF by {
                if i < before.len() {
                    assert(self.meta@[i] == before[i]);
                }
            }
        }
    }

    /// Adds an entry, finishing the current block first when it is full; a
    /// fresh block takes any entry.
    pub fn add(&mut self, key: &KeyVec, value: &[u8])
        requires
            old(self).wf(),
            key.key@.len() <= 0xFFFF,
            value@.len() <= 0xFFFF,
            old(self).data_view().len() <= MAX_TABLE_DATA,
        ensures
            final(self).wf(),
            final(self).keys() == old(self).keys().push(key.key@),
            final(self).key_hashes() == old(self).key_hashes().push(fingerprint32_of(key.key@)),
            final(self).block_size_view() == old(self).block_size_view(),
            old(self).current().accepts(key.key@, value@) ==> final(self).data_view() == old(
                self,
            ).data_view() && final(self).metas() == old(self).metas() && final(self).current().entries()
                == old(self).current().entries().push((key@, value@)),
            !old(self).current().accepts(key.key@, value@) ==> final(self).data_view() == old(
                self,
            ).data_view() + encoded_block(
                old(self).current().data_view(),
                old(self).current().offsets_view(),
            ) && final(self).metas() == old(self).metas().push(old(self).next_meta())
                && final(self).current().entries() == seq![(key@, value@)],
    {
        proof {
            self.builder.lemma_bounds();
        }
        let ghost keys0 = self.keys@;
        let mut starts_block = self.builder.is_empty();
        if !self.builder.add(key, value) {
            starts_block = true;
            self.finish_block();
            proof {
                self.builder.lemma_bounds();
            }
            let ok = self.builder.add(key, value);
            assert(ok);
            assert(Seq::<((Seq<u8>, u64), Seq<u8>)>::empty().push((key@, value@)) =~= seq![(key@, value@)]);
        }
        let h = key_hash(key.key_ref());
        self.key_hash.push(h);
        self.keys = Ghost(keys0.push(key.key@));
        if starts_block {
            self.first_key = key.clone_key();
        }
        self.last_key = key.clone_key();
        proof {
            self.builder.lemma_bounds();
            assert(hashes_of(self.keys@) =~= hashes_of(keys0).push(fingerprint32_of(key.key@)));
        }
    }

    /// The data and index once the current block, if it holds entries, is finished.
    pub open spec fn finished(&self) -> (Seq<u8>, Seq<(usize, Seq<u8>, Seq<u8>)>) {
        if self.current().num_entries() > 0 {
            (
                self.data_view() + encoded_block(
                    self.current().data_view(),
                    self.current().offsets_view(),
                ),
                self.metas().push(self.next_meta()),
            )
        } else {
            (self.data_view(), self.metas())
        }
    }

    /// The table that `build` writes fits the 32-bit offsets of its footer.
    pub open spec fn image_fits(&self) -> bool {
        self.finished().0.len() + encoded_meta(self.finished().1).len() + filter_bytes(
            self.keys().len() as int,
            BITS_PER_KEY_ONE_PERCENT as int,
        ) + 9 <= 0xFFFF_FFFF
    }

    /// Finishes the table: the blocks, the block-meta section and its offset,
    /// then a bloom filter over the key hashes and its offset.
    #[verifier::spinoff_prover]
    #[verifier::rlimit(100)]
    pub fn build(self, id: usize) -> (r: Result<SsTable, StorageError>)
        requires
            self.wf(),
            self.metas().len() > 0 || self.current().num_entries() > 0,
            self.data_view().len() <= MAX_TABLE_DATA,
        ensures
            r is Ok <==> self.image_fits(),
            r is Err ==> r == Err::<SsTable, StorageError>(StorageError::TableTooLarge),
            r matches Ok(t) ==> {
                &&& t.wf()
                &&& t.id_view() == id
                &&& t.metas() == self.finished().1
                &&& t.meta_offset_view() == self.finished().0.len()
                &&& t.max_ts_view() == 0
                &&& meta_fits(t.metas())
                &&& sst_opens(t.file_view())
                &&& sst_metas(t.file_view()) == t.metas()
                &&& t.bloom_view() matches Some((f, k)) && {
                    &&& t.file_view() == sst_image(self.finished().0, self.finished().1, f.push(k))
                    &&& k == probes_for(BITS_PER_KEY_ONE_PERCENT as int)
                    &&& f.len() == filter_bytes(self.keys().len() as int, BITS_PER_KEY_ONE_PERCENT as int)
                    &&& forall|j: int|
                        0 <= j < self.keys().len() ==> may_contain_spec(
                            f,
                            k as int,
                            #[trigger] fingerprint32_of(self.keys()[j]),
                        )
                }
            },
    {
        let mut this = self;
        if !this.builder.is_empty() {
            this.finish_block();
        }
        assert(this.data@ == self.finished().0);
        assert(metas_view(this.meta@) == self.finished().1);
        let ghost ms = metas_view(this.meta@);
        proof {
            assert forall|i: int| 0 <= i < ms.len() implies (#[trigger] ms[i]).0 <= 0xFFFF_FFFF && ms[i].1.len()
                <= 0xFFFF && ms[i].2.len() <= 0xFFFF by {
                assert(ms[i] == meta_view(this.meta@[i]));
                crate::table::lemma_offsets_below(ms, this.data@.len() as int, i);
            }
        }
        proof {
            this.builder.lemma_bounds();
            assert(this.key_hash@.len() == this.keys@.len());
            assert(this.keys@.len() * 14 <= MAX_TABLE_DATA + 3 * MAX_BLOCK_DATA);
            assert(this.key_hash@.len() * BITS_PER_KEY_ONE_PERCENT + 71 <= 0xFFFF_FFFF);
        }
        let mut buf = this.data;
        let meta_offset = buf.len();
        BlockMeta::encode_block_meta(this.meta.as_slice(), &mut buf);
        let bloom = Bloom::build_from_key_hashes(this.key_hash.as_slice(), BITS_PER_KEY_ONE_PERCENT);
        if buf.len() > 0xFFFF_FFFF - 9 || bloom.filter.len() > 0xFFFF_FFFF - 9 - buf.len() {
            return Err(StorageError::TableTooLarge);
        }
        put_u32_be(&mut buf, meta_offset as u32);
        let bloom_offset = buf.len();
        bloom.encode(&mut buf);
        put_u32_be(&mut buf, bloom_offset as u32);
        let n = this.meta.len();
        let first_key = copy_bytes(this.meta[0].first_key.as_slice());
        let last_key = copy_bytes(this.meta[n - 1].last_key.as_slice());
        proof {
            assert(ms[0] == meta_view(this.meta@[0]));
            assert(ms.last() == meta_view(this.meta@[n - 1]));
            assert forall|j: int| 0 <= j < self.keys().len() implies may_contain_spec(
                bloom.filter@,
                bloom.k as int,
                #[trigger] fingerprint32_of(self.keys()[j]),
            ) by {
                assert(this.key_hash@[j] == fingerprint32_of(this.keys@[j]));
            }
        }
        proof {
            crate::table::lemma_sst_round_trip(this.data@, ms, bloom.filter@.push(bloom.k));
        }
        Ok(SsTable::from_parts(buf, this.meta, meta_offset, id, first_key, last_key, bloom))
    }

    /// Size of the finished blocks plus the block being filled.
    pub fn estimated_size(&self) -> (r: usize)
        requires
            self.wf(),
        ensures
            r == self.data_view().len() + self.current().data_view().len() + 2
                * self.current().num_entries() + 2,
    {
        proof {
            self.builder.lemma_bounds();
        }
        self.data.len() + self.builder.block_size()
    }
}

} // verus!
