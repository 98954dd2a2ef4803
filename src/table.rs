use vstd::prelude::*;
use crate::codec::{
    get_u16_be, get_u32_be, lemma_be_u16_bytes, lemma_be_u32_bytes, lemma_u16_be, lemma_u32_be,
    put_u16_be, put_u32_be, u16_be, u16_be_at, u32_be, u32_be_at,
};
use crate::key::{extend_from_range, copy_bytes};
use crate::bloom::Bloom;
use crate::block::{decodable, entries_region_len, offsets_in, stored_count, Block};
use crate::key::{compare_bytes, key_lt, Cmp, KeyVec};
use std::sync::Arc;

verus! {

/// Index record of one data block.
pub struct BlockMeta {
    /// Offset of the block in the table.
    pub offset: usize,
    /// Key bytes of the block's first entry.
    pub first_key: Vec<u8>,
    /// Key bytes of the block's last entry.
    pub last_key: Vec<u8>,
}

pub open spec fn meta_view(m: BlockMeta) -> (usize, Seq<u8>, Seq<u8>) {
    (m.offset, m.first_key@, m.last_key@)
}

pub open spec fn metas_view(v: Seq<BlockMeta>) -> Seq<(usize, Seq<u8>, Seq<u8>)> {
    v.map_values(|m: BlockMeta| meta_view(m))
}

/// One record: offset, then each key with its length, big-endian.
#[verifier::opaque]
pub open spec fn meta_record(m: (usize, Seq<u8>, Seq<u8>)) -> Seq<u8> {
    u32_be(m.0 as u32) + u16_be(m.1.len() as u16) + m.1 + u16_be(m.2.len() as u16) + m.2
}

pub open spec fn meta_records(ms: Seq<(usize, Seq<u8>, Seq<u8>)>) -> Seq<u8>
    decreases ms.len(),
{
    if ms.len() == 0 {
        Seq::empty()
    } else {
        meta_records(ms.drop_last()) + meta_record(ms.last())
    }
}

/// The block-meta section: the record count, then the records.
pub open spec fn encoded_meta(ms: Seq<(usize, Seq<u8>, Seq<u8>)>) -> Seq<u8> {
    u32_be(ms.len() as u32) + meta_records(ms)
}

/// Every field fits the width that the section gives it.
pub open spec fn meta_fits(ms: Seq<(usize, Seq<u8>, Seq<u8>)>) -> bool {
    &&& ms.len() <= 0xFFFF_FFFF
    &&& forall|i: int|
        0 <= i < ms.len() ==> (#[trigger] ms[i]).0 <= 0xFFFF_FFFF && ms[i].1.len() <= 0xFFFF
            && ms[i].2.len() <= 0xFFFF
}

proof fn lemma_records_step(ms: Seq<(usize, Seq<u8>, Seq<u8>)>, j: int)
    requires
        0 <= j < ms.len(),
    ensures
        meta_records(ms.take(j + 1)) == meta_records(ms.take(j)) + meta_record(ms[j]),
{
    assert(ms.take(j + 1).drop_last() =~= ms.take(j));
}

proof fn lemma_records_prefix(ms: Seq<(usize, Seq<u8>, Seq<u8>)>, j: int)
    requires
        0 <= j <= ms.len(),
    ensures
        meta_records(ms.take(j)).len() <= meta_records(ms).len(),
        meta_records(ms).subrange(0, meta_records(ms.take(j)).len() as int) == meta_records(
            ms.take(j),
        ),
    decreases ms.len() - j,
{
    if j == ms.len() {
        assert(ms.take(j) =~= ms);
    } else {
        lemma_records_prefix(ms, j + 1);
        lemma_records_step(ms, j);
        let a = meta_records(ms.take(j));
        let b = meta_records(ms.take(j + 1));
        assert(meta_records(ms).subrange(0, a.len() as int) =~= b.subrange(0, a.len() as int));
        assert(b.subrange(0, a.len() as int) =~= a);
    }
}

proof fn lemma_record_fields(m: (usize, Seq<u8>, Seq<u8>))
    requires
        m.0 <= 0xFFFF_FFFF,
        m.1.len() <= 0xFFFF,
        m.2.len() <= 0xFFFF,
    ensures
        ({
            let r = meta_record(m);
            let fl = m.1.len() as int;
            &&& r.len() == 8 + m.1.len() + m.2.len()
            &&& u32_be_at(r, 0) == m.0
            &&& u16_be_at(r, 4) == m.1.len()
            &&& r.subrange(6, 6 + fl) == m.1
            &&& u16_be_at(r, 6 + fl) == m.2.len()
            &&& r.subrange(8 + fl, r.len() as int) == m.2
        }),
{
    reveal(meta_record);
    let r = meta_record(m);
    let fl = m.1.len() as int;
    lemma_u32_be(m.0 as u32);
    lemma_u16_be(m.1.len() as u16);
    lemma_u16_be(m.2.len() as u16);
    assert(r[0] == u32_be(m.0 as u32)[0] && r[1] == u32_be(m.0 as u32)[1]);
    assert(r[2] == u32_be(m.0 as u32)[2] && r[3] == u32_be(m.0 as u32)[3]);
    assert(r[4] == u16_be(m.1.len() as u16)[0] && r[5] == u16_be(m.1.len() as u16)[1]);
    assert(r.subrange(6, 6 + fl) =~= m.1);
    assert(r[6 + fl] == u16_be(m.2.len() as u16)[0] && r[7 + fl] == u16_be(m.2.len() as u16)[1]);
    assert(r.subrange(8 + fl, r.len() as int) =~= m.2);
}

/// Where record `j` lies in the encoding, and what it holds there.
proof fn lemma_record_at(ms: Seq<(usize, Seq<u8>, Seq<u8>)>, j: int)
    requires
        meta_fits(ms),
        0 <= j < ms.len(),
    ensures
        ({
            let big = meta_records(ms);
            let rs = meta_records(ms.take(j)).len() as int;
            let rec = meta_record(ms[j]);
            &&& rs + rec.len() <= big.len()
            &&& big.subrange(rs, rs + rec.len()) == rec
        }),
{
    lemma_records_prefix(ms, j);
    lemma_records_prefix(ms, j + 1);
    lemma_records_step(ms, j);
    let big = meta_records(ms);
    let rs = meta_records(ms.take(j)).len() as int;
    let rec = meta_record(ms[j]);
    let b1 = meta_records(ms.take(j + 1));
    assert(big.subrange(rs, rs + rec.len()) =~= b1.subrange(rs, rs + rec.len()));
    assert(b1.subrange(rs, rs + rec.len()) =~= rec);
}

proof fn lemma_meta_same_from(a: Seq<(usize, Seq<u8>, Seq<u8>)>, b: Seq<(usize, Seq<u8>, Seq<u8>)>, j: int)
    requires
        0 <= j <= a.len() == b.len(),
        a.take(j) == b.take(j),
        meta_records(a) == meta_records(b),
        meta_fits(a),
        meta_fits(b),
    ensures
        a == b,
    decreases a.len() - j,
{
    if j == a.len() {
        assert(a.take(j) =~= a);
        assert(b.take(j) =~= b);
    } else {
        lemma_record_at(a, j);
        lemma_record_at(b, j);
        lemma_record_fields(a[j]);
        lemma_record_fields(b[j]);
        let rs = meta_records(a.take(j)).len() as int;
        let ra = meta_record(a[j]);
        let rb = meta_record(b[j]);
        let big = meta_records(a);
        assert forall|q: int| 0 <= q < 8 && q < ra.len() && q < rb.len() implies #[trigger] ra[q] == rb[q] by {
            assert(ra[q] == big.subrange(rs, rs + ra.len())[q]);
            assert(rb[q] == big.subrange(rs, rs + rb.len())[q]);
        }
        assert(u32_be_at(ra, 0) == u32_be_at(rb, 0));
        assert(u16_be_at(ra, 4) == u16_be_at(rb, 4));
        let fl = a[j].1.len() as int;
        assert(ra.subrange(0, 6 + fl) =~= rb.subrange(0, 6 + fl)) by {
            assert forall|q: int| 0 <= q < 6 + fl implies ra[q] == rb[q] by {
                assert(ra[q] == big.subrange(rs, rs + ra.len())[q]);
                assert(rb[q] == big.subrange(rs, rs + rb.len())[q]);
            }
        }
        assert(ra[6 + fl] == rb[6 + fl]) by {
            assert(ra[6 + fl] == big.subrange(rs, rs + ra.len())[6 + fl]);
            assert(rb[6 + fl] == big.subrange(rs, rs + rb.len())[6 + fl]);
        }
        assert(ra[7 + fl] == rb[7 + fl]) by {
            assert(ra[7 + fl] == big.subrange(rs, rs + ra.len())[7 + fl]);
            assert(rb[7 + fl] == big.subrange(rs, rs + rb.len())[7 + fl]);
        }
        assert(ra.len() == rb.len());
        assert(ra =~= rb) by {
            assert forall|q: int| 0 <= q < ra.len() implies ra[q] == rb[q] by {
                assert(ra[q] == big.subrange(rs, rs + ra.len())[q]);
                assert(rb[q] == big.subrange(rs, rs + rb.len())[q]);
            }
        }
        assert(a[j].1 =~= ra.subrange(6, 6 + fl));
        assert(b[j].1 =~= rb.subrange(6, 6 + fl));
        assert(a[j] == b[j]);
        assert(a.take(j + 1) =~= a.take(j).push(a[j]));
        assert(b.take(j + 1) =~= b.take(j).push(b[j]));
        lemma_meta_same_from(a, b, j + 1);
    }
}

/// The block-meta section determines the records it was made from.
pub proof fn lemma_meta_injective(a: Seq<(usize, Seq<u8>, Seq<u8>)>, b: Seq<(usize, Seq<u8>, Seq<u8>)>)
    requires
        meta_fits(a),
        meta_fits(b),
        encoded_meta(a) == encoded_meta(b),
    ensures
        a == b,
{
    lemma_u32_be(a.len() as u32);
    lemma_u32_be(b.len() as u32);
    let ea = encoded_meta(a);
    assert(ea[0] == u32_be(a.len() as u32)[0] && ea[0] == u32_be(b.len() as u32)[0]);
    assert(ea[1] == u32_be(a.len() as u32)[1] && ea[1] == u32_be(b.len() as u32)[1]);
    assert(ea[2] == u32_be(a.len() as u32)[2] && ea[2] == u32_be(b.len() as u32)[2]);
    assert(ea[3] == u32_be(a.len() as u32)[3] && ea[3] == u32_be(b.len() as u32)[3]);
    assert(a.len() == b.len());
    let big = meta_records(a);
    assert(big =~= ea.subrange(4, ea.len() as int));
    assert(meta_records(b) =~= ea.subrange(4, ea.len() as int));
    assert(a.take(0) =~= b.take(0));
    lemma_meta_same_from(a, b, 0);
}

/// Failures of the storage layer.
#[derive(Debug, Clone, Copy, PartialEq, Eq)]
pub enum StorageError {
    /// The lengths or offsets in the bytes do not fit the bytes.
    CorruptSst,
    /// A data block does not decode.
    CorruptBlock,
    /// The table would not fit the 32-bit offsets of its footer.
    TableTooLarge,
    /// A cursor was advanced after it had failed.
    TaintedCursor,
}

#[verifier::spinoff_prover]
#[verifier::rlimit(100)]
proof fn lemma_record_reads(buf: Seq<u8>, pos: int, t: (usize, Seq<u8>, Seq<u8>))
    requires
        0 <= pos,
        t.0 <= 0xFFFF_FFFF,
        t.1.len() <= 0xFFFF,
        t.2.len() <= 0xFFFF,
        pos + meta_record(t).len() <= buf.len(),
        buf.subrange(pos, pos + meta_record(t).len()) == meta_record(t),
    ensures
        pos + 8 + t.1.len() + t.2.len() <= buf.len(),
        u32_be_at(buf, pos) == t.0,
        u16_be_at(buf, pos + 4) == t.1.len(),
        u16_be_at(buf, pos + 6 + t.1.len()) == t.2.len(),
        buf.subrange(pos + 6, pos + 6 + t.1.len()) == t.1,
        buf.subrange(pos + 8 + t.1.len(), pos + 8 + t.1.len() + t.2.len()) == t.2,
{
    lemma_record_fields(t);
    let rec = meta_record(t);
    let fl = t.1.len() as int;
    let sub = buf.subrange(pos, pos + rec.len());
    assert(buf[pos] == sub[0] && buf[pos + 1] == sub[1] && buf[pos + 2] == sub[2] && buf[pos + 3] == sub[3]);
    assert(buf[pos + 4] == sub[4] && buf[pos + 5] == sub[5]);
    assert(buf[pos + 6 + fl] == sub[6 + fl] && buf[pos + 7 + fl] == sub[7 + fl]);
    assert(u32_be_at(buf, pos) == u32_be_at(rec, 0));
    assert(u16_be_at(buf, pos + 4) == u16_be_at(rec, 4));
    assert(u16_be_at(buf, pos + 6 + fl) == u16_be_at(rec, 6 + fl));
    assert(buf.subrange(pos + 6, pos + 6 + fl) =~= rec.subrange(6, 6 + fl));
    assert(buf.subrange(pos + 8 + fl, pos + 8 + fl + t.2.len()) =~= rec.subrange(8 + fl, rec.len() as int));
}

/// Reads one record at `pos`, returning it and the position after it.
fn parse_record(buf: &[u8], pos: usize) -> (r: Option<(BlockMeta, usize)>)
    requires
        pos <= buf@.len(),
    ensures
        r matches Some((m, np)) ==> pos <= np <= buf@.len() && buf@.subrange(pos as int, np as int)
            == meta_record(meta_view(m)) && m.offset <= 0xFFFF_FFFF && m.first_key@.len() <= 0xFFFF
            && m.last_key@.len() <= 0xFFFF,
        forall|t: (usize, Seq<u8>, Seq<u8>)|
            t.0 <= 0xFFFF_FFFF && t.1.len() <= 0xFFFF && t.2.len() <= 0xFFFF && pos
                + meta_record(t).len() <= buf@.len() && buf@.subrange(
                pos as int,
                pos + meta_record(t).len(),
            ) == #[trigger] meta_record(t) ==> (r matches Some((m, np)) && meta_view(m) == t && np
                == pos + meta_record(t).len()),
{
    if buf.len() - pos < 6 {
        proof {
            assert forall|t: (usize, Seq<u8>, Seq<u8>)|
                t.0 <= 0xFFFF_FFFF && t.1.len() <= 0xFFFF && t.2.len() <= 0xFFFF && pos
                    + meta_record(t).len() <= buf@.len() implies buf@.subrange(
                    pos as int,
                    pos + meta_record(t).len(),
                ) != #[trigger] meta_record(t) by {
                lemma_record_fields(t);
                if buf@.subrange(pos as int, pos + meta_record(t).len()) == meta_record(t) {
                    lemma_record_reads(buf@, pos as int, t);
                }
            }
        }
        return None;
    }
    let offset = get_u32_be(buf, pos) as usize;
    let first_len = get_u16_be(buf, pos + 4) as usize;
    if buf.len() - pos - 6 < first_len + 2 {
        proof {
            assert forall|t: (usize, Seq<u8>, Seq<u8>)|
                t.0 <= 0xFFFF_FFFF && t.1.len() <= 0xFFFF && t.2.len() <= 0xFFFF && pos
                    + meta_record(t).len() <= buf@.len() implies buf@.subrange(
                    pos as int,
                    pos + meta_record(t).len(),
                ) != #[trigger] meta_record(t) by {
                lemma_record_fields(t);
                if buf@.subrange(pos as int, pos + meta_record(t).len()) == meta_record(t) {
                    lemma_record_reads(buf@, pos as int, t);
                }
            }
        }
        return None;
    }
    let mut first_key: Vec<u8> = Vec::new();
    extend_from_range(&mut first_key, buf, pos + 6, pos + 6 + first_len);
    let last_len = get_u16_be(buf, pos + 6 + first_len) as usize;
    if buf.len() - pos - 8 - first_len < last_len {
        proof {
            assert forall|t: (usize, Seq<u8>, Seq<u8>)|
                t.0 <= 0xFFFF_FFFF && t.1.len() <= 0xFFFF && t.2.len() <= 0xFFFF && pos
                    + meta_record(t).len() <= buf@.len() implies buf@.subrange(
                    pos as int,
                    pos + meta_record(t).len(),
                ) != #[trigger] meta_record(t) by {
                lemma_record_fields(t);
                if buf@.subrange(pos as int, pos + meta_record(t).len()) == meta_record(t) {
                    lemma_record_reads(buf@, pos as int, t);
                }
            }
        }
        return None;
    }
    let mut last_key: Vec<u8> = Vec::new();
    extend_from_range(&mut last_key, buf, pos + 8 + first_len, pos + 8 + first_len + last_len);
    let m = BlockMeta { offset, first_key, last_key };
    let np = pos + 8 + first_len + last_len;
    proof {
        let mv = meta_view(m);
        lemma_be_u32_bytes(buf@[pos as int], buf@[pos + 1], buf@[pos + 2], buf@[pos + 3]);
        lemma_be_u16_bytes(buf@[pos + 4], buf@[pos + 5]);
        lemma_be_u16_bytes(buf@[pos + 6 + first_len], buf@[pos + 7 + first_len]);
        reveal(meta_record);
        assert(buf@.subrange(pos as int, np as int) =~= meta_record(mv));
        assert forall|t: (usize, Seq<u8>, Seq<u8>)|
            t.0 <= 0xFFFF_FFFF && t.1.len() <= 0xFFFF && t.2.len() <= 0xFFFF && pos
                + meta_record(t).len() <= buf@.len() && buf@.subrange(
                pos as int,
                pos + meta_record(t).len(),
            ) == #[trigger] meta_record(t) implies mv == t && np == pos + meta_record(t).len() by {
            lemma_record_reads(buf@, pos as int, t);
            assert(first_key@ =~= t.1);
            assert(last_key@ =~= t.2);
        }
    }
    Some((m, np))
}

impl BlockMeta {
    /// Appends the block-meta section for `block_meta` to `buf`.
    pub fn encode_block_meta(block_meta: &[BlockMeta], buf: &mut Vec<u8>)
        requires
            meta_fits(metas_view(block_meta@)),
        ensures
            final(buf)@ == old(buf)@ + encoded_meta(metas_view(block_meta@)),
    {
        let ghost ms = metas_view(block_meta@);
        put_u32_be(buf, block_meta.len() as u32);
        let mut i: usize = 0;
        while i < block_meta.len()
            invariant
                ms == metas_view(block_meta@),
                meta_fits(ms),
                i <= block_meta@.len(),
                buf@ == old(buf)@ + u32_be(block_meta@.len() as u32) + meta_records(ms.take(i as int)),
            decreases block_meta@.len() - i,
        {
            let m = &block_meta[i];
            assert(ms[i as int] == meta_view(*m));
            let ghost before = buf@;
            put_u32_be(buf, m.offset as u32);
            put_u16_be(buf, m.first_key.len() as u16);
            extend_from_range(buf, m.first_key.as_slice(), 0, m.first_key.len());
            put_u16_be(buf, m.last_key.len() as u16);
            extend_from_range(buf, m.last_key.as_slice(), 0, m.last_key.len());
            proof {
                lemma_records_step(ms, i as int);
                assert(m.first_key@.subrange(0, m.first_key@.len() as int) == m.first_key@);
                assert(m.last_key@.subrange(0, m.last_key@.len() as int) == m.last_key@);
                reveal(meta_record);
                assert(buf@ =~= before + meta_record(ms[i as int]));
            }
            i = i + 1;
        }
        assert(ms.take(block_meta@.len() as int) =~= ms);
    }

    /// Reads a block-meta section that fills `buf` exactly.
    pub fn decode_block_meta(buf: &[u8]) -> (r: Result<Vec<BlockMeta>, StorageError>)
        ensures
            r matches Ok(v) ==> buf@ == encoded_meta(metas_view(v@)) && meta_fits(metas_view(v@)),
            forall|ms: Seq<(usize, Seq<u8>, Seq<u8>)>|
                meta_fits(ms) && buf@ == #[trigger] encoded_meta(ms) ==> (r matches Ok(v)
                    && metas_view(v@) == ms),
    {
        let ghost has = exists|ms: Seq<(usize, Seq<u8>, Seq<u8>)>|
            meta_fits(ms) && buf@ == #[trigger] encoded_meta(ms);
        let ghost target = choose|ms: Seq<(usize, Seq<u8>, Seq<u8>)>|
            meta_fits(ms) && buf@ == #[trigger] encoded_meta(ms);
        proof {
            if has {
                lemma_u32_be(target.len() as u32);
            }
        }
        if buf.len() < 4 {
            return Err(StorageError::CorruptSst);
        }
        let count = get_u32_be(buf, 0) as usize;
        proof {
            lemma_be_u32_bytes(buf@[0], buf@[1], buf@[2], buf@[3]);
            assert(buf@.take(4) =~= u32_be(count as u32));
            if has {
                assert(buf@[0] == u32_be(target.len() as u32)[0]);
                assert(buf@[1] == u32_be(target.len() as u32)[1]);
                assert(buf@[2] == u32_be(target.len() as u32)[2]);
                assert(buf@[3] == u32_be(target.len() as u32)[3]);
                assert(count == target.len());
                assert(target.take(0) =~= Seq::<(usize, Seq<u8>, Seq<u8>)>::empty());
            }
        }
        let mut v: Vec<BlockMeta> = Vec::new();
        let mut pos: usize = 4;
        let mut i: usize = 0;
        assert(metas_view(v@) =~= Seq::<(usize, Seq<u8>, Seq<u8>)>::empty());
        assert(u32_be(count as u32) + meta_records(metas_view(v@)) =~= u32_be(count as u32));
        while i < count
            invariant
                4 <= pos <= buf@.len(),
                count <= 0xFFFF_FFFF,
                v@.len() == i,
                i <= count,
                buf@.take(pos as int) == u32_be(count as u32) + meta_records(metas_view(v@)),
                meta_fits(metas_view(v@)),
                has ==> count == target.len() && metas_view(v@) == target.take(i as int),
                has ==> meta_fits(target) && buf@ == encoded_meta(target),
                has == exists|ms: Seq<(usize, Seq<u8>, Seq<u8>)>|
                    meta_fits(ms) && buf@ == #[trigger] encoded_meta(ms),
            decreases count - i,
        {
            proof {
                if has {
                    lemma_records_prefix(target, i as int);
                    lemma_record_at(target, i as int);
                    let rs = meta_records(target.take(i as int)).len() as int;
                    let rec = meta_record(target[i as int]);
                    assert(buf@.take(pos as int).len() == pos);
                    assert(metas_view(v@) == target.take(i as int));
                    assert(u32_be(count as u32).len() == 4);
                    assert(pos == 4 + rs);
                    assert(buf@.subrange(pos as int, pos + rec.len()) =~= meta_records(target).subrange(
                        rs,
                        rs + rec.len(),
                    ));
                    assert(buf@.subrange(pos as int, pos + meta_record(target[i as int]).len())
                        == meta_record(target[i as int]));
                    assert(target[i as int].0 <= 0xFFFF_FFFF);
                }
            }
            let parsed = parse_record(buf, pos);
            let (m, new_pos) = match parsed {
                Some(x) => x,
                None => {
                    proof {
                        if has {
                            assert(buf@.subrange(pos as int, pos + meta_record(target[i as int]).len())
                                == meta_record(target[i as int]));
                            assert(parsed is Some);
                        }
                        assert forall|ms: Seq<(usize, Seq<u8>, Seq<u8>)>|
                            meta_fits(ms) && buf@ == #[trigger] encoded_meta(ms) implies false by {
                            assert(has);
                        }
                    }
                    return Err(StorageError::CorruptSst);
                },
            };
            let ghost before = v@;
            v.push(m);
            proof {
                let mv = meta_view(m);
                assert(metas_view(v@) =~= metas_view(before).push(mv));
                assert(metas_view(v@).drop_last() =~= metas_view(before));
                assert(buf@.take(new_pos as int) =~= buf@.take(pos as int) + buf@.subrange(
                    pos as int,
                    new_pos as int,
                ));
                assert forall|q: int| 0 <= q < metas_view(v@).len() implies (#[trigger] metas_view(
                    v@,
                )[q]).0 <= 0xFFFF_FFFF && metas_view(v@)[q].1.len() <= 0xFFFF && metas_view(v@)[q].2.len()
                    <= 0xFFFF by {
                    if q < i {
                        assert(metas_view(v@)[q] == metas_view(before)[q]);
                    }
                }
                if has {
                    assert(target.take(i + 1) =~= target.take(i as int).push(target[i as int]));
                }
            }
            pos = new_pos;
            i = i + 1;
        }
        if pos != buf.len() {
            proof {
                if has {
                    assert(target.take(count as int) =~= target);
                }
            }
            return Err(StorageError::CorruptSst);
        }
        proof {
            assert(buf@.take(pos as int) =~= buf@);
            assert forall|ms: Seq<(usize, Seq<u8>, Seq<u8>)>|
                meta_fits(ms) && buf@ == #[trigger] encoded_meta(ms) implies metas_view(v@) == ms by {
                lemma_meta_injective(ms, metas_view(v@));
            }
        }
        Ok(v)
    }
}

} // verus!

verus! {

/// Offsets start at zero, increase strictly, and stay below `end`.
pub open spec fn metas_ok(ms: Seq<(usize, Seq<u8>, Seq<u8>)>, end: int) -> bool {
    &&& ms.len() >= 1
    &&& ms[0].0 == 0
    &&& forall|i: int| 0 <= i < ms.len() - 1 ==> (#[trigger] ms[i]).0 < ms[i + 1].0
    &&& ms.last().0 < end
}

/// A table file: data blocks, the block-meta section, its offset, the bloom
/// filter section, and its offset; offsets big-endian.
pub open spec fn sst_image(blocks: Seq<u8>, ms: Seq<(usize, Seq<u8>, Seq<u8>)>, bloom: Seq<u8>) -> Seq<u8> {
    let meta = encoded_meta(ms);
    blocks + meta + u32_be(blocks.len() as u32) + bloom + u32_be((blocks.len() + meta.len() + 4) as u32)
}

pub open spec fn bloom_offset(f: Seq<u8>) -> int {
    u32_be_at(f, f.len() - 4) as int
}

pub open spec fn meta_offset(f: Seq<u8>) -> int {
    u32_be_at(f, bloom_offset(f) - 4) as int
}

/// The two footer offsets point inside the file, in order.
pub open spec fn footer_ok(f: Seq<u8>) -> bool {
    &&& f.len() >= 4
    &&& 4 <= bloom_offset(f) <= f.len() - 4
    &&& meta_offset(f) <= bloom_offset(f) - 4
}

pub open spec fn meta_section(f: Seq<u8>) -> Seq<u8> {
    f.subrange(meta_offset(f), bloom_offset(f) - 4)
}

pub open spec fn bloom_section(f: Seq<u8>) -> Seq<u8> {
    f.subrange(bloom_offset(f), f.len() - 4)
}

/// The block records that the meta section of `f` encodes.
pub open spec fn sst_metas(f: Seq<u8>) -> Seq<(usize, Seq<u8>, Seq<u8>)> {
    choose|ms: Seq<(usize, Seq<u8>, Seq<u8>)>| meta_fits(ms) && meta_section(f) == encoded_meta(ms)
}

/// `f` is a table that `SsTable::open` accepts.
pub open spec fn sst_opens(f: Seq<u8>) -> bool {
    &&& footer_ok(f)
    &&& bloom_section(f).len() >= 1
    &&& exists|ms: Seq<(usize, Seq<u8>, Seq<u8>)>|
        meta_fits(ms) && meta_section(f) == #[trigger] encoded_meta(ms) && metas_ok(ms, meta_offset(f))
}

/// Where block `i` ends: at the next block, or at the meta section.
pub open spec fn block_end(ms: Seq<(usize, Seq<u8>, Seq<u8>)>, meta_off: int, i: int) -> int {
    if i + 1 < ms.len() {
        ms[i + 1].0 as int
    } else {
        meta_off
    }
}

/// A sorted string table held in memory: the file's bytes and what was read from its tail.
pub struct SsTable {
    file: Vec<u8>,
    block_meta: Vec<BlockMeta>,
    block_meta_offset: usize,
    id: usize,
    first_key: Vec<u8>,
    last_key: Vec<u8>,
    bloom: Option<Bloom>,
    max_ts: u64,
}

impl SsTable {
    pub closed spec fn file_view(&self) -> Seq<u8> {
        self.file@
    }

    pub closed spec fn metas(&self) -> Seq<(usize, Seq<u8>, Seq<u8>)> {
        metas_view(self.block_meta@)
    }

    pub closed spec fn meta_offset_view(&self) -> int {
        self.block_meta_offset as int
    }

    pub closed spec fn id_view(&self) -> usize {
        self.id
    }

    pub closed spec fn bloom_view(&self) -> Option<(Seq<u8>, u8)> {
        match self.bloom {
            Some(b) => Some((b.filter@, b.k)),
            None => None,
        }
    }

    pub closed spec fn first_key_view(&self) -> Seq<u8> {
        self.first_key@
    }

    pub closed spec fn last_key_view(&self) -> Seq<u8> {
        self.last_key@
    }

    pub closed spec fn max_ts_view(&self) -> u64 {
        self.max_ts
    }

    /// The index is non-empty and ordered, every block lies before the meta
    /// section, and the cached keys are those of the first and last block.
    pub open spec fn wf(&self) -> bool {
        &&& metas_ok(self.metas(), self.meta_offset_view())
        &&& self.meta_offset_view() <= self.file_view().len()
        &&& self.first_key_view() == self.metas()[0].1
        &&& self.last_key_view() == self.metas().last().2
    }

    /// The bytes of block `i`.
    pub open spec fn block_bytes(&self, i: int) -> Seq<u8> {
        self.file_view().subrange(
            self.metas()[i].0 as int,
            block_end(self.metas(), self.meta_offset_view(), i),
        )
    }

    /// Reads a table from the bytes of its file.
    #[verifier::rlimit(100)]
    pub fn open(id: usize, file: Vec<u8>) -> (r: Result<SsTable, StorageError>)
        ensures
            r is Ok <==> sst_opens(file@),
            r matches Ok(t) ==> {
                &&& t.wf()
                &&& t.file_view() == file@
                &&& t.id_view() == id
                &&& t.metas() == sst_metas(file@)
                &&& t.meta_offset_view() == meta_offset(file@)
                &&& t.bloom_view() == Some((bloom_section(file@).drop_last(), bloom_section(file@).last()))
                &&& t.max_ts_view() == 0
            },
    {
        let len = file.len();
        if len < 4 {
            return Err(StorageError::CorruptSst);
        }
        let bloom_off = get_u32_be(file.as_slice(), len - 4) as usize;
        if bloom_off < 4 || bloom_off > len - 4 {
            return Err(StorageError::CorruptSst);
        }
        let meta_off = get_u32_be(file.as_slice(), bloom_off - 4) as usize;
        if meta_off > bloom_off - 4 {
            return Err(StorageError::CorruptSst);
        }
        let mut bloom_bytes: Vec<u8> = Vec::new();
        extend_from_range(&mut bloom_bytes, file.as_slice(), bloom_off, len - 4);
        let bloom = match Bloom::decode(bloom_bytes.as_slice()) {
            Some(b) => b,
            None => {
                return Err(StorageError::CorruptSst);
            },
        };
        let mut meta_bytes: Vec<u8> = Vec::new();
        extend_from_range(&mut meta_bytes, file.as_slice(), meta_off, bloom_off - 4);
        let block_meta = match BlockMeta::decode_block_meta(meta_bytes.as_slice()) {
            Ok(v) => v,
            Err(e) => {
                proof {
                    assert forall|ms: Seq<(usize, Seq<u8>, Seq<u8>)>|
                        meta_fits(ms) && meta_section(file@) == #[trigger] encoded_meta(ms) implies false by {
                        assert(meta_bytes@ == meta_section(file@));
                    }
                }
                return Err(e);
            },
        };
        let ghost ms = metas_view(block_meta@);
        proof {
            assert(meta_bytes@ == meta_section(file@));
            let c = sst_metas(file@);
            assert(meta_fits(c) && meta_section(file@) == encoded_meta(c));
            lemma_meta_injective(c, ms);
        }
        if !check_metas(&block_meta, meta_off) {
            proof {
                assert forall|m2: Seq<(usize, Seq<u8>, Seq<u8>)>|
                    meta_fits(m2) && meta_section(file@) == #[trigger] encoded_meta(m2) && metas_ok(
                        m2,
                        meta_off as int,
                    ) implies false by {
                    lemma_meta_injective(m2, ms);
                }
            }
            return Err(StorageError::CorruptSst);
        }
        let n = block_meta.len();
        let first_key = copy_bytes(block_meta[0].first_key.as_slice());
        let last_key = copy_bytes(block_meta[n - 1].last_key.as_slice());
        proof {
            assert(ms[0] == meta_view(block_meta@[0]));
            assert(ms.last() == meta_view(block_meta@[n - 1]));
        }
        Ok(SsTable {
            file,
            block_meta,
            block_meta_offset: meta_off,
            id,
            first_key,
            last_key,
            bloom: Some(bloom),
            max_ts: 0,
        })
    }
}

/// Block `b` is where a search for `k` starts: its first key is not above
/// `k` (or it is the first block), and the next block's first key is above `k`
/// (or there is none). Index keys carry timestamp zero.
pub open spec fn block_for_key(ms: Seq<(usize, Seq<u8>, Seq<u8>)>, k: (Seq<u8>, u64), b: int) -> bool {
    &&& 0 <= b < ms.len()
    &&& b == 0 || !key_lt(k, (ms[b].1, 0u64))
    &&& b + 1 == ms.len() || key_lt(k, (ms[b + 1].1, 0u64))
}

/// Whether `k` orders before the index key `(first, 0)`.
fn key_before_index_key(k: &KeyVec, first: &Vec<u8>) -> (r: bool)
    ensures
        r == key_lt(k@, (first@, 0u64)),
{
    match compare_bytes(k.key.as_slice(), first.as_slice()) {
        Cmp::Less => true,
        Cmp::Equal => k.ts > 0,
        Cmp::Greater => false,
    }
}

impl SsTable {
    /// A table made of its parts, with no maximum timestamp recorded.
    pub fn from_parts(
        file: Vec<u8>,
        block_meta: Vec<BlockMeta>,
        block_meta_offset: usize,
        id: usize,
        first_key: Vec<u8>,
        last_key: Vec<u8>,
        bloom: Bloom,
    ) -> (r: SsTable)
        ensures
            r.file_view() == file@,
            r.metas() == metas_view(block_meta@),
            r.meta_offset_view() == block_meta_offset,
            r.id_view() == id,
            r.first_key_view() == first_key@,
            r.last_key_view() == last_key@,
            r.bloom_view() == Some((bloom.filter@, bloom.k)),
            r.max_ts_view() == 0,
    {
        SsTable {
            file,
            block_meta,
            block_meta_offset,
            id,
            first_key,
            last_key,
            bloom: Some(bloom),
            max_ts: 0,
        }
    }

    /// Reads and decodes block `block_idx`.
    pub fn read_block(&self, block_idx: usize) -> (r: Result<Arc<Block>, StorageError>)
        requires
            self.wf(),
            block_idx < self.metas().len(),
        ensures
            r is Ok <==> decodable(self.block_bytes(block_idx as int)),
            r matches Ok(b) ==> b.wf() && b.data@ == self.block_bytes(block_idx as int).take(
                entries_region_len(self.block_bytes(block_idx as int)),
            ) && b.offsets@ == offsets_in(
                self.block_bytes(block_idx as int),
                entries_region_len(self.block_bytes(block_idx as int)),
                stored_count(self.block_bytes(block_idx as int)),
            ),
    {
        let ghost ms = self.metas();
        let n = self.block_meta.len();
        let begin = self.block_meta[block_idx].offset;
        let end = if block_idx + 1 < n {
            self.block_meta[block_idx + 1].offset
        } else {
            self.block_meta_offset
        };
        proof {
            assert(ms[block_idx as int] == meta_view(self.block_meta@[block_idx as int]));
            if block_idx + 1 < n {
                assert(ms[block_idx + 1] == meta_view(self.block_meta@[block_idx + 1]));
                assert(ms[block_idx as int].0 < ms[block_idx + 1].0);
                lemma_offsets_below(ms, self.block_meta_offset as int, block_idx + 1);
            } else {
                assert(ms.last() == ms[block_idx as int]);
            }
        }
        let mut bytes: Vec<u8> = Vec::new();
        extend_from_range(&mut bytes, self.file.as_slice(), begin, end);
        match Block::decode(bytes.as_slice()) {
            Ok(b) => Ok(Arc::new(b)),
            Err(_) => Err(StorageError::CorruptBlock),
        }
    }

    /// The block from which a search for `key` starts.
    pub fn find_block_idx(&self, key: &KeyVec) -> (r: usize)
        requires
            self.wf(),
        ensures
            block_for_key(self.metas(), key@, r as int),
    {
        let ghost ms = self.metas();
        let mut l: usize = 0;
        let mut r: usize = self.block_meta.len() - 1;
        while l < r
            invariant
                ms == self.metas(),
                ms.len() == self.block_meta@.len(),
                l <= r < ms.len(),
                l == 0 || !key_lt(key@, (ms[l as int].1, 0u64)),
                r + 1 == ms.len() || key_lt(key@, (ms[r + 1].1, 0u64)),
            decreases r - l,
        {
            let mid = l + (r - l) / 2 + (r - l) % 2;
            assert(ms[mid as int] == meta_view(self.block_meta@[mid as int]));
            if !key_before_index_key(key, &self.block_meta[mid].first_key) {
                l = mid;
            } else {
                r = mid - 1;
            }
        }
        l
    }

    pub fn num_of_blocks(&self) -> (r: usize)
        ensures
            r == self.metas().len(),
    {
        self.block_meta.len()
    }

    pub fn first_key(&self) -> (r: &Vec<u8>)
        ensures
            r@ == self.first_key_view(),
    {
        &self.first_key
    }

    pub fn last_key(&self) -> (r: &Vec<u8>)
        ensures
            r@ == self.last_key_view(),
    {
        &self.last_key
    }

    /// Size of the table's file in bytes.
    pub fn table_size(&self) -> (r: u64)
        ensures
            r == self.file_view().len(),
    {
        self.file.len() as u64
    }

    pub fn sst_id(&self) -> (r: usize)
        ensures
            r == self.id_view(),
    {
        self.id
    }

    pub fn max_ts(&self) -> (r: u64)
        ensures
            r == self.max_ts_view(),
    {
        self.max_ts
    }

    /// The index records of the blocks.
    pub fn block_meta(&self) -> (r: &[BlockMeta])
        ensures
            metas_view(r@) == self.metas(),
    {
        self.block_meta.as_slice()
    }

    /// The bytes of the table's file.
    pub fn file_bytes(&self) -> (r: &[u8])
        ensures
            r@ == self.file_view(),
    {
        self.file.as_slice()
    }

    /// The bloom filter read from the file.
    pub fn bloom(&self) -> (r: &Option<Bloom>)
        ensures
            r matches Some(b) ==> self.bloom_view() == Some((b.filter@, b.k)),
            r is None ==> self.bloom_view() is None,
    {
        &self.bloom
    }
}

pub proof fn lemma_offsets_below(ms: Seq<(usize, Seq<u8>, Seq<u8>)>, end: int, i: int)
    requires
        metas_ok(ms, end),
        0 <= i < ms.len(),
    ensures
        ms[i].0 < end,
    decreases ms.len() - i,
{
    if i + 1 < ms.len() {
        assert(ms[i].0 < ms[i + 1].0);
        lemma_offsets_below(ms, end, i + 1);
    }
}

/// Opening the image of a table reads back the index it was written with, the
/// meta offset, and the bloom filter bytes.
pub proof fn lemma_sst_round_trip(blocks: Seq<u8>, ms: Seq<(usize, Seq<u8>, Seq<u8>)>, bloom: Seq<u8>)
    requires
        meta_fits(ms),
        metas_ok(ms, blocks.len() as int),
        bloom.len() >= 1,
        sst_image(blocks, ms, bloom).len() <= 0xFFFF_FFFF,
    ensures
        sst_opens(sst_image(blocks, ms, bloom)),
        sst_metas(sst_image(blocks, ms, bloom)) == ms,
        meta_offset(sst_image(blocks, ms, bloom)) == blocks.len(),
        bloom_section(sst_image(blocks, ms, bloom)) == bloom,
{
    let img = sst_image(blocks, ms, bloom);
    let m = encoded_meta(ms);
    let dl = blocks.len() as int;
    let ml = m.len() as int;
    let bo = dl + ml + 4;
    let len = img.len() as int;
    assert(len == bo + bloom.len() + 4);
    lemma_u32_be(bo as u32);
    lemma_u32_be(dl as u32);
    let tail = u32_be(bo as u32);
    assert(img[len - 4] == tail[0] && img[len - 3] == tail[1] && img[len - 2] == tail[2] && img[len - 1] == tail[3]);
    assert(bloom_offset(img) == bo);
    let mo = u32_be(dl as u32);
    assert(img[dl + ml] == mo[0] && img[dl + ml + 1] == mo[1] && img[dl + ml + 2] == mo[2] && img[dl + ml + 3] == mo[3]);
    assert(meta_offset(img) == dl);
    assert(meta_section(img) =~= m);
    assert(bloom_section(img) =~= bloom);
    let c = sst_metas(img);
    assert(meta_fits(ms) && meta_section(img) == encoded_meta(ms));
    lemma_meta_injective(c, ms);
}

/// Checks `metas_ok` on decoded records.
fn check_metas(v: &Vec<BlockMeta>, end: usize) -> (r: bool)
    ensures
        r == metas_ok(metas_view(v@), end as int),
{
    let ghost ms = metas_view(v@);
    let n = v.len();
    if n == 0 || v[0].offset != 0 {
        return false;
    }
    let mut i: usize = 0;
    while i + 1 < n
        invariant
            ms == metas_view(v@),
            n == v@.len(),
            n >= 1,
            i < n,
            forall|j: int| 0 <= j < i ==> (#[trigger] ms[j]).0 < ms[j + 1].0,
        decreases n - i,
    {
        if v[i].offset >= v[i + 1].offset {
            proof {
                assert(ms[i as int].0 >= ms[i + 1].0);
            }
            return false;
        }
        i = i + 1;
    }
    v[n - 1].offset < end
}

} // verus!
