//! The values of a vector index as bytes, and the rows that an index is stored
//! as.

use std::collections::BTreeMap;
use vstd::prelude::*;

use crate::le;

verus! {

/// A vector most of whose elements are zero. The values of the others are held
/// by their bits.
#[derive(Debug, Clone)]
pub struct SparseVector {
    pub indices: Vec<u32>,
    pub values: Vec<u32>,
    pub dim: usize,
}

/// The elements of a sparse vector.
pub ghost struct SparseElements {
    pub indices: Seq<u32>,
    pub values: Seq<u32>,
    pub dim: usize,
}

impl View for SparseVector {
    type V = SparseElements;

    open spec fn view(&self) -> SparseElements {
        SparseElements { indices: self.indices@, values: self.values@, dim: self.dim }
    }
}

/// What values stand for.
pub open spec fn views<T: View>(values: Seq<T>) -> Seq<T::V> {
    values.map_values(|v: T| v@)
}

/// Values that a vector index stores, as bytes.
pub trait ArrowType: View + Sized {
    /// The bytes of values.
    spec fn encoded(values: Seq<Self::V>) -> Seq<u8>;

    /// The bytes can be decoded.
    spec fn decodable(bytes: Seq<u8>) -> bool;

    /// The values of bytes.
    spec fn decoded(bytes: Seq<u8>) -> Seq<Self::V>;

    /// Encodes values.
    fn to_bytes(slice: &[Self]) -> (r: Vec<u8>)
        ensures
            r@ == Self::encoded(views(slice@)),
    ;

    /// Decodes bytes.
    fn from_bytes(bytes: &[u8]) -> (r: Vec<Self>)
        requires
            Self::decodable(bytes@),
        ensures
            views(r@) == Self::decoded(bytes@),
    ;
}

impl ArrowType for u8 {
    open spec fn encoded(values: Seq<u8>) -> Seq<u8> {
        values
    }

    open spec fn decodable(bytes: Seq<u8>) -> bool {
        true
    }

    open spec fn decoded(bytes: Seq<u8>) -> Seq<u8> {
        bytes
    }

    fn to_bytes(slice: &[u8]) -> (r: Vec<u8>) {
        let r: Vec<u8> = vstd::slice::slice_to_vec(slice);
        assert(views(slice@) =~= slice@);
        assert(r@ =~= slice@);
        r
    }

    fn from_bytes(bytes: &[u8]) -> (r: Vec<u8>) {
        let r: Vec<u8> = vstd::slice::slice_to_vec(bytes);
        assert(r@ =~= bytes@);
        assert(views(r@) =~= r@);
        r
    }
}

/// The bytes of numbers, four for each.
pub open spec fn le32_all(values: Seq<u32>) -> Seq<u8>
    decreases values.len(),
{
    if values.len() == 0 {
        Seq::empty()
    } else {
        le32_all(values.drop_last()) + le::le32(values.last())
    }
}

/// Single-precision numbers, by their bits.
impl ArrowType for u32 {
    open spec fn encoded(values: Seq<u32>) -> Seq<u8> {
        le32_all(values)
    }

    open spec fn decodable(bytes: Seq<u8>) -> bool {
        bytes.len() % 4 == 0
    }

    open spec fn decoded(bytes: Seq<u8>) -> Seq<u32> {
        Seq::new(bytes.len() / 4, |i: int| le::u32_at(bytes, 4 * i))
    }

    fn to_bytes(slice: &[u32]) -> (r: Vec<u8>) {
        let mut out: Vec<u8> = Vec::new();
        let mut i: usize = 0;
        while i < slice.len()
            invariant
                i <= slice.len(),
                out@ == le32_all(slice@.take(i as int)),
            decreases slice.len() - i,
        {
            assert(slice@.take(i + 1).drop_last() =~= slice@.take(i as int));
            le::write_u32(&mut out, slice[i]);
            i = i + 1;
        }
        assert(views(slice@) =~= slice@);
        assert(slice@.take(i as int) =~= slice@);
        out
    }

    fn from_bytes(bytes: &[u8]) -> (r: Vec<u32>) {
        let mut out: Vec<u32> = Vec::new();
        let n: usize = bytes.len();
        let mut i: usize = 0;
        while i < n
            invariant
                n == bytes@.len(),
                n % 4 == 0,
                i <= n,
                i % 4 == 0,
                out.len() == i / 4,
                forall|k: int| 0 <= k < out.len() ==> #[trigger] out@[k]
                    == le::u32_at(bytes@, 4 * k),
            decreases n - i,
        {
            out.push(le::read_u32(bytes, i));
            i = i + 4;
        }
        assert(views(out@) =~= Self::decoded(bytes@));
        out
    }
}

proof fn lemma_le32_all(values: Seq<u32>, i: int)
    requires
        0 <= i < values.len(),
    ensures
        le32_all(values).len() == 4 * values.len(),
        le32_all(values).subrange(4 * i, 4 * i + 4) == le::le32(values[i]),
    decreases values.len(),
{
    let front = values.drop_last();
    if front.len() > 0 {
        lemma_le32_all(front, if i < front.len() { i } else { 0 });
    } else {
        assert(le32_all(front) =~= Seq::<u8>::empty());
    }
    let all = le32_all(values);
    if i < front.len() {
        assert(all.subrange(4 * i, 4 * i + 4) =~= le32_all(front).subrange(4 * i, 4 * i + 4));
    } else {
        assert(all.subrange(4 * i, 4 * i + 4) =~= le::le32(values[i]));
    }
}

/// Single-precision numbers are decoded from their bytes.
pub proof fn law_numbers_read_back(values: Seq<u32>)
    ensures
        <u32 as ArrowType>::decodable(<u32 as ArrowType>::encoded(values)),
        <u32 as ArrowType>::decoded(<u32 as ArrowType>::encoded(values)) == values,
{
    let bytes = le32_all(values);
    if values.len() > 0 {
        lemma_le32_all(values, 0);
    }
    let back = <u32 as ArrowType>::decoded(bytes);
    assert(back.len() == values.len());
    assert forall|i: int| 0 <= i < values.len() implies back[i] == values[i] by {
        lemma_le32_all(values, i);
        le::law_u32_reads_back(bytes, 4 * i, values[i]);
    }
    assert(back =~= values);
}

// ---------------------------------------------------------------------------
// Sparse vectors
// ---------------------------------------------------------------------------

/// The pairs of an index and a value, as many as both have.
pub open spec fn pair_bytes(indices: Seq<u32>, values: Seq<u32>, n: int) -> Seq<u8>
    decreases n,
{
    if n <= 0 {
        Seq::empty()
    } else {
        pair_bytes(indices, values, n - 1) + le::le32(indices[n - 1]) + le::le32(values[n - 1])
    }
}

/// The number of whole pairs of a sparse vector.
pub open spec fn pair_count(v: SparseElements) -> int {
    if v.indices.len() <= v.values.len() {
        v.indices.len() as int
    } else {
        v.values.len() as int
    }
}

/// The bytes of a sparse vector: its dimension, the number of its indices, and
/// its pairs.
pub open spec fn sparse_bytes(v: SparseElements) -> Seq<u8> {
    le::le64(v.dim as u64) + le::le64(v.indices.len() as u64) + pair_bytes(
        v.indices,
        v.values,
        pair_count(v),
    )
}

/// The bytes of sparse vectors, one behind the other.
pub open spec fn all_sparse_bytes(vs: Seq<SparseElements>) -> Seq<u8>
    decreases vs.len(),
{
    if vs.len() == 0 {
        Seq::empty()
    } else {
        all_sparse_bytes(vs.drop_last()) + sparse_bytes(vs.last())
    }
}

/// How many of `n` pairs fit into the bytes from `at` on.
pub open spec fn pairs_there(b: Seq<u8>, at: int, n: nat) -> nat {
    if at + 8 * n <= b.len() {
        n
    } else if at <= b.len() {
        ((b.len() - at) / 8) as nat
    } else {
        0
    }
}

/// The sparse vector at a position: its pairs as far as the bytes go.
pub open spec fn sparse_at(b: Seq<u8>, at: int) -> SparseElements {
    let n = pairs_there(b, at + 16, le::u64_at(b, at + 8) as usize as nat);
    SparseElements {
        indices: Seq::new(n, |i: int| le::u32_at(b, at + 16 + 8 * i)),
        values: Seq::new(n, |i: int| le::u32_at(b, at + 20 + 8 * i)),
        dim: le::u64_at(b, at) as usize,
    }
}

/// Up to `n` sparse vectors from a position on. Where the bytes end early, the
/// vector that is cut off is the last.
pub open spec fn sparse_from(b: Seq<u8>, at: int, n: nat) -> Seq<SparseElements>
    decreases n,
{
    if n == 0 || at + 16 > b.len() {
        Seq::empty()
    } else {
        let v = sparse_at(b, at);
        let all = le::u64_at(b, at + 8) as usize;
        seq![v] + if v.indices.len() < all {
            Seq::empty()
        } else {
            sparse_from(b, at + 16 + 8 * all, (n - 1) as nat)
        }
    }
}

impl ArrowType for SparseVector {
    open spec fn encoded(values: Seq<SparseElements>) -> Seq<u8> {
        le::le64(values.len() as u64) + all_sparse_bytes(values)
    }

    open spec fn decodable(bytes: Seq<u8>) -> bool {
        true
    }

    open spec fn decoded(bytes: Seq<u8>) -> Seq<SparseElements> {
        if bytes.len() < 8 {
            Seq::empty()
        } else {
            sparse_from(bytes, 8, le::u64_at(bytes, 0) as usize as nat)
        }
    }

    fn to_bytes(slice: &[SparseVector]) -> (r: Vec<u8>) {
        let ghost vs = views(slice@);
        let mut out: Vec<u8> = Vec::new();
        le::write_u64(&mut out, slice.len() as u64);
        let ghost head = le::le64(slice@.len() as u64);
        assert(out@ =~= head);
        let mut i: usize = 0;
        assert(vs.take(0) =~= Seq::<SparseElements>::empty());
        assert(head + all_sparse_bytes(vs.take(0)) =~= head);
        while i < slice.len()
            invariant
                i <= slice.len(),
                vs == views(slice@),
                out@ == head + all_sparse_bytes(vs.take(i as int)),
            decreases slice.len() - i,
        {
            let v: &SparseVector = &slice[i];
            let ghost before = out@;
            assert(vs.take(i + 1).drop_last() =~= vs.take(i as int));
            assert(vs[i as int] == v@);
            le::write_u64(&mut out, v.dim as u64);
            le::write_u64(&mut out, v.indices.len() as u64);
            let ghost start = out@;
            let mut k: usize = 0;
            assert(start + pair_bytes(v.indices@, v.values@, 0) =~= start);
            while k < v.indices.len() && k < v.values.len()
                invariant
                    k <= pair_count(v@),
                    out@ == start + pair_bytes(v.indices@, v.values@, k as int),
                decreases v.indices.len() - k,
            {
                le::write_u32(&mut out, v.indices[k]);
                le::write_u32(&mut out, v.values[k]);
                assert(out@ =~= start + pair_bytes(v.indices@, v.values@, k + 1));
                k = k + 1;
            }
            assert(k == pair_count(v@));
            assert(out@ =~= before + sparse_bytes(v@));
            assert(out@ =~= head + all_sparse_bytes(vs.take(i + 1)));
            i = i + 1;
        }
        assert(vs.take(i as int) =~= vs);
        out
    }

    fn from_bytes(bytes: &[u8]) -> (r: Vec<SparseVector>) {
        let len: usize = bytes.len();
        let mut out: Vec<SparseVector> = Vec::new();
        if len < 8 {
            assert(views(out@) =~= Seq::<SparseElements>::empty());
            return out;
        }
        let n: usize = le::read_u64(bytes, 0) as usize;
        let ghost all = Self::decoded(bytes@);
        let mut at: usize = 8;
        let mut i: usize = 0;
        let mut more: bool = true;
        assert(all =~= Seq::<SparseElements>::empty() + sparse_from(bytes@, 8, n as nat));
        assert(views(out@) =~= Seq::<SparseElements>::empty());
        while more && i < n && len - at >= 16
            invariant
                len == bytes@.len(),
                8 <= at <= len,
                i <= n,
                more ==> all == views(out@) + sparse_from(
                    bytes@,
                    at as int,
                    (n - i) as nat,
                ),
                !more ==> all == views(out@),
            decreases n - i, if more { 1int } else { 0 },
        {
            let ghost done = views(out@);
            let ghost p = at as int;
            let dim: usize = le::read_u64(bytes, at) as usize;
            let nnz: usize = le::read_u64(bytes, at + 8) as usize;
            let mut indices: Vec<u32> = Vec::new();
            let mut values: Vec<u32> = Vec::new();
            at = at + 16;
            let mut k: usize = 0;
            while k < nnz && len - at >= 8
                invariant
                    len == bytes@.len(),
                    p + 16 <= len,
                    k <= nnz,
                    at == p + 16 + 8 * k,
                    at <= len,
                    indices.len() == k,
                    values.len() == k,
                    forall|j: int|
                        0 <= j < k ==> #[trigger] indices@[j] == le::u32_at(bytes@, p + 16 + 8 * j),
                    forall|j: int|
                        0 <= j < k ==> #[trigger] values@[j] == le::u32_at(bytes@, p + 20 + 8 * j),
                decreases nnz - k,
            {
                indices.push(le::read_u32(bytes, at));
                values.push(le::read_u32(bytes, at + 4));
                at = at + 8;
                k = k + 1;
            }
            let v = SparseVector { indices, values, dim };
            proof {
                assert(k == pairs_there(bytes@, p + 16, nnz as nat));
                let w = sparse_at(bytes@, p);
                assert(v.indices@ =~= w.indices);
                assert(v.values@ =~= w.values);
                assert(v@ == w);
            }
            if k < nnz {
                more = false;
            }
            out.push(v);
            proof {
                assert(views(out@) =~= done.push(v@));
                let rest = if k < nnz {
                    Seq::empty()
                } else {
                    sparse_from(bytes@, at as int, (n - i - 1) as nat)
                };
                assert(sparse_from(bytes@, p, (n - i) as nat) == seq![v@] + rest);
                assert(done + (seq![v@] + rest) =~= done.push(v@) + rest);
                if k < nnz {
                    assert(done.push(v@) + rest =~= done.push(v@));
                }
            }
            i = i + 1;
        }
        proof {
            if more {
                assert(sparse_from(bytes@, at as int, (n - i) as nat) =~= Seq::<
                    SparseElements,
                >::empty());
                assert(all =~= views(out@));
            }
        }
        out
    }
}

proof fn lemma_pair_bytes(indices: Seq<u32>, values: Seq<u32>, n: int, k: int)
    requires
        0 <= k < n <= indices.len(),
        n <= values.len(),
    ensures
        pair_bytes(indices, values, n).len() == 8 * n,
        pair_bytes(indices, values, n).subrange(8 * k, 8 * k + 4) == le::le32(indices[k]),
        pair_bytes(indices, values, n).subrange(8 * k + 4, 8 * k + 8) == le::le32(values[k]),
    decreases n,
{
    if n > 1 {
        lemma_pair_bytes(indices, values, n - 1, if k < n - 1 { k } else { 0 });
    }
    let all = pair_bytes(indices, values, n);
    let before = pair_bytes(indices, values, n - 1);
    if k < n - 1 {
        assert(all.subrange(8 * k, 8 * k + 4) =~= before.subrange(8 * k, 8 * k + 4));
        assert(all.subrange(8 * k + 4, 8 * k + 8) =~= before.subrange(8 * k + 4, 8 * k + 8));
    } else {
        assert(all.subrange(8 * k, 8 * k + 4) =~= le::le32(indices[k]));
        assert(all.subrange(8 * k + 4, 8 * k + 8) =~= le::le32(values[k]));
    }
}

/// Every index of the vector has a value.
pub open spec fn is_paired(v: SparseElements) -> bool {
    v.indices.len() == v.values.len() && v.indices.len() <= usize::MAX
}

proof fn lemma_pair_at(b: Seq<u8>, base: int, v: SparseElements, k: int)
    requires
        is_paired(v),
        0 <= k < v.indices.len(),
        0 <= base,
        base + 8 * v.indices.len() <= b.len(),
        b.subrange(base, base + 8 * v.indices.len()) == pair_bytes(
            v.indices,
            v.values,
            v.indices.len() as int,
        ),
    ensures
        le::u32_at(b, base + 8 * k) == v.indices[k],
        le::u32_at(b, base + 8 * k + 4) == v.values[k],
{
    let n = v.indices.len() as int;
    let pairs = b.subrange(base, base + 8 * n);
    let i = base + 8 * k;
    lemma_pair_bytes(v.indices, v.values, n, k);
    assert(b.subrange(i, i + 4) =~= pairs.subrange(8 * k, 8 * k + 4));
    assert(b.subrange(i + 4, i + 8) =~= pairs.subrange(8 * k + 4, 8 * k + 8));
    le::law_u32_reads_back(b, i, v.indices[k]);
    le::law_u32_reads_back(b, i + 4, v.values[k]);
}

proof fn lemma_sparse_header(b: Seq<u8>, at: int, v: SparseElements)
    requires
        is_paired(v),
        0 <= at,
        at + 16 + 8 * v.indices.len() <= b.len(),
        b.subrange(at, at + 16 + 8 * v.indices.len()) == sparse_bytes(v),
    ensures
        le::u64_at(b, at) as usize == v.dim,
        le::u64_at(b, at + 8) as usize == v.indices.len(),
        b.subrange(at + 16, at + 16 + 8 * v.indices.len()) == pair_bytes(
            v.indices,
            v.values,
            v.indices.len() as int,
        ),
{
    let n = v.indices.len() as int;
    let s = sparse_bytes(v);
    let a1 = le::le64(v.dim as u64);
    let a2 = le::le64(n as u64);
    let pairs = pair_bytes(v.indices, v.values, n);
    lemma_sparse_len(v);
    assert(a1.len() == 8 && a2.len() == 8);
    assert(s.subrange(0, 8) =~= a1);
    assert(s.subrange(8, 16) =~= a2);
    assert(s.subrange(16, 16 + 8 * n) =~= pairs);
    assert(b.subrange(at, at + 8) =~= s.subrange(0, 8));
    assert(b.subrange(at + 8, at + 16) =~= s.subrange(8, 16));
    assert(b.subrange(at + 16, at + 16 + 8 * n) =~= s.subrange(16, 16 + 8 * n));
    le::law_u64_reads_back(b, at, v.dim as u64);
    le::law_u64_reads_back(b, at + 8, n as u64);
}

proof fn lemma_sparse_at(b: Seq<u8>, at: int, v: SparseElements)
    requires
        is_paired(v),
        0 <= at,
        at + 16 + 8 * v.indices.len() <= b.len(),
        b.subrange(at, at + 16 + 8 * v.indices.len()) == sparse_bytes(v),
    ensures
        sparse_at(b, at) == v,
        le::u64_at(b, at + 8) as usize == v.indices.len(),
{
    lemma_sparse_header(b, at, v);
    let w = sparse_at(b, at);
    assert(w.indices.len() == v.indices.len());
    assert forall|k: int| 0 <= k < v.indices.len() implies w.indices[k] == v.indices[k]
        && w.values[k] == v.values[k] by {
        lemma_pair_at(b, at + 16, v, k);
    }
    assert(w.indices =~= v.indices);
    assert(w.values =~= v.values);
}

/// The bytes of sparse vectors, the first in front.
spec fn sparse_bytes_from_front(vs: Seq<SparseElements>) -> Seq<u8>
    decreases vs.len(),
{
    if vs.len() == 0 {
        Seq::empty()
    } else {
        sparse_bytes(vs[0]) + sparse_bytes_from_front(vs.skip(1))
    }
}

proof fn lemma_front_push(vs: Seq<SparseElements>, v: SparseElements)
    ensures
        sparse_bytes_from_front(vs.push(v)) == sparse_bytes_from_front(vs) + sparse_bytes(v),
    decreases vs.len(),
{
    if vs.len() == 0 {
        assert(vs.push(v).skip(1) =~= Seq::<SparseElements>::empty());
        assert(sparse_bytes_from_front(vs.push(v).skip(1)) =~= Seq::<u8>::empty());
        assert(sparse_bytes(v) + Seq::<u8>::empty() =~= Seq::<u8>::empty() + sparse_bytes(v));
    } else {
        assert(vs.push(v).skip(1) =~= vs.skip(1).push(v));
        lemma_front_push(vs.skip(1), v);
        assert(sparse_bytes(vs[0]) + (sparse_bytes_from_front(vs.skip(1)) + sparse_bytes(v))
            =~= sparse_bytes(vs[0]) + sparse_bytes_from_front(vs.skip(1)) + sparse_bytes(v));
    }
}

proof fn lemma_both_orders(vs: Seq<SparseElements>)
    ensures
        all_sparse_bytes(vs) == sparse_bytes_from_front(vs),
    decreases vs.len(),
{
    if vs.len() > 0 {
        lemma_both_orders(vs.drop_last());
        lemma_front_push(vs.drop_last(), vs.last());
        assert(vs.drop_last().push(vs.last()) =~= vs);
    }
}

proof fn lemma_sparse_len(v: SparseElements)
    requires
        is_paired(v),
    ensures
        sparse_bytes(v).len() == 16 + 8 * v.indices.len(),
{
    let n = v.indices.len() as int;
    if n > 0 {
        lemma_pair_bytes(v.indices, v.values, n, 0);
    }
}

proof fn lemma_split_front(b: Seq<u8>, at: int, own: Seq<u8>, rest: Seq<u8>)
    requires
        0 <= at <= b.len(),
        b.skip(at) == own + rest,
    ensures
        at + own.len() <= b.len(),
        b.subrange(at, at + own.len()) == own,
        b.skip(at + own.len()) == rest,
{
    let tail = b.skip(at);
    assert(tail.len() == own.len() + rest.len());
    assert(b.subrange(at, at + own.len()) =~= tail.subrange(0, own.len() as int));
    assert((own + rest).subrange(0, own.len() as int) =~= own);
    assert(b.skip(at + own.len()) =~= tail.skip(own.len() as int));
    assert((own + rest).skip(own.len() as int) =~= rest);
}

proof fn lemma_sparse_from(b: Seq<u8>, at: int, vs: Seq<SparseElements>)
    requires
        forall|i: int| 0 <= i < vs.len() ==> is_paired(#[trigger] vs[i]),
        0 <= at <= b.len(),
        b.skip(at) == sparse_bytes_from_front(vs),
    ensures
        sparse_from(b, at, vs.len()) == vs,
    decreases vs.len(),
{
    if vs.len() == 0 {
        assert(sparse_from(b, at, 0) =~= vs);
    } else {
        let v = vs[0];
        let tail = vs.skip(1);
        lemma_sparse_len(v);
        lemma_split_front(b, at, sparse_bytes(v), sparse_bytes_from_front(tail));
        lemma_sparse_at(b, at, v);
        assert forall|i: int| 0 <= i < tail.len() implies is_paired(#[trigger] tail[i]) by {
            assert(tail[i] == vs[i + 1]);
        }
        lemma_sparse_from(b, at + 16 + 8 * v.indices.len(), tail);
        assert(seq![v] + tail =~= vs);
    }
}

/// Sparse vectors are decoded from their bytes, provided that every index has
/// a value.
pub proof fn law_sparse_vectors_read_back(vs: Seq<SparseElements>)
    requires
        vs.len() <= usize::MAX,
        forall|i: int| 0 <= i < vs.len() ==> is_paired(#[trigger] vs[i]),
    ensures
        <SparseVector as ArrowType>::decoded(<SparseVector as ArrowType>::encoded(vs)) == vs,
{
    let b = <SparseVector as ArrowType>::encoded(vs);
    assert(b.subrange(0, 8) =~= le::le64(vs.len() as u64));
    le::law_u64_reads_back(b, 0, vs.len() as u64);
    lemma_both_orders(vs);
    assert(b.skip(8) =~= all_sparse_bytes(vs));
    lemma_sparse_from(b, 8, vs);
}

// ---------------------------------------------------------------------------
// The rows of an index
// ---------------------------------------------------------------------------

/// A point of an index: the highest layer that it is in and its rank there.
#[derive(Debug, Clone, Copy, PartialEq, Eq, Structural)]
pub struct PointId {
    pub layer: u8,
    pub rank: i32,
}

/// A point with its neighbours: for each layer, their identities and the bits
/// of their distances.
#[derive(Debug)]
pub struct GraphPoint {
    pub id: PointId,
    pub origin_id: u64,
    pub neighbours: Vec<Vec<(PointId, u32)>>,
}

/// The row that a point is stored as: for each layer, the rows of its
/// neighbours and the bits of their distances.
#[derive(Debug)]
pub struct GraphRow {
    pub data_id: u64,
    pub max_layer: u8,
    pub neighbours: Vec<Vec<(u32, u32)>>,
}

/// The places of the points that are not listed before, in order.
pub open spec fn distinct_points(points: Seq<GraphPoint>) -> Seq<int>
    decreases points.len(),
{
    if points.len() == 0 {
        Seq::empty()
    } else {
        let before = distinct_points(points.drop_last());
        if has_point(points.drop_last(), points.last().id) {
            before
        } else {
            before.push(points.len() - 1)
        }
    }
}

/// A point is listed.
pub open spec fn has_point(points: Seq<GraphPoint>, id: PointId) -> bool {
    exists|i: int| 0 <= i < points.len() && (#[trigger] points[i]).id == id
}

/// `row` is the row of a point.
pub open spec fn is_row_of(points: Seq<GraphPoint>, row: int, id: PointId) -> bool {
    &&& 0 <= row < distinct_points(points).len()
    &&& points[distinct_points(points)[row]].id == id
}

/// The neighbours of one layer, by their rows.
pub open spec fn layer_rows(
    points: Seq<GraphPoint>,
    layer: Seq<(PointId, u32)>,
    rows: Seq<(u32, u32)>,
) -> bool {
    &&& rows.len() == layer.len()
    &&& forall|k: int|
        0 <= k < layer.len() ==> is_row_of(points, (#[trigger] rows[k]).0 as int, layer[k].0)
            && rows[k].1 == layer[k].1
}

/// The row that a point is stored as.
pub open spec fn stores_point(points: Seq<GraphPoint>, p: GraphPoint, row: GraphRow) -> bool {
    &&& row.data_id == p.origin_id
    &&& row.max_layer == p.id.layer
    &&& row.neighbours@.len() == p.id.layer + 1
    &&& forall|l: int|
        0 <= l <= p.id.layer ==> layer_rows(
            points,
            p.neighbours@[l]@,
            (#[trigger] row.neighbours@[l])@,
        )
}

/// A neighbour, in a layer that is stored, that is no point of the index.
pub open spec fn is_missing(points: Seq<GraphPoint>, id: PointId) -> bool {
    &&& !has_point(points, id)
    &&& exists|i: int, l: int, k: int|
        0 <= i < points.len() && 0 <= l <= points[i].id.layer && 0 <= k
            < points[i].neighbours@[l]@.len() && (#[trigger] points[i].neighbours@[l]@[k]).0 == id
}

/// A number that tells points apart.
pub open spec fn point_code(id: PointId) -> u64 {
    (id.layer * 0x1_0000_0000 + (id.rank + 0x8000_0000)) as u64
}

fn code_of(id: PointId) -> (r: u64)
    ensures
        r == point_code(id),
{
    (id.layer as u64) * 0x1_0000_0000 + ((id.rank as i64) + 0x8000_0000) as u64
}

proof fn lemma_codes(a: PointId, b: PointId)
    requires
        point_code(a) == point_code(b),
    ensures
        a == b,
{
}

/// The row numbers of points by their codes, after the first `n` points.
spec fn places_known(points: Seq<GraphPoint>, n: int, places: Map<u64, u32>) -> bool {
    &&& forall|i: int|
        0 <= i < n ==> places.contains_key(point_code((#[trigger] points[i]).id))
    &&& forall|c: u64| #[trigger]
        places.contains_key(c) ==> exists|i: int|
            0 <= i < n && point_code((#[trigger] points[i]).id) == c
    &&& forall|i: int|
        0 <= i < n ==> is_row_of(
            points.take(n),
            places[point_code((#[trigger] points[i]).id)] as int,
            points[i].id,
        )
}

proof fn lemma_distinct_range(points: Seq<GraphPoint>)
    ensures
        distinct_points(points).len() <= points.len(),
        forall|r: int|
            0 <= r < distinct_points(points).len() ==> 0 <= #[trigger] distinct_points(points)[r]
                < points.len(),
    decreases points.len(),
{
    if points.len() > 0 {
        lemma_distinct_range(points.drop_last());
    }
}

/// Numbers the points: the places of the distinct ones, and the row of each.
fn number_points(points: &Vec<GraphPoint>) -> (r: (Vec<usize>, BTreeMap<u64, u32>))
    requires
        points.len() <= u32::MAX,
    ensures
        r.0@.map_values(|i: usize| i as int) == distinct_points(points@),
        places_known(points@, points.len() as int, r.1@),
{
    broadcast use vstd::std_specs::btree::group_btree_axioms;

    let mut places: BTreeMap<u64, u32> = BTreeMap::new();
    let mut distinct: Vec<usize> = Vec::new();
    let mut i: usize = 0;
    assert(points@.take(0) =~= Seq::<GraphPoint>::empty());
    assert(distinct@.map_values(|i: usize| i as int) =~= Seq::<int>::empty());
    while i < points.len()
        invariant
            i <= points.len() <= u32::MAX,
            distinct.len() <= i,
            distinct@.map_values(|i: usize| i as int) == distinct_points(points@.take(i as int)),
            places_known(points@, i as int, places@),
        decreases points.len() - i,
    {
        let ghost m = places@;
        let ghost d0 = distinct@;
        let ghost now = points@.take(i as int);
        let ghost next = points@.take(i + 1);
        let code: u64 = code_of(points[i].id);
        let fresh: bool = match places.get(&code) {
            Some(_) => false,
            None => true,
        };
        proof {
            assert(next.drop_last() =~= now);
            assert(fresh == !has_point(now, points@[i as int].id)) by {
                if has_point(now, points@[i as int].id) {
                    let j = choose|j: int|
                        0 <= j < now.len() && (#[trigger] now[j]).id == points@[i as int].id;
                    assert(points@[j].id == points@[i as int].id);
                }
                if !fresh {
                    let j = choose|j: int|
                        0 <= j < i && point_code((#[trigger] points@[j]).id) == code;
                    lemma_codes(points@[j].id, points@[i as int].id);
                    assert(now[j].id == points@[i as int].id);
                }
            }
        }
        if fresh {
            places.insert(code, distinct.len() as u32);
            distinct.push(i);
        }
        proof {
            let dn = distinct_points(now);
            let dx = distinct_points(next);
            assert(distinct@.map_values(|i: usize| i as int) =~= dx);
            lemma_distinct_range(now);
            assert forall|j: int| 0 <= j < i + 1 implies places@.contains_key(
                point_code((#[trigger] points@[j]).id),
            ) && is_row_of(
                next,
                places@[point_code(points@[j].id)] as int,
                points@[j].id,
            ) by {
                let id = points@[j].id;
                if m.contains_key(point_code(id)) {
                    let a = choose|a: int|
                        0 <= a < i && point_code((#[trigger] points@[a]).id) == point_code(id);
                    lemma_codes(points@[a].id, id);
                    let row = m[point_code(id)] as int;
                    assert(is_row_of(now, row, points@[a].id));
                    assert(dx[row] == dn[row]);
                    assert(next[dx[row]] == now[dn[row]]);
                } else {
                    if j < i {
                        assert(m.contains_key(point_code(points@[j].id)));
                    }
                    assert(j == i);
                    assert(dx[dn.len() as int] == i);
                }
            }
            assert forall|c: u64| #[trigger] places@.contains_key(c) implies exists|j: int|
                0 <= j < i + 1 && point_code((#[trigger] points@[j]).id) == c by {
                if m.contains_key(c) {
                    let j = choose|j: int|
                        0 <= j < i && point_code((#[trigger] points@[j]).id) == c;
                    assert(point_code(points@[j].id) == c);
                } else {
                    assert(point_code(points@[i as int].id) == c);
                }
            }
        }
        i = i + 1;
    }
    assert(points@.take(i as int) =~= points@);
    (distinct, places)
}

/// The rows that the points of an index are stored as; a neighbour that is no
/// point of the index is reported.
pub fn graph_rows(points: &Vec<GraphPoint>) -> (r: Result<Vec<GraphRow>, PointId>)
    requires
        points.len() <= u32::MAX,
        forall|i: int|
            0 <= i < points.len() ==> (#[trigger] points@[i]).id.layer
                < points@[i].neighbours.len(),
    ensures
        match r {
            Ok(rows) => {
                &&& rows.len() == distinct_points(points@).len()
                &&& forall|k: int|
                    0 <= k < rows.len() ==> stores_point(
                        points@,
                        points@[distinct_points(points@)[k]],
                        #[trigger] rows@[k],
                    )
            },
            Err(id) => is_missing(points@, id),
        },
{
    broadcast use vstd::std_specs::btree::group_btree_axioms;

    let (distinct, places) = number_points(points);
    let ghost order = distinct_points(points@);
    assert(points@.take(points.len() as int) =~= points@);
    let mut rows: Vec<GraphRow> = Vec::new();
    let mut k: usize = 0;
    while k < distinct.len()
        invariant
            k <= distinct.len(),
            order == distinct_points(points@),
            distinct@.map_values(|i: usize| i as int) == order,
            points@.take(points.len() as int) == points@,
            places_known(points@, points.len() as int, places@),
            forall|i: int|
                0 <= i < points.len() ==> (#[trigger] points@[i]).id.layer
                    < points@[i].neighbours.len(),
            rows.len() == k,
            forall|j: int|
                0 <= j < k ==> stores_point(points@, points@[order[j]], #[trigger] rows@[j]),
        decreases distinct.len() - k,
    {
        proof {
            lemma_distinct_range(points@);
            assert(order[k as int] == distinct@[k as int]);
        }
        let p: &GraphPoint = &points[distinct[k]];
        let layers: usize = p.id.layer as usize;
        let mut neighbours: Vec<Vec<(u32, u32)>> = Vec::new();
        let mut l: usize = 0;
        while l <= layers
            invariant
                k < distinct.len(),
                distinct@[k as int] < points.len(),
                *p == points@[distinct@[k as int] as int],
                layers == p.id.layer,
                layers < p.neighbours.len(),
                l <= layers + 1,
                points@.take(points.len() as int) == points@,
                places_known(points@, points.len() as int, places@),
                neighbours.len() == l,
                forall|j: int|
                    0 <= j < l ==> layer_rows(
                        points@,
                        p.neighbours@[j]@,
                        (#[trigger] neighbours@[j])@,
                    ),
            decreases layers + 1 - l,
        {
            let layer: &Vec<(PointId, u32)> = &p.neighbours[l];
            let mut list: Vec<(u32, u32)> = Vec::new();
            let mut n: usize = 0;
            while n < layer.len()
                invariant
                    k < distinct.len(),
                    distinct@[k as int] < points.len(),
                    *p == points@[distinct@[k as int] as int],
                    l <= p.id.layer,
                    l < p.neighbours.len(),
                    *layer == p.neighbours@[l as int],
                    n <= layer.len(),
                    points@.take(points.len() as int) == points@,
                    places_known(points@, points.len() as int, places@),
                    list.len() == n,
                    forall|j: int|
                        0 <= j < n ==> is_row_of(
                            points@,
                            (#[trigger] list@[j]).0 as int,
                            layer@[j].0,
                        ) && list@[j].1 == layer@[j].1,
                decreases layer.len() - n,
            {
                let id: PointId = layer[n].0;
                let code: u64 = code_of(id);
                match places.get(&code) {
                    Some(row) => {
                        proof {
                            let a = choose|a: int|
                                0 <= a < points.len() && point_code((#[trigger] points@[a]).id)
                                    == code;
                            lemma_codes(points@[a].id, id);
                        }
                        list.push((*row, layer[n].1));
                    },
                    None => {
                        proof {
                            let i = distinct@[k as int] as int;
                            assert(points@[i].neighbours@[l as int]@[n as int].0 == id);
                            assert(!has_point(points@, id)) by {
                                if has_point(points@, id) {
                                    let a = choose|a: int|
                                        0 <= a < points.len() && (#[trigger] points@[a]).id == id;
                                    assert(places@.contains_key(point_code(points@[a].id)));
                                }
                            }
                        }
                        return Err(id);
                    },
                }
                n = n + 1;
            }
            neighbours.push(list);
            l = l + 1;
        }
        rows.push(GraphRow { data_id: p.origin_id, max_layer: p.id.layer, neighbours });
        k = k + 1;
    }
    Ok(rows)
}

/// Every point has one row, that of its first mention: points with one identity share it, and
/// the rows come in the order of the first mentions.
pub proof fn law_points_have_one_row(points: Seq<GraphPoint>, p: GraphPoint)
    ensures
        has_point(points, p.id) ==> distinct_points(points.push(p)) == distinct_points(points),
        !has_point(points, p.id) ==> distinct_points(points.push(p)) == distinct_points(
            points,
        ).push(points.len() as int),
        distinct_points(Seq::empty()) == Seq::<int>::empty(),
{
    assert(points.push(p).drop_last() =~= points);
}

/// Points are told apart by their numbers: different identities have different ones.
pub proof fn law_point_codes_are_distinct(a: PointId, b: PointId)
    ensures
        point_code(a) == point_code(b) <==> a == b,
{
    let x = a.layer * 0x1_0000_0000 + (a.rank + 0x8000_0000);
    let y = b.layer * 0x1_0000_0000 + (b.rank + 0x8000_0000);
    assert(0 <= x <= u64::MAX && 0 <= y <= u64::MAX);
}

} // verus!
