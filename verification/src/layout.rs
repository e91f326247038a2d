//! The integer bookkeeping of building an index: token counts and token starts of the
//! documents, and the flat byte layout of encoded documents.

use vstd::prelude::*;
use crate::tac::round_robin::{as_ints, lemma_elem_le_sum, lemma_sum_prefix_le, sum_of};
use crate::tachiom::{doc_tokens, offsets_valid};
use crate::npy::{le_u16_at, le_u32_at};

verus! {

/// The number of tokens of each document of a dataset with the given offsets, at
/// `token_dim` values per token.
pub fn doc_token_counts(offsets: &[usize], token_dim: usize) -> (counts: Vec<usize>)
    requires
        token_dim > 0,
        forall|i: int, j: int| 0 <= i <= j < offsets@.len() ==> offsets@[i] <= offsets@[j],
    ensures
        counts@.len() == if offsets@.len() == 0 { 0 } else { offsets@.len() - 1 },
        forall|d: int| 0 <= d < counts@.len() ==> #[trigger] counts@[d] == doc_tokens(offsets@, token_dim as int, d),
{
    let mut counts: Vec<usize> = Vec::new();
    if offsets.len() == 0 {
        return counts;
    }
    let n = offsets.len() - 1;
    let mut d: usize = 0;
    while d < n
        invariant
            n == offsets@.len() - 1,
            token_dim > 0,
            forall|i: int, j: int| 0 <= i <= j < offsets@.len() ==> offsets@[i] <= offsets@[j],
            0 <= d <= n,
            counts@.len() == d,
            forall|e: int| 0 <= e < d ==> #[trigger] counts@[e] == doc_tokens(offsets@, token_dim as int, e),
        decreases n - d,
    {
        let c = (offsets[d + 1] - offsets[d]) / token_dim;
        counts.push(c);
        d = d + 1;
    }
    counts
}

/// The index of the first token of each document, and then the number of tokens:
/// `starts[d]` is the sum of the first `d` counts.
pub fn token_starts(counts: &Vec<usize>) -> (starts: Vec<usize>)
    requires
        sum_of(as_ints(counts@)) <= usize::MAX,
    ensures
        starts@.len() == counts@.len() + 1,
        forall|d: int| 0 <= d <= counts@.len() ==> #[trigger] starts@[d] == sum_of(as_ints(counts@).take(d)),
{
    let ghost c = as_ints(counts@);
    let mut starts: Vec<usize> = Vec::new();
    starts.push(0);
    assert(c.take(0) =~= Seq::<int>::empty());
    let mut total: usize = 0;
    let mut d: usize = 0;
    while d < counts.len()
        invariant
            c == as_ints(counts@),
            sum_of(c) <= usize::MAX,
            0 <= d <= counts@.len(),
            starts@.len() == d + 1,
            total == sum_of(c.take(d as int)),
            forall|e: int| 0 <= e <= d ==> #[trigger] starts@[e] == sum_of(c.take(e)),
        decreases counts@.len() - d,
    {
        proof {
            assert(c.take(d as int + 1).drop_last() =~= c.take(d as int));
            assert forall|j: int| 0 <= j < c.len() implies 0 <= #[trigger] c[j] by {}
            lemma_sum_prefix_le(c, d as int + 1);
        }
        total = total + counts[d];
        starts.push(total);
        d = d + 1;
    }
    starts
}

/// The lengths of byte strings, in order.
pub open spec fn lengths(docs: Seq<Vec<u8>>) -> Seq<int> {
    docs.map_values(|v: Vec<u8>| v@.len() as int)
}

/// The byte strings one after another.
pub open spec fn concat_all(docs: Seq<Vec<u8>>) -> Seq<u8>
    decreases docs.len(),
{
    if docs.len() == 0 {
        Seq::empty()
    } else {
        concat_all(docs.drop_last()) + docs.last()@
    }
}

proof fn lemma_concat_len(docs: Seq<Vec<u8>>)
    ensures
        concat_all(docs).len() == sum_of(lengths(docs)),
    decreases docs.len(),
{
    if docs.len() > 0 {
        assert(lengths(docs).drop_last() =~= lengths(docs.drop_last()));
        lemma_concat_len(docs.drop_last());
    }
}

/// The encoded documents laid out one after another, with the offset of each: document
/// `d` is `data[offsets[d]..offsets[d + 1]]`.
pub fn concat_encoded(docs: &Vec<Vec<u8>>) -> (r: (Vec<u8>, Vec<usize>))
    requires
        sum_of(lengths(docs@)) <= usize::MAX,
    ensures
        r.0@ == concat_all(docs@),
        r.1@.len() == docs@.len() + 1,
        r.1@[0] == 0,
        forall|d: int| 0 <= d < docs@.len() ==> #[trigger] r.1@[d + 1] == r.1@[d] + docs@[d]@.len(),
        r.1@[docs@.len() as int] == r.0@.len(),
        forall|d: int| 0 <= d < docs@.len() ==> r.0@.subrange(r.1@[d] as int, r.1@[d + 1] as int) == (#[trigger] docs@[d])@,
{
    let mut data: Vec<u8> = Vec::new();
    let mut offsets: Vec<usize> = Vec::new();
    offsets.push(0);
    let mut d: usize = 0;
    proof { lemma_concat_len(docs@); }
    while d < docs.len()
        invariant
            sum_of(lengths(docs@)) <= usize::MAX,
            concat_all(docs@).len() == sum_of(lengths(docs@)),
            0 <= d <= docs@.len(),
            data@ == concat_all(docs@.take(d as int)),
            offsets@.len() == d + 1,
            offsets@[0] == 0,
            forall|e: int| 0 <= e < d ==> #[trigger] offsets@[e + 1] == offsets@[e] + docs@[e]@.len(),
            offsets@[d as int] == data@.len(),
            forall|e: int| 0 <= e < d ==> data@.subrange(offsets@[e] as int, offsets@[e + 1] as int) == (#[trigger] docs@[e])@,
        decreases docs@.len() - d,
    {
        proof {
            assert(docs@.take(d as int + 1).drop_last() =~= docs@.take(d as int));
            lemma_concat_len(docs@.take(d as int + 1));
            assert(lengths(docs@.take(d as int + 1)) =~= lengths(docs@).take(d as int + 1));
            assert forall|j: int| 0 <= j < lengths(docs@).len() implies 0 <= #[trigger] lengths(docs@)[j] by {}
            lemma_sum_prefix_le(lengths(docs@), d as int + 1);
        }
        let ghost before = data@;
        let doc = &docs[d];
        let mut i: usize = 0;
        while i < doc.len()
            invariant
                0 <= i <= doc@.len(),
                data@ == before + doc@.take(i as int),
                before.len() + doc@.len() <= usize::MAX,
            decreases doc@.len() - i,
        {
            data.push(doc[i]);
            assert(doc@.take(i as int + 1) =~= doc@.take(i as int).push(doc@[i as int]));
            i = i + 1;
        }
        assert(doc@.take(doc@.len() as int) =~= doc@);
        offsets.push(data.len());
        proof {
            assert(data@.subrange(offsets@[d as int] as int, offsets@[d + 1] as int) =~= docs@[d as int]@);
            assert forall|e: int| 0 <= e < d implies data@.subrange(offsets@[e] as int, offsets@[e + 1] as int) == (#[trigger] docs@[e])@ by {
                lemma_offsets_within(offsets@, docs@, e, d as int);
                assert(data@.subrange(offsets@[e] as int, offsets@[e + 1] as int)
                    =~= before.subrange(offsets@[e] as int, offsets@[e + 1] as int));
            }
        }
        d = d + 1;
    }
    assert(docs@.take(docs@.len() as int) =~= docs@);
    (data, offsets)
}

proof fn lemma_offsets_within(offsets: Seq<usize>, docs: Seq<Vec<u8>>, e: int, d: int)
    requires
        0 <= e < d,
        d < offsets.len(),
        d <= docs.len(),
        forall|q: int| 0 <= q < d ==> #[trigger] offsets[q + 1] == offsets[q] + docs[q]@.len(),
    ensures
        offsets[e] <= offsets[e + 1] <= offsets[d],
    decreases d - e,
{
    if e + 1 < d {
        lemma_offsets_within(offsets, docs, e + 1, d);
    }
}

/// The little-endian bytes of a 32-bit value.
pub open spec fn u32_le(x: u32) -> Seq<u8> {
    seq![(x % 256) as u8, ((x / 256) % 256) as u8, ((x / 65536) % 256) as u8, (x / 16777216) as u8]
}

/// The little-endian bytes of a 16-bit value.
pub open spec fn u16_le(x: u16) -> Seq<u8> {
    seq![(x % 256) as u8, (x / 256) as u8]
}

/// What is written as little-endian bytes reads back as the same value.
pub proof fn lemma_u32_le_reads_back(x: u32)
    ensures
        u32_le(x).len() == 4,
        crate::npy::le_u32_at(u32_le(x), 0) == x,
{
    let b = u32_le(x);
    assert(b[0] as int == x % 256);
    assert(b[1] as int == (x / 256) % 256);
    assert(b[2] as int == (x / 65536) % 256);
    assert(b[3] as int == x / 16777216);
    assert(x as int == x % 256 + 256 * ((x / 256) % 256) + 65536 * ((x / 65536) % 256) + 16777216 * (x / 16777216)) by (nonlinear_arith);
}

/// What is written as little-endian bytes reads back as the same value.
pub proof fn lemma_u16_le_reads_back(x: u16)
    ensures
        u16_le(x).len() == 2,
        crate::npy::le_u16_at(u16_le(x), 0) == x,
{
    let b = u16_le(x);
    assert(x as int == x % 256 + 256 * (x / 256)) by (nonlinear_arith);
}

/// The coarse-centroid block of `n` tokens from token `s` on: each token's centroid
/// id as a 32-bit little-endian value (the id truncated to 32 bits).
pub open spec fn ids_block(assignments: Seq<usize>, s: int, n: int) -> Seq<u8>
    decreases n,
{
    if n <= 0 {
        Seq::empty()
    } else {
        ids_block(assignments, s, n - 1) + u32_le(assignments[s + n - 1] as u32)
    }
}

/// The norm block of `n` tokens from token `s` on: each token's norm (a `float16` bit
/// pattern) as two little-endian bytes.
pub open spec fn norms_block(norms: Seq<u16>, s: int, n: int) -> Seq<u8>
    decreases n,
{
    if n <= 0 {
        Seq::empty()
    } else {
        norms_block(norms, s, n - 1) + u16_le(norms[s + n - 1])
    }
}

/// The encoding of one document of `n` tokens starting at token `s`: its coarse ids,
/// then its `m` PQ codes per token, then (when there are norms) its norms.
pub open spec fn blocked_doc(assignments: Seq<usize>, codes: Seq<u8>, m: int, norms: Option<Seq<u16>>, s: int, n: int) -> Seq<u8> {
    ids_block(assignments, s, n) + codes.subrange(s * m, (s + n) * m) + match norms {
        Some(v) => norms_block(v, s, n),
        None => Seq::empty(),
    }
}

/// The encodings of the first `d` documents, one after another.
pub open spec fn blocked_docs(doclens: Seq<usize>, assignments: Seq<usize>, codes: Seq<u8>, m: int, norms: Option<Seq<u16>>, d: int) -> Seq<u8>
    decreases d,
{
    if d <= 0 {
        Seq::empty()
    } else {
        blocked_docs(doclens, assignments, codes, m, norms, d - 1)
            + blocked_doc(assignments, codes, m, norms, sum_of(as_ints(doclens).take(d - 1)), doclens[d - 1] as int)
    }
}

/// The first token of document `d`: the number of tokens of the documents before it.
pub open spec fn doc_start_token(doclens: Seq<usize>, d: int) -> int {
    sum_of(as_ints(doclens).take(d))
}

/// The coarse id stored for token `t` of document `d`: the 32-bit little-endian value
/// at the start of the document's block, 4 bytes per token.
pub open spec fn stored_id(data: Seq<u8>, offsets: Seq<usize>, d: int, t: int) -> int {
    le_u32_at(data, offsets[d] + 4 * t)
}

/// Byte `k` of the PQ code stored for token `t` of document `d`: after the document's
/// `4 * doclens[d]` id bytes, `m` bytes per token.
pub open spec fn stored_code(data: Seq<u8>, offsets: Seq<usize>, doclens: Seq<usize>, m: int, d: int, t: int, k: int) -> u8 {
    data[offsets[d] + 4 * doclens[d] + t * m + k]
}

/// The norm stored for token `t` of document `d`: after the ids and the codes, 2 bytes
/// per token, little-endian.
pub open spec fn stored_norm(data: Seq<u8>, offsets: Seq<usize>, doclens: Seq<usize>, m: int, d: int, t: int) -> int {
    le_u16_at(data, offsets[d] + (4 + m) * doclens[d] + 2 * t)
}

proof fn lemma_ids_block_bytes(a: Seq<usize>, s: int, n: int)
    requires
        n >= 0,
    ensures
        ids_block(a, s, n).len() == 4 * n,
        forall|t: int, k: int| 0 <= t < n && 0 <= k < 4 ==> #[trigger] ids_block(a, s, n)[4 * t + k] == u32_le(a[s + t] as u32)[k],
    decreases n,
{
    if n > 0 {
        lemma_ids_block_bytes(a, s, n - 1);
        let prev = ids_block(a, s, n - 1);
        let last = u32_le(a[s + n - 1] as u32);
        assert forall|t: int, k: int| 0 <= t < n && 0 <= k < 4 implies #[trigger] ids_block(a, s, n)[4 * t + k] == u32_le(a[s + t] as u32)[k] by {
            if t < n - 1 {
                assert(prev[4 * t + k] == u32_le(a[s + t] as u32)[k]);
            } else {
                assert((prev + last)[4 * t + k] == last[k]);
            }
        }
    }
}

proof fn lemma_norms_block_bytes(v: Seq<u16>, s: int, n: int)
    requires
        n >= 0,
    ensures
        norms_block(v, s, n).len() == 2 * n,
        forall|t: int, k: int| 0 <= t < n && 0 <= k < 2 ==> #[trigger] norms_block(v, s, n)[2 * t + k] == u16_le(v[s + t])[k],
    decreases n,
{
    if n > 0 {
        lemma_norms_block_bytes(v, s, n - 1);
        let prev = norms_block(v, s, n - 1);
        let last = u16_le(v[s + n - 1]);
        assert forall|t: int, k: int| 0 <= t < n && 0 <= k < 2 implies #[trigger] norms_block(v, s, n)[2 * t + k] == u16_le(v[s + t])[k] by {
            if t < n - 1 {
                assert(prev[2 * t + k] == u16_le(v[s + t])[k]);
            } else {
                assert((prev + last)[2 * t + k] == last[k]);
            }
        }
    }
}

proof fn lemma_blocked_docs_prefix(doclens: Seq<usize>, a: Seq<usize>, codes: Seq<u8>, m: int, norms: Option<Seq<u16>>, d: int, e: int)
    requires
        0 <= d <= e,
    ensures
        blocked_docs(doclens, a, codes, m, norms, d).len() <= blocked_docs(doclens, a, codes, m, norms, e).len(),
        forall|i: int| 0 <= i < blocked_docs(doclens, a, codes, m, norms, d).len() ==>
            #[trigger] blocked_docs(doclens, a, codes, m, norms, e)[i] == blocked_docs(doclens, a, codes, m, norms, d)[i],
    decreases e,
{
    if e > d {
        lemma_blocked_docs_prefix(doclens, a, codes, m, norms, d, e - 1);
    }
}

/// The blocked layout reads back as the tokens it was built from: document `d`'s block,
/// at `offsets[d]`, holds the tokens from `doc_start_token(doclens, d)` (the running sum
/// of the earlier documents' lengths) on, `doclens[d]` of them: first their coarse ids,
/// then their PQ codes, then their norms when given; the next block starts right after.
pub proof fn lemma_blocked_layout_reads_back(
    doclens: Seq<usize>,
    assignments: Seq<usize>,
    codes: Seq<u8>,
    m: int,
    norms: Option<Seq<u16>>,
    data: Seq<u8>,
    offsets: Seq<usize>,
    d: int,
)
    requires
        m >= 0,
        sum_of(as_ints(doclens)) == assignments.len(),
        codes.len() == assignments.len() * m,
        match norms { Some(v) => v.len() == assignments.len(), None => true },
        data == blocked_docs(doclens, assignments, codes, m, norms, doclens.len() as int),
        offsets.len() == doclens.len() + 1,
        offsets[0] == 0,
        forall|e: int| 0 <= e < doclens.len() ==> #[trigger] offsets[e + 1] as int == blocked_docs(doclens, assignments, codes, m, norms, e + 1).len(),
        0 <= d < doclens.len(),
    ensures
        offsets[d + 1] == offsets[d] + doclens[d] * (4 + m + match norms { Some(_) => 2int, None => 0int }),
        forall|t: int| 0 <= t < doclens[d] ==> #[trigger] stored_id(data, offsets, d, t) == (assignments[doc_start_token(doclens, d) + t] as u32) as int,
        forall|t: int, k: int| 0 <= t < doclens[d] && 0 <= k < m ==>
            #[trigger] stored_code(data, offsets, doclens, m, d, t, k) == codes[(doc_start_token(doclens, d) + t) * m + k],
        norms matches Some(v) ==> forall|t: int| 0 <= t < doclens[d] ==>
            #[trigger] stored_norm(data, offsets, doclens, m, d, t) == v[doc_start_token(doclens, d) + t],
{
    let dl = as_ints(doclens);
    let s = doc_start_token(doclens, d);
    let n = doclens[d] as int;
    let total = doclens.len() as int;
    let before = blocked_docs(doclens, assignments, codes, m, norms, d);
    let blk = blocked_doc(assignments, codes, m, norms, s, n);
    let o = offsets[d] as int;
    // The token range of document `d` lies within the tokens.
    assert(dl.take(d + 1).drop_last() =~= dl.take(d));
    assert forall|j: int| 0 <= j < dl.len() implies 0 <= #[trigger] dl[j] by {}
    lemma_sum_prefix_le(dl, d + 1);
    crate::tac::round_robin::lemma_sum_nonneg(dl.take(d));
    assert(0 <= s && s + n <= assignments.len());
    assert(0 <= s * m && s * m <= (s + n) * m && (s + n) * m <= codes.len()) by (nonlinear_arith)
        requires
            0 <= s,
            0 <= n,
            m >= 0,
            s + n <= assignments.len(),
            codes.len() == assignments.len() * m,
    ;
    assert((s + n) * m - s * m == n * m) by (nonlinear_arith);
    // The block sits at the offset of the document.
    if d == 0 {
        assert(before.len() == 0);
    } else {
        assert(offsets[(d - 1) + 1] as int == blocked_docs(doclens, assignments, codes, m, norms, d).len());
    }
    assert(o == before.len());
    assert(blocked_docs(doclens, assignments, codes, m, norms, d + 1) == before + blk);
    lemma_blocked_docs_prefix(doclens, assignments, codes, m, norms, d + 1, total);
    lemma_ids_block_bytes(assignments, s, n);
    let ids = ids_block(assignments, s, n);
    let cs = codes.subrange(s * m, (s + n) * m);
    let nb = match norms { Some(v) => norms_block(v, s, n), None => Seq::<u8>::empty() };
    if let Some(v) = norms {
        lemma_norms_block_bytes(v, s, n);
    }
    assert(blk == ids + cs + nb);
    assert(blk.len() == 4 * n + n * m + nb.len());
    assert(offsets[d + 1] as int == before.len() + blk.len());
    assert(n * (4 + m + match norms { Some(_) => 2int, None => 0int }) == 4 * n + n * m + nb.len()) by (nonlinear_arith)
        requires
            nb.len() == match norms { Some(_) => 2 * n, None => 0 },
    ;
    assert forall|i: int| 0 <= i < blk.len() implies #[trigger] data[o + i] == blk[i] by {
        assert((before + blk)[o + i] == blk[i]);
        assert(data[o + i] == blocked_docs(doclens, assignments, codes, m, norms, d + 1)[o + i]);
    }
    assert forall|t: int| 0 <= t < n implies #[trigger] stored_id(data, offsets, d, t) == (assignments[s + t] as u32) as int by {
        let x = assignments[s + t] as u32;
        lemma_u32_le_reads_back(x);
        assert forall|k: int| 0 <= k < 4 implies data[o + 4 * t + k] == #[trigger] u32_le(x)[k] by {
            assert(blk[4 * t + k] == ids[4 * t + k]);
            assert(data[o + (4 * t + k)] == blk[4 * t + k]);
        }
        assert(data[o + 4 * t] == u32_le(x)[0]);
        assert(data[o + 4 * t + 1] == u32_le(x)[1]);
        assert(data[o + 4 * t + 2] == u32_le(x)[2]);
        assert(data[o + 4 * t + 3] == u32_le(x)[3]);
    }
    assert forall|t: int, k: int| 0 <= t < n && 0 <= k < m implies
        #[trigger] stored_code(data, offsets, doclens, m, d, t, k) == codes[(s + t) * m + k] by {
        assert(0 <= t * m + k < n * m && s * m + (t * m + k) == (s + t) * m + k) by (nonlinear_arith)
            requires
                0 <= t < n,
                0 <= k < m,
        ;
        let i = 4 * n + (t * m + k);
        assert(blk[i] == cs[t * m + k]);
        assert(data[o + i] == blk[i]);
    }
    if let Some(v) = norms {
        assert forall|t: int| 0 <= t < n implies #[trigger] stored_norm(data, offsets, doclens, m, d, t) == v[s + t] by {
            let x = v[s + t];
            lemma_u16_le_reads_back(x);
            assert((4 + m) * n == 4 * n + n * m) by (nonlinear_arith);
            let base = 4 * n + n * m;
            assert forall|k: int| 0 <= k < 2 implies data[o + base + 2 * t + k] == #[trigger] u16_le(x)[k] by {
                assert(blk[base + (2 * t + k)] == nb[2 * t + k]);
                assert(data[o + (base + 2 * t + k)] == blk[base + 2 * t + k]);
            }
            assert(data[o + base + 2 * t] == u16_le(x)[0]);
            assert(data[o + base + 2 * t + 1] == u16_le(x)[1]);
        }
    }
}

fn push_u32_le(data: &mut Vec<u8>, x: u32)
    ensures
        final(data)@ == old(data)@ + u32_le(x),
{
    data.push((x % 256) as u8);
    data.push(((x / 256) % 256) as u8);
    data.push(((x / 65536) % 256) as u8);
    data.push((x / 16777216) as u8);
    assert(final(data)@ =~= old(data)@ + u32_le(x));
}

fn push_u16_le(data: &mut Vec<u8>, x: u16)
    ensures
        final(data)@ == old(data)@ + u16_le(x),
{
    data.push((x % 256) as u8);
    data.push((x / 256) as u8);
    assert(final(data)@ =~= old(data)@ + u16_le(x));
}

/// Lays out pre-computed token encodings in the blocked document format: for each
/// document (with `doclens[d]` tokens, documents in order), the 32-bit coarse
/// centroid ids of its tokens, then their `m` PQ codes each, then (when `norms` are
/// given) their norms as 16-bit values; returns the bytes and the offset of each
/// document.
pub fn assemble_blocked_layout(
    doclens: &Vec<usize>,
    assignments: &Vec<usize>,
    codes: &Vec<u8>,
    m: usize,
    norms: Option<&Vec<u16>>,
) -> (r: (Vec<u8>, Vec<usize>))
    requires
        sum_of(as_ints(doclens@)) == assignments@.len(),
        codes@.len() == assignments@.len() * m,
        match norms {
            Some(v) => v@.len() == assignments@.len(),
            None => true,
        },
    ensures
        r.1@.len() == doclens@.len() + 1,
        r.1@[0] == 0,
        forall|d: int| 0 <= d < doclens@.len() ==> #[trigger] r.1@[d + 1] as int == blocked_docs(doclens@, assignments@, codes@, m as int,
            match norms { Some(v) => Some(v@), None => None }, d + 1).len(),
        r.0@ == blocked_docs(doclens@, assignments@, codes@, m as int, match norms { Some(v) => Some(v@), None => None },
            doclens@.len() as int),
        forall|d: int| 0 <= d < doclens@.len() ==> #[trigger] r.1@[d + 1] == r.1@[d] + doclens@[d] * (4 + m + match norms {
            Some(_) => 2int,
            None => 0int,
        }),
        forall|d: int, t: int| 0 <= d < doclens@.len() && 0 <= t < doclens@[d] ==>
            #[trigger] stored_id(r.0@, r.1@, d, t) == (assignments@[doc_start_token(doclens@, d) + t] as u32) as int,
        forall|d: int, t: int, k: int| 0 <= d < doclens@.len() && 0 <= t < doclens@[d] && 0 <= k < m ==>
            #[trigger] stored_code(r.0@, r.1@, doclens@, m as int, d, t, k) == codes@[(doc_start_token(doclens@, d) + t) * m + k],
        norms matches Some(v) ==> forall|d: int, t: int| 0 <= d < doclens@.len() && 0 <= t < doclens@[d] ==>
            #[trigger] stored_norm(r.0@, r.1@, doclens@, m as int, d, t) == v@[doc_start_token(doclens@, d) + t],
{
    let ghost nv = match norms { Some(v) => Some(v@), None => None };
    let ghost dl = as_ints(doclens@);
    let n_tokens = assignments.len();
    let mut data: Vec<u8> = Vec::new();
    let mut offsets: Vec<usize> = Vec::new();
    offsets.push(0);
    let mut token_start: usize = 0;
    let mut d: usize = 0;
    assert(dl.take(0) =~= Seq::<int>::empty());
    while d < doclens.len()
        invariant
            nv == match norms { Some(v) => Some(v@), None => None },
            dl == as_ints(doclens@),
            sum_of(dl) == n_tokens,
            n_tokens == assignments@.len(),
            codes@.len() == n_tokens * m,
            match norms { Some(v) => v@.len() == n_tokens, None => true },
            0 <= d <= doclens@.len(),
            token_start == sum_of(dl.take(d as int)),
            data@ == blocked_docs(doclens@, assignments@, codes@, m as int, nv, d as int),
            offsets@.len() == d + 1,
            offsets@[0] == 0,
            forall|e: int| 0 <= e < d ==> #[trigger] offsets@[e + 1] as int == blocked_docs(doclens@, assignments@, codes@, m as int, nv, e + 1).len(),
        decreases doclens@.len() - d,
    {
        let n_tok = doclens[d];
        proof {
            assert(dl.take(d as int + 1).drop_last() =~= dl.take(d as int));
            assert forall|j: int| 0 <= j < dl.len() implies 0 <= #[trigger] dl[j] by {}
            lemma_sum_prefix_le(dl, d as int + 1);
        }
        let ghost before = data@;
        let s = token_start;
        // Block 1: coarse centroid ids.
        let mut t: usize = 0;
        while t < n_tok
            invariant
                s + n_tok <= n_tokens,
                n_tokens == assignments@.len(),
                0 <= t <= n_tok,
                data@ == before + ids_block(assignments@, s as int, t as int),
            decreases n_tok - t,
        {
            let id = #[verifier::truncate] (assignments[s + t] as u32);
            push_u32_le(&mut data, id);
            t = t + 1;
        }
        // Block 2: PQ codes.
        let ghost after_ids = data@;
        proof {
            assert(s * m <= n_tokens * m && (s + n_tok) * m <= n_tokens * m && s * m <= (s + n_tok) * m) by (nonlinear_arith)
                requires
                    s + n_tok <= n_tokens,
                    m >= 0,
            ;
        }
        assert(codes@.len() == codes.len());
        let lo = s * m;
        let hi = (s + n_tok) * m;
        let mut i = lo;
        while i < hi
            invariant
                lo <= i <= hi <= codes@.len(),
                data@ == after_ids + codes@.subrange(lo as int, i as int),
            decreases hi - i,
        {
            data.push(codes[i]);
            assert(codes@.subrange(lo as int, i as int + 1) =~= codes@.subrange(lo as int, i as int).push(codes@[i as int]));
            i = i + 1;
        }
        // Block 3: norms.
        let ghost after_codes = data@;
        match norms {
            Some(v) => {
                let mut t: usize = 0;
                while t < n_tok
                    invariant
                        s + n_tok <= n_tokens,
                        v@.len() == n_tokens,
                        0 <= t <= n_tok,
                        data@ == after_codes + norms_block(v@, s as int, t as int),
                    decreases n_tok - t,
                {
                    push_u16_le(&mut data, v[s + t]);
                    t = t + 1;
                }
            },
            None => {},
        }
        proof {
            assert(data@ =~= before + blocked_doc(assignments@, codes@, m as int, nv, s as int, n_tok as int));
        }
        offsets.push(data.len());
        token_start = token_start + n_tok;
        d = d + 1;
    }
    proof {
        let dv = data@;
        let ov = offsets@;
        assert forall|e: int| 0 <= e < doclens@.len() implies #[trigger] ov[e + 1] == ov[e] + doclens@[e] * (4 + m + match norms {
            Some(_) => 2int,
            None => 0int,
        }) by {
            lemma_blocked_layout_reads_back(doclens@, assignments@, codes@, m as int, nv, dv, ov, e);
        }
        assert forall|e: int, t: int| 0 <= e < doclens@.len() && 0 <= t < doclens@[e] implies
            #[trigger] stored_id(dv, ov, e, t) == (assignments@[doc_start_token(doclens@, e) + t] as u32) as int by {
            lemma_blocked_layout_reads_back(doclens@, assignments@, codes@, m as int, nv, dv, ov, e);
        }
        assert forall|e: int, t: int, k: int| 0 <= e < doclens@.len() && 0 <= t < doclens@[e] && 0 <= k < m implies
            #[trigger] stored_code(dv, ov, doclens@, m as int, e, t, k) == codes@[(doc_start_token(doclens@, e) + t) * m + k] by {
            lemma_blocked_layout_reads_back(doclens@, assignments@, codes@, m as int, nv, dv, ov, e);
        }
        if let Some(v) = norms {
            assert forall|e: int, t: int| 0 <= e < doclens@.len() && 0 <= t < doclens@[e] implies
                #[trigger] stored_norm(dv, ov, doclens@, m as int, e, t) == v@[doc_start_token(doclens@, e) + t] by {
                lemma_blocked_layout_reads_back(doclens@, assignments@, codes@, m as int, nv, dv, ov, e);
            }
        }
    }
    (data, offsets)
}

/// The dimension of a product-quantizer subspace: the token dimension split evenly into
/// `m` subspaces, or `None` when it does not divide.
pub fn pq_subspace_dim(token_dim: usize, m: usize) -> (dsub: Option<usize>)
    requires
        m > 0,
    ensures
        token_dim % m == 0 ==> dsub == Some((token_dim / m) as usize),
        token_dim % m != 0 ==> dsub == None::<usize>,
{
    if token_dim % m == 0 { Some(token_dim / m) } else { None }
}

/// The sum of the values, or `None` when it does not fit in `usize`.
pub fn checked_total(v: &Vec<usize>) -> (total: Option<usize>)
    ensures
        sum_of(as_ints(v@)) <= usize::MAX ==> total == Some(sum_of(as_ints(v@)) as usize),
        sum_of(as_ints(v@)) > usize::MAX ==> total == None::<usize>,
{
    let ghost s = as_ints(v@);
    let mut total: usize = 0;
    let mut i: usize = 0;
    while i < v.len()
        invariant
            s == as_ints(v@),
            0 <= i <= v@.len(),
            total == sum_of(s.take(i as int)),
        decreases v@.len() - i,
    {
        assert(s.take(i as int + 1).drop_last() =~= s.take(i as int));
        if v[i] > usize::MAX - total {
            proof {
                assert forall|j: int| 0 <= j < s.len() implies 0 <= #[trigger] s[j] by {}
                lemma_sum_prefix_le(s, i as int + 1);
            }
            return None;
        }
        total = total + v[i];
        i = i + 1;
    }
    assert(s.take(v@.len() as int) =~= s);
    Some(total)
}

/// How many tokens are assigned to centroid `c`.
pub open spec fn cluster_size(assignments: Seq<u32>, c: int) -> int
    decreases assignments.len(),
{
    if assignments.len() == 0 {
        0
    } else {
        cluster_size(assignments.drop_last(), c) + if assignments.last() == c { 1int } else { 0int }
    }
}

proof fn lemma_cluster_size_prefix(assignments: Seq<u32>, t: int, c: int)
    requires
        0 <= t <= assignments.len(),
    ensures
        cluster_size(assignments.take(t), c) <= cluster_size(assignments, c),
    decreases assignments.len(),
{
    if t == assignments.len() {
        assert(assignments.take(t) =~= assignments);
    } else {
        assert(assignments.drop_last().take(t) =~= assignments.take(t));
        lemma_cluster_size_prefix(assignments.drop_last(), t, c);
    }
}

/// The number of tokens assigned to each of `n_centroids` centroids, counted in `u32`;
/// `None` when a centroid has more tokens than a `u32` counts.
pub fn cluster_sizes(assignments: &[u32], n_centroids: usize) -> (counts: Option<Vec<u32>>)
    requires
        forall|t: int| 0 <= t < assignments@.len() ==> (#[trigger] assignments@[t]) < n_centroids,
    ensures
        counts is None <==> exists|c: int| 0 <= c < n_centroids && #[trigger] cluster_size(assignments@, c) > u32::MAX,
        counts matches Some(v) ==> v@.len() == n_centroids
            && forall|c: int| 0 <= c < n_centroids ==> #[trigger] v@[c] == cluster_size(assignments@, c),
{
    let mut counts: Vec<u32> = Vec::new();
    while counts.len() < n_centroids
        invariant
            counts@.len() <= n_centroids,
            forall|c: int| 0 <= c < counts@.len() ==> #[trigger] counts@[c] == 0,
        decreases n_centroids - counts@.len(),
    {
        counts.push(0);
    }
    let mut t: usize = 0;
    while t < assignments.len()
        invariant
            forall|q: int| 0 <= q < assignments@.len() ==> (#[trigger] assignments@[q]) < n_centroids,
            0 <= t <= assignments@.len(),
            counts@.len() == n_centroids,
            forall|c: int| 0 <= c < n_centroids ==> #[trigger] counts@[c] == cluster_size(assignments@.take(t as int), c),
        decreases assignments@.len() - t,
    {
        let c = assignments[t] as usize;
        proof {
            assert(assignments@.take(t as int + 1).drop_last() =~= assignments@.take(t as int));
            assert(assignments@.take(t as int + 1).last() == assignments@[t as int]);
            assert forall|k: int| 0 <= k < n_centroids implies #[trigger] cluster_size(assignments@.take(t as int + 1), k)
                == cluster_size(assignments@.take(t as int), k) + if assignments@[t as int] == k { 1int } else { 0int } by {}
        }
        if counts[c] == u32::MAX {
            proof {
                lemma_cluster_size_prefix(assignments@, t as int + 1, c as int);
                assert(cluster_size(assignments@, c as int) > u32::MAX);
            }
            return None;
        }
        let x = counts[c] + 1;
        counts.set(c, x);
        t = t + 1;
    }
    assert(assignments@.take(assignments@.len() as int) =~= assignments@);
    assert forall|c: int| 0 <= c < n_centroids implies #[trigger] cluster_size(assignments@, c) <= u32::MAX by {
        assert(counts@[c] == cluster_size(assignments@, c));
    }
    Some(counts)
}

/// The smallest and the largest of the values (`(0, 0)` when there are none).
pub fn min_max(v: &Vec<u32>) -> (r: (u32, u32))
    ensures
        v@.len() == 0 ==> r == (0u32, 0u32),
        v@.len() > 0 ==> {
            &&& (exists|i: int| 0 <= i < v@.len() && v@[i] == r.0)
            &&& (exists|i: int| 0 <= i < v@.len() && v@[i] == r.1)
            &&& forall|i: int| 0 <= i < v@.len() ==> r.0 <= #[trigger] v@[i] <= r.1
        },
{
    if v.len() == 0 {
        return (0, 0);
    }
    let mut lo = v[0];
    let mut hi = v[0];
    let mut i: usize = 1;
    while i < v.len()
        invariant
            1 <= i <= v@.len(),
            exists|j: int| 0 <= j < i && v@[j] == lo,
            exists|j: int| 0 <= j < i && v@[j] == hi,
            forall|j: int| 0 <= j < i ==> lo <= #[trigger] v@[j] <= hi,
        decreases v@.len() - i,
    {
        if v[i] < lo {
            lo = v[i];
        }
        if v[i] > hi {
            hi = v[i];
        }
        i = i + 1;
    }
    (lo, hi)
}

} // verus!
