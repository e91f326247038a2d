//! The Tachiom index: inverted lists from coarse centroids to documents, and the
//! candidate selection of its three-stage search.
//!
//! The coarse centroids (searched with HNSW) and the quantized token vectors (scored
//! with a two-level product quantizer) are kept by the caller; this module holds what
//! the index computes from them: the inverted lists, built from the per-token centroid
//! assignments, and the decisions that the search takes on the scores it is handed.

use vstd::prelude::*;
use rustc_hash::FxHashSet;
use rustc_hash::FxHashMap;
use crate::doc_sets::{doc_set_elements, doc_set_insert, position_get, position_insert};
use crate::search::{is_nan_bits, is_nan_score, score_key, score_key_of};

verus! {

/// The number of tokens of document `d`, whose encoded bytes lie between
/// `offsets[d]` and `offsets[d + 1]`, at `dim` bytes per token.
pub open spec fn doc_tokens(offsets: Seq<usize>, dim: int, d: int) -> int {
    (offsets[d + 1] - offsets[d]) / dim
}

/// The index of the first token of document `d` in the flattened token order.
pub open spec fn token_start(offsets: Seq<usize>, dim: int, d: int) -> int
    decreases d,
{
    if d <= 0 {
        0
    } else {
        token_start(offsets, dim, d - 1) + doc_tokens(offsets, dim, d - 1)
    }
}

/// Some token in `[lo, hi)` is assigned to centroid `c`.
pub open spec fn assigned_in(assignments: Seq<usize>, lo: int, hi: int, c: int) -> bool {
    exists|t: int| lo <= t < hi && #[trigger] assignments[t] == c
}

/// Some token of document `d` is assigned to centroid `c`.
pub open spec fn doc_uses_centroid(offsets: Seq<usize>, dim: int, assignments: Seq<usize>, d: int, c: int) -> bool {
    assigned_in(assignments, token_start(offsets, dim, d), token_start(offsets, dim, d) + doc_tokens(offsets, dim, d), c)
}

/// The ids, as `u32`, of the documents (among the first `n_docs`) with a token assigned
/// to centroid `c`. (Document ids are `u32`: beyond 2^32 documents they wrap around.)
pub open spec fn centroid_docs(offsets: Seq<usize>, dim: int, assignments: Seq<usize>, n_docs: int, c: int) -> Set<u32> {
    Set::new(|x: u32| exists|e: int| 0 <= e < n_docs && x == e as u32 && #[trigger] doc_uses_centroid(offsets, dim, assignments, e, c))
}

/// The ids of the documents before `d` with a token assigned to `c`, and the id of
/// document `d` if one of its first `j` tokens is.
pub open spec fn centroid_docs_upto(offsets: Seq<usize>, dim: int, assignments: Seq<usize>, c: int, d: int, j: int) -> Set<u32> {
    Set::new(|x: u32|
        (exists|e: int| 0 <= e < d && x == e as u32 && #[trigger] doc_uses_centroid(offsets, dim, assignments, e, c))
        || (x == d as u32 && assigned_in(assignments, token_start(offsets, dim, d), token_start(offsets, dim, d) + j, c)))
}

/// The largest number of tokens in a document (0 without documents).
pub open spec fn max_doc_tokens_upto(offsets: Seq<usize>, dim: int, n: int) -> int
    decreases n,
{
    if n <= 0 {
        0
    } else {
        let rest = max_doc_tokens_upto(offsets, dim, n - 1);
        let here = doc_tokens(offsets, dim, n - 1);
        if here > rest { here } else { rest }
    }
}

/// Document offsets as a dataset keeps them: a first offset and one more per document,
/// never decreasing.
pub open spec fn offsets_valid(offsets: Seq<usize>) -> bool {
    &&& offsets.len() >= 1
    &&& forall|i: int, j: int| 0 <= i <= j < offsets.len() ==> offsets[i] <= offsets[j]
}

proof fn lemma_token_start_bound(offsets: Seq<usize>, dim: int, d: int)
    requires
        offsets_valid(offsets),
        dim > 0,
        0 <= d < offsets.len(),
    ensures
        0 <= token_start(offsets, dim, d),
        token_start(offsets, dim, d) * dim <= offsets[d] - offsets[0],
    decreases d,
{
    if d > 0 {
        lemma_token_start_bound(offsets, dim, d - 1);
        let a = offsets[d - 1] - offsets[0];
        let x = offsets[d] - offsets[d - 1];
        let s = token_start(offsets, dim, d - 1);
        assert(x >= 0);
        assert((x / dim) * dim <= x && x / dim >= 0) by (nonlinear_arith)
            requires
                x >= 0,
                dim > 0,
        ;
        assert((s + x / dim) * dim == s * dim + (x / dim) * dim) by (nonlinear_arith);
    }
}

proof fn lemma_token_start_fits(offsets: Seq<usize>, dim: int, d: int)
    requires
        offsets_valid(offsets),
        dim > 0,
        0 <= d < offsets.len(),
    ensures
        0 <= token_start(offsets, dim, d) <= (offsets[offsets.len() - 1] as int) / dim,
{
    lemma_token_start_bound(offsets, dim, d);
    let s = token_start(offsets, dim, d);
    let last = offsets[offsets.len() - 1] as int;
    assert(s * dim <= last);
    assert(s <= last / dim) by (nonlinear_arith)
        requires
            s * dim <= last,
            dim > 0,
            s >= 0,
    ;
}

/// The inverted lists of a Tachiom index.
pub struct Tachiom {
    /// Document ids of all centroids, one centroid's list after another; no document
    /// occurs twice in one list.
    pub inverted_lists: Vec<u32>,
    /// `inverted_lists[offsets[c]..offsets[c + 1]]` lists the documents of centroid `c`.
    pub offsets: Vec<usize>,
    /// The largest number of tokens in a document.
    pub max_doc_tokens: usize,
}

impl Tachiom {
    /// The offsets start at 0, never decrease, and end at the length of the lists.
    pub open spec fn wf(&self) -> bool {
        &&& self.offsets@.len() >= 1
        &&& self.offsets@[0] == 0
        &&& forall|i: int, j: int| 0 <= i <= j < self.offsets@.len() ==> self.offsets@[i] <= self.offsets@[j]
        &&& self.offsets@[self.offsets@.len() - 1] == self.inverted_lists@.len()
    }

    /// The number of centroids that have a list.
    pub open spec fn n_lists(&self) -> int {
        self.offsets@.len() - 1
    }

    /// The documents listed for centroid `c`.
    pub open spec fn list_of(&self, c: int) -> Seq<u32> {
        self.inverted_lists@.subrange(self.offsets@[c] as int, self.offsets@[c + 1] as int)
    }

    /// The documents listed for centroid id `c`: its list, or none past the last list.
    pub open spec fn listing(&self, c: int) -> Seq<u32> {
        if 0 <= c < self.n_lists() { self.list_of(c) } else { Seq::empty() }
    }

    /// Builds the inverted lists of an index over `n_centroids` coarse centroids.
    ///
    /// `doc_offsets` are the offsets of the documents in the encoded dataset
    /// (`doc_offsets[d]..doc_offsets[d + 1]` holds document `d`, at `output_dim` bytes per
    /// token), and `assignments` holds one centroid id per token, documents in order.
    /// Each centroid's list holds, once each, the documents with a token assigned to it
    /// (as `u32` ids).
    pub fn from_parts(n_centroids: usize, assignments: &[usize], doc_offsets: &[usize], output_dim: usize) -> (index: Tachiom)
        requires
            offsets_valid(doc_offsets@),
            output_dim > 0,
            assignments@.len() == (doc_offsets@[doc_offsets@.len() - 1] as int) / (output_dim as int),
            forall|t: int| 0 <= t < token_start(doc_offsets@, output_dim as int, doc_offsets@.len() - 1)
                ==> #[trigger] assignments@[t] < n_centroids,
        ensures
            index.wf(),
            index.n_lists() == n_centroids,
            forall|c: int| 0 <= c < n_centroids ==> (#[trigger] index.list_of(c)).no_duplicates(),
            forall|c: int| 0 <= c < n_centroids ==> (#[trigger] index.list_of(c)).to_set()
                == centroid_docs(doc_offsets@, output_dim as int, assignments@, doc_offsets@.len() - 1, c),
            index.max_doc_tokens == max_doc_tokens_upto(doc_offsets@, output_dim as int, doc_offsets@.len() - 1),
    {
        let ghost offs = doc_offsets@;
        let ghost dim = output_dim as int;
        let ghost asg = assignments@;
        let n_documents = doc_offsets.len() - 1;
        let mut groups: Vec<FxHashSet<u32>> = Vec::new();
        while groups.len() < n_centroids
            invariant
                groups@.len() <= n_centroids,
                forall|c: int| 0 <= c < groups@.len() ==> (#[trigger] groups@[c])@ == Set::<u32>::empty(),
            decreases n_centroids - groups@.len(),
        {
            groups.push(FxHashSet::default());
        }
        proof {
            assert forall|c: int| 0 <= c < n_centroids implies (#[trigger] groups@[c])@
                == centroid_docs_upto(offs, dim, asg, c, 0, 0) by {
                assert(centroid_docs_upto(offs, dim, asg, c, 0, 0) =~= Set::<u32>::empty());
            }
        }
        let mut token_idx: usize = 0;
        let mut doc_id: usize = 0;
        while doc_id < n_documents
            invariant
                offs == doc_offsets@,
                dim == output_dim as int,
                asg == assignments@,
                offsets_valid(offs),
                output_dim > 0,
                n_documents == offs.len() - 1,
                assignments@.len() == (offs[offs.len() - 1] as int) / dim,
                forall|t: int| 0 <= t < token_start(offs, dim, n_documents as int) ==> #[trigger] asg[t] < n_centroids,
                0 <= doc_id <= n_documents,
                token_idx == token_start(offs, dim, doc_id as int),
                groups@.len() == n_centroids,
                forall|c: int| 0 <= c < n_centroids ==> (#[trigger] groups@[c])@
                    == centroid_docs_upto(offs, dim, asg, c, doc_id as int, 0),
            decreases n_documents - doc_id,
        {
            let doc_tokens_n = (doc_offsets[doc_id + 1] - doc_offsets[doc_id]) / output_dim;
            proof {
                lemma_token_start_fits(offs, dim, doc_id as int + 1);
                assert(token_start(offs, dim, doc_id as int + 1) == token_idx + doc_tokens_n);
                if doc_id + 1 < n_documents {
                    lemma_token_start_mono(offs, dim, doc_id as int + 1, n_documents as int);
                }
            }
            let mut j: usize = 0;
            while j < doc_tokens_n
                invariant
                    offs == doc_offsets@,
                    dim == output_dim as int,
                    asg == assignments@,
                    offsets_valid(offs),
                    output_dim > 0,
                    n_documents == offs.len() - 1,
                        0 <= doc_id < n_documents,
                    doc_tokens_n == doc_tokens(offs, dim, doc_id as int),
                    token_idx == token_start(offs, dim, doc_id as int) + j,
                    token_start(offs, dim, doc_id as int) + doc_tokens_n <= assignments@.len(),
                    token_start(offs, dim, doc_id as int) + doc_tokens_n <= token_start(offs, dim, n_documents as int),
                    forall|t: int| 0 <= t < token_start(offs, dim, n_documents as int) ==> #[trigger] asg[t] < n_centroids,
                    0 <= j <= doc_tokens_n,
                    groups@.len() == n_centroids,
                    forall|c: int| 0 <= c < n_centroids ==> (#[trigger] groups@[c])@
                        == centroid_docs_upto(offs, dim, asg, c, doc_id as int, j as int),
                decreases doc_tokens_n - j,
            {
                let c_id = assignments[token_idx];
                let ghost before = groups@;
                let mut set = FxHashSet::default();
                std::mem::swap(&mut set, &mut groups[c_id]);
                doc_set_insert(&mut set, doc_id as u32);
                std::mem::swap(&mut set, &mut groups[c_id]);
                proof {
                    let s0 = token_start(offs, dim, doc_id as int);
                    assert forall|c: int| 0 <= c < n_centroids implies (#[trigger] groups@[c])@
                        == centroid_docs_upto(offs, dim, asg, c, doc_id as int, j as int + 1) by {
                        if c == c_id {
                            assert(asg[token_idx as int] == c);
                            assert forall|x: u32| #[trigger] centroid_docs_upto(offs, dim, asg, c, doc_id as int, j as int + 1).contains(x)
                                == before[c]@.insert(doc_id as u32).contains(x) by {
                                if x == doc_id as u32 {
                                    assert(assigned_in(asg, s0, s0 + j + 1, c));
                                }
                                if assigned_in(asg, s0, s0 + j, c) {
                                    let t = choose|t: int| s0 <= t < s0 + j && #[trigger] asg[t] == c;
                                    assert(s0 <= t < s0 + j + 1 && asg[t] == c);
                                }
                            }
                            assert(centroid_docs_upto(offs, dim, asg, c, doc_id as int, j as int + 1)
                                =~= before[c]@.insert(doc_id as u32));
                        } else {
                            assert(groups@[c] == before[c]);
                            assert forall|x: u32| #[trigger] centroid_docs_upto(offs, dim, asg, c, doc_id as int, j as int + 1).contains(x)
                                == centroid_docs_upto(offs, dim, asg, c, doc_id as int, j as int).contains(x) by {
                                if x == doc_id as u32 && assigned_in(asg, s0, s0 + j + 1, c) {
                                    let t = choose|t: int| s0 <= t < s0 + j + 1 && #[trigger] asg[t] == c;
                                    assert(t != token_idx as int);
                                    assert(s0 <= t < s0 + j && asg[t] == c);
                                }
                                if x == doc_id as u32 && assigned_in(asg, s0, s0 + j, c) {
                                    let t = choose|t: int| s0 <= t < s0 + j && #[trigger] asg[t] == c;
                                    assert(s0 <= t < s0 + j + 1 && asg[t] == c);
                                }
                            }
                            assert(centroid_docs_upto(offs, dim, asg, c, doc_id as int, j as int + 1)
                                =~= centroid_docs_upto(offs, dim, asg, c, doc_id as int, j as int));
                        }
                    }
                }
                token_idx = token_idx + 1;
                j = j + 1;
            }
            proof {
                assert forall|c: int| 0 <= c < n_centroids implies (#[trigger] groups@[c])@
                    == centroid_docs_upto(offs, dim, asg, c, doc_id as int + 1, 0) by {
                    let d = doc_id as int;
                    assert forall|x: u32| #[trigger] centroid_docs_upto(offs, dim, asg, c, d, doc_tokens_n as int).contains(x)
                        == centroid_docs_upto(offs, dim, asg, c, d + 1, 0).contains(x) by {
                        if x == d as u32 && assigned_in(asg, token_start(offs, dim, d), token_start(offs, dim, d) + doc_tokens_n, c) {
                            assert(doc_uses_centroid(offs, dim, asg, d, c));
                        }
                        if exists|e: int| 0 <= e < d + 1 && x == e as u32 && #[trigger] doc_uses_centroid(offs, dim, asg, e, c) {
                            let e = choose|e: int| 0 <= e < d + 1 && x == e as u32 && #[trigger] doc_uses_centroid(offs, dim, asg, e, c);
                            if e == d {
                                assert(assigned_in(asg, token_start(offs, dim, d), token_start(offs, dim, d) + doc_tokens_n, c));
                            }
                        }
                        let s0 = token_start(offs, dim, d + 1);
                        if assigned_in(asg, s0, s0 + 0, c) {
                            let t = choose|t: int| s0 <= t < s0 + 0 && #[trigger] asg[t] == c;
                        }
                    }
                    assert(centroid_docs_upto(offs, dim, asg, c, d, doc_tokens_n as int)
                        =~= centroid_docs_upto(offs, dim, asg, c, d + 1, 0));
                }
            }
            doc_id = doc_id + 1;
        }
        let mut inverted_lists: Vec<u32> = Vec::new();
        let mut offsets: Vec<usize> = Vec::new();
        offsets.push(0);
        let mut c: usize = 0;
        while c < n_centroids
            invariant
                groups@.len() == n_centroids,
                forall|c: int| 0 <= c < n_centroids ==> (#[trigger] groups@[c])@
                    == centroid_docs(offs, dim, asg, n_documents as int, c),
                0 <= c <= n_centroids,
                offsets@.len() == c + 1,
                offsets@[0] == 0,
                forall|i: int, j: int| 0 <= i <= j < offsets@.len() ==> offsets@[i] <= offsets@[j],
                offsets@[offsets@.len() - 1] == inverted_lists@.len(),
                forall|k: int| 0 <= k < c ==> #[trigger] inverted_lists@.subrange(offsets@[k] as int, offsets@[k + 1] as int).no_duplicates(),
                forall|k: int| 0 <= k < c ==> #[trigger] inverted_lists@.subrange(offsets@[k] as int, offsets@[k + 1] as int).to_set()
                    == centroid_docs(offs, dim, asg, n_documents as int, k),
            decreases n_centroids - c,
        {
            let docs = doc_set_elements(&groups[c]);
            let ghost start = inverted_lists@;
            let mut i: usize = 0;
            while i < docs.len()
                invariant
                    0 <= i <= docs@.len(),
                    inverted_lists@ == start + docs@.take(i as int),
                decreases docs@.len() - i,
            {
                inverted_lists.push(docs[i]);
                proof {
                    assert(docs@.take(i as int + 1) =~= docs@.take(i as int).push(docs@[i as int]));
                }
                i = i + 1;
            }
            let ghost old_offsets = offsets@;
            offsets.push(inverted_lists.len());
            proof {
                assert(docs@.take(docs@.len() as int) =~= docs@);
                assert(inverted_lists@.subrange(offsets@[c as int] as int, offsets@[c + 1] as int) =~= docs@);
                assert forall|k: int| 0 <= k < c + 1 implies #[trigger] inverted_lists@.subrange(offsets@[k] as int, offsets@[k + 1] as int)
                    == start.subrange(old_offsets[k] as int, old_offsets[k + 1] as int) || k == c by {
                    if k < c {
                        assert(inverted_lists@.subrange(offsets@[k] as int, offsets@[k + 1] as int)
                            =~= start.subrange(old_offsets[k] as int, old_offsets[k + 1] as int));
                    }
                }
            }
            c = c + 1;
        }
        let mut max_doc_tokens: usize = 0;
        let mut d: usize = 0;
        while d < n_documents
            invariant
                offs == doc_offsets@,
                dim == output_dim as int,
                offsets_valid(offs),
                output_dim > 0,
                n_documents == offs.len() - 1,
                0 <= d <= n_documents,
                max_doc_tokens == max_doc_tokens_upto(offs, dim, d as int),
            decreases n_documents - d,
        {
            let here = (doc_offsets[d + 1] - doc_offsets[d]) / output_dim;
            if here > max_doc_tokens {
                max_doc_tokens = here;
            }
            d = d + 1;
        }
        Tachiom { inverted_lists, offsets, max_doc_tokens }
    }
}

proof fn lemma_token_start_mono(offsets: Seq<usize>, dim: int, d: int, e: int)
    requires
        offsets_valid(offsets),
        dim > 0,
        0 <= d <= e < offsets.len(),
    ensures
        token_start(offsets, dim, d) <= token_start(offsets, dim, e),
    decreases e - d,
{
    if d < e {
        lemma_token_start_mono(offsets, dim, d, e - 1);
        let x = offsets[e] - offsets[e - 1];
        assert(x / dim >= 0) by (nonlinear_arith)
            requires
                x >= 0,
                dim > 0,
        ;
    }
}

/// The document `doc` is on the list of the centroid of `hit` (centroid id, score bits).
pub open spec fn hit_lists(index: Tachiom, hit: (usize, u32), doc: u32) -> bool {
    index.listing(hit.0 as int).contains(doc)
}

/// `doc` is on the list of one of the hits.
pub open spec fn any_hit_lists(index: Tachiom, hits: Seq<(usize, u32)>, doc: u32) -> bool {
    exists|g: int| 0 <= g < hits.len() && #[trigger] hit_lists(index, hits[g], doc)
}

/// `doc` has an entry among the (document id, score bits) pairs.
pub open spec fn has_doc(best: Seq<(u32, u32)>, doc: u32) -> bool {
    exists|i: int| 0 <= i < best.len() && (#[trigger] best[i]).0 == doc
}

/// `doc` is on the list of one of the first `h` hits, or among the first `j` documents
/// of the list of hit `h`.
pub open spec fn listed_before(index: Tachiom, hits: Seq<(usize, u32)>, h: int, j: int, doc: u32) -> bool {
    (exists|g: int| 0 <= g < h && #[trigger] hit_lists(index, hits[g], doc))
        || (0 <= h < hits.len() && index.listing(hits[h].0 as int).take(j).contains(doc))
}

/// Among the listings of `doc` seen so far, one has score `bits`, and no listing with a
/// score that is a number scores higher or beats a NaN `bits` (as `f32::max` skips NaN).
pub open spec fn best_so_far(index: Tachiom, hits: Seq<(usize, u32)>, h: int, j: int, doc: u32, bits: u32) -> bool {
    &&& exists|g: int| 0 <= g <= h && g < hits.len() && hits[g].1 == bits && (#[trigger] hit_lists(index, hits[g], doc))
        && (g < h || index.listing(hits[g].0 as int).take(j).contains(doc))
    &&& forall|g: int| 0 <= g < hits.len() && #[trigger] hit_lists(index, hits[g], doc)
        && (g < h || (g == h && index.listing(hits[g].0 as int).take(j).contains(doc)))
        && !is_nan_bits(hits[g].1)
        ==> !is_nan_bits(bits) && score_key(hits[g].1) <= score_key(bits)
}

impl Tachiom {
    /// The documents listed for centroid `c`; for the id just past the last centroid,
    /// none.
    pub fn postings(&self, c: usize) -> (docs: &[u32])
        requires
            self.wf(),
            c < self.offsets@.len(),
        ensures
            docs@ == self.listing(c as int),
            c < self.n_lists() ==> docs@ == self.list_of(c as int),
            c == self.n_lists() ==> docs@.len() == 0,
    {
        let start = self.offsets[c];
        let end = if c < self.offsets.len() - 1 { self.offsets[c + 1] } else { self.inverted_lists.len() };
        vstd::slice::slice_subrange(self.inverted_lists.as_slice(), start, end)
    }

    /// Stage 1 for one query token: `hits` are the centroids found for the token, as
    /// (centroid id, score bits); the id just past the last centroid lists nothing.
    /// Returns each document listed for one of them, once, with the best score among
    /// the centroids that list it, as (document id, score bits); the order of the
    /// documents is left open. NaN scores give way to numbers, as with `f32::max`; a
    /// document listed only with NaN scores gets one of them. Of equal scores (`-0.0`
    /// and `+0.0`) either may be returned.
    pub fn best_per_doc(&self, hits: &Vec<(usize, u32)>) -> (best: Vec<(u32, u32)>)
        requires
            self.wf(),
            forall|g: int| 0 <= g < hits@.len() ==> (#[trigger] hits@[g]).0 <= self.n_lists(),
        ensures
            forall|i: int, j: int| 0 <= i < j < best@.len() ==> (#[trigger] best@[i]).0 != (#[trigger] best@[j]).0,
            forall|doc: u32| #![trigger any_hit_lists(*self, hits@, doc)] #![trigger has_doc(best@, doc)]
                any_hit_lists(*self, hits@, doc) <==> has_doc(best@, doc),
            forall|i: int| 0 <= i < best@.len() ==> best_so_far(*self, hits@, hits@.len() as int, 0, (#[trigger] best@[i]).0, best@[i].1),
    {
        let nh = hits.len();
        let mut best: Vec<(u32, u32)> = Vec::new();
        let mut pos: FxHashMap<u32, usize> = FxHashMap::default();
        let mut h: usize = 0;
        while h < nh
            invariant
                self.wf(),
                nh == hits@.len(),
                forall|g: int| 0 <= g < hits@.len() ==> (#[trigger] hits@[g]).0 <= self.n_lists(),
                0 <= h <= nh,
                forall|i: int, j: int| 0 <= i < j < best@.len() ==> (#[trigger] best@[i]).0 != (#[trigger] best@[j]).0,
                forall|d: u32| #[trigger] pos@.contains_key(d) <==> listed_before(*self, hits@, h as int, 0, d),
                forall|d: u32| #[trigger] pos@.contains_key(d) ==> pos@[d] < best@.len() && best@[pos@[d] as int].0 == d,
                forall|i: int| 0 <= i < best@.len() ==> #[trigger] pos@.contains_key(best@[i].0),
                forall|i: int| 0 <= i < best@.len() ==> best_so_far(*self, hits@, h as int, 0, (#[trigger] best@[i]).0, best@[i].1),
            decreases nh - h,
        {
            let (c, bits) = hits[h];
            let docs = self.postings(c);
            let ghost list = self.listing(c as int);
            let mut j: usize = 0;
            while j < docs.len()
                invariant
                    self.wf(),
                    nh == hits@.len(),
                    forall|g: int| 0 <= g < hits@.len() ==> (#[trigger] hits@[g]).0 <= self.n_lists(),
                    0 <= h < nh,
                    hits@[h as int] == (c, bits),
                    list == self.listing(c as int),
                    docs@ == list,
                    0 <= j <= docs@.len(),
                    forall|i: int, k: int| 0 <= i < k < best@.len() ==> (#[trigger] best@[i]).0 != (#[trigger] best@[k]).0,
                    forall|d: u32| #[trigger] pos@.contains_key(d) <==> listed_before(*self, hits@, h as int, j as int, d),
                    forall|d: u32| #[trigger] pos@.contains_key(d) ==> pos@[d] < best@.len() && best@[pos@[d] as int].0 == d,
                    forall|i: int| 0 <= i < best@.len() ==> #[trigger] pos@.contains_key(best@[i].0),
                    forall|i: int| 0 <= i < best@.len() ==> best_so_far(*self, hits@, h as int, j as int, (#[trigger] best@[i]).0, best@[i].1),
                decreases docs@.len() - j,
            {
                let doc = docs[j];
                let ghost old_best = best@;
                let ghost old_pos = pos@;
                proof {
                    assert(list.take(j as int + 1) =~= list.take(j as int).push(doc));
                    assert(hit_lists(*self, hits@[h as int], doc)) by {
                        assert(list[j as int] == doc);
                    }
                }
                match position_get(&pos, doc) {
                    Some(p) => {
                        let (_, prev) = best[p];
                        proof {
                            lemma_listed_step(*self, hits@, h as int, j as int, list);
                            assert(old_best[p as int].0 == doc);
                            assert(best_so_far(*self, hits@, h as int, j as int, doc, prev));
                        }
                        let takes_new = if is_nan_score(bits) {
                            false
                        } else if is_nan_score(prev) {
                            true
                        } else {
                            score_key_of(bits) > score_key_of(prev)
                        };
                        if takes_new {
                            best.set(p, (doc, bits));
                        }
                        proof {
                            assert forall|d: u32| #[trigger] pos@.contains_key(d) <==> listed_before(*self, hits@, h as int, j as int + 1, d) by {
                                if d == doc {
                                    assert(old_pos.contains_key(doc));
                                }
                            }
                            assert forall|i: int| 0 <= i < best@.len() implies best_so_far(*self, hits@, h as int, j as int + 1, (#[trigger] best@[i]).0, best@[i].1) by {
                                assert(list[j as int] == doc);
                                if i == p as int {
                                    if takes_new {
                                        lemma_best_step_new(*self, hits@, h as int, j as int, list, doc, prev);
                                    } else {
                                        lemma_best_step(*self, hits@, h as int, j as int, list, doc, prev);
                                    }
                                } else {
                                    assert(old_best[i].0 != doc);
                                    lemma_best_step(*self, hits@, h as int, j as int, list, old_best[i].0, old_best[i].1);
                                }
                            }
                        }
                    },
                    None => {
                        proof {
                            lemma_listed_step(*self, hits@, h as int, j as int, list);
                            assert(!listed_before(*self, hits@, h as int, j as int, doc));
                        }
                        let p = best.len();
                        best.push((doc, bits));
                        position_insert(&mut pos, doc, p);
                        proof {
                            assert forall|d: u32| #[trigger] pos@.contains_key(d) <==> listed_before(*self, hits@, h as int, j as int + 1, d) by {
                                if d != doc {
                                    assert(pos@.contains_key(d) == old_pos.contains_key(d));
                                }
                            }
                            assert forall|i: int| 0 <= i < best@.len() implies best_so_far(*self, hits@, h as int, j as int + 1, (#[trigger] best@[i]).0, best@[i].1) by {
                                if i == p as int {
                                    lemma_best_step_first(*self, hits@, h as int, j as int, list, doc);
                                } else {
                                    assert(best@[i] == old_best[i]);
                                    assert(old_best[i].0 != doc);
                                    lemma_best_step(*self, hits@, h as int, j as int, list, old_best[i].0, old_best[i].1);
                                }
                            }
                        }
                    },
                }
                j = j + 1;
            }
            proof {
                assert(list.take(docs@.len() as int) =~= list);
                assert forall|d: u32| #[trigger] pos@.contains_key(d) <==> listed_before(*self, hits@, h as int + 1, 0, d) by {
                    if listed_before(*self, hits@, h as int, docs@.len() as int, d) {
                        if list.contains(d) {
                            assert(hit_lists(*self, hits@[h as int], d));
                        }
                    }
                    if listed_before(*self, hits@, h as int + 1, 0, d) {
                        let g = choose|g: int| 0 <= g < h + 1 && #[trigger] hit_lists(*self, hits@[g], d);
                        if g == h {
                            assert(list.contains(d));
                        }
                    }
                }
                assert forall|i: int| 0 <= i < best@.len() implies best_so_far(*self, hits@, h as int + 1, 0, (#[trigger] best@[i]).0, best@[i].1) by {
                    assert(best_so_far(*self, hits@, h as int, docs@.len() as int, best@[i].0, best@[i].1));
                }
            }
            h = h + 1;
        }
        proof {
            assert forall|doc: u32| #![trigger any_hit_lists(*self, hits@, doc)] #![trigger has_doc(best@, doc)]
                any_hit_lists(*self, hits@, doc) <==> has_doc(best@, doc) by {
                if exists|g: int| 0 <= g < hits@.len() && #[trigger] hit_lists(*self, hits@[g], doc) {
                    assert(listed_before(*self, hits@, nh as int, 0, doc));
                    assert(pos@.contains_key(doc));
                    assert(best@[pos@[doc] as int].0 == doc);
                }
                if exists|i: int| 0 <= i < best@.len() && (#[trigger] best@[i]).0 == doc {
                    let i = choose|i: int| 0 <= i < best@.len() && (#[trigger] best@[i]).0 == doc;
                    assert(pos@.contains_key(best@[i].0));
                }
            }
        }
        best
    }
}

proof fn lemma_take_step(list: Seq<u32>, j: int, d: u32)
    requires
        0 <= j < list.len(),
    ensures
        list.take(j + 1).contains(d) <==> (list.take(j).contains(d) || list[j] == d),
{
    if list.take(j + 1).contains(d) {
        let q = choose|q: int| 0 <= q < j + 1 && #[trigger] list.take(j + 1)[q] == d;
        if q < j {
            assert(list.take(j)[q] == d);
        }
    }
    if list.take(j).contains(d) {
        let q = choose|q: int| 0 <= q < j && #[trigger] list.take(j)[q] == d;
        assert(list.take(j + 1)[q] == d);
    }
    if list[j] == d {
        assert(list.take(j + 1)[j] == d);
    }
}

/// One more document of the list of hit `h` seen: it joins the listed documents.
proof fn lemma_listed_step(index: Tachiom, hits: Seq<(usize, u32)>, h: int, j: int, list: Seq<u32>)
    requires
        0 <= h < hits.len(),
        list == index.listing(hits[h].0 as int),
        0 <= j < list.len(),
    ensures
        forall|d: u32| #[trigger] listed_before(index, hits, h, j + 1, d) <==> (listed_before(index, hits, h, j, d) || list[j] == d),
        hit_lists(index, hits[h], list[j]),
{
    assert forall|d: u32| #[trigger] listed_before(index, hits, h, j + 1, d) <==> (listed_before(index, hits, h, j, d) || list[j] == d) by {
        lemma_take_step(list, j, d);
    }
    assert(list.contains(list[j]));
}

/// Seeing one more listing leaves the best score of another document as it was, and of
/// the same document when the new listing does not score higher.
proof fn lemma_best_step(index: Tachiom, hits: Seq<(usize, u32)>, h: int, j: int, list: Seq<u32>, d: u32, b: u32)
    requires
        0 <= h < hits.len(),
        list == index.listing(hits[h].0 as int),
        0 <= j < list.len(),
        best_so_far(index, hits, h, j, d, b),
        list[j] != d || is_nan_bits(hits[h].1) || (!is_nan_bits(b) && score_key(hits[h].1) <= score_key(b)),
    ensures
        best_so_far(index, hits, h, j + 1, d, b),
{
    lemma_take_step(list, j, d);
    let g0 = choose|g: int| 0 <= g <= h && g < hits.len() && hits[g].1 == b && (#[trigger] hit_lists(index, hits[g], d))
        && (g < h || index.listing(hits[g].0 as int).take(j).contains(d));
    assert(g0 < h || index.list_of(hits[g0].0 as int).take(j + 1).contains(d));
}

/// A listing that scores higher than the best so far becomes the best.
proof fn lemma_best_step_new(index: Tachiom, hits: Seq<(usize, u32)>, h: int, j: int, list: Seq<u32>, d: u32, prev: u32)
    requires
        0 <= h < hits.len(),
        list == index.listing(hits[h].0 as int),
        0 <= j < list.len(),
        list[j] == d,
        best_so_far(index, hits, h, j, d, prev),
        !is_nan_bits(hits[h].1),
        is_nan_bits(prev) || score_key(hits[h].1) > score_key(prev),
    ensures
        best_so_far(index, hits, h, j + 1, d, hits[h].1),
{
    lemma_take_step(list, j, d);
    assert(list.contains(d));
    assert(hit_lists(index, hits[h], d));
}

/// The first listing of a document is its best so far.
proof fn lemma_best_step_first(index: Tachiom, hits: Seq<(usize, u32)>, h: int, j: int, list: Seq<u32>, d: u32)
    requires
        0 <= h < hits.len(),
        list == index.listing(hits[h].0 as int),
        0 <= j < list.len(),
        list[j] == d,
        !listed_before(index, hits, h, j, d),
    ensures
        best_so_far(index, hits, h, j + 1, d, hits[h].1),
{
    lemma_take_step(list, j, d);
    assert(list.contains(d));
    assert(hit_lists(index, hits[h], d));
}

/// Settings of the HNSW graph built over the coarse centroids.
#[derive(Clone, Copy, Debug)]
pub struct HnswSettings {
    /// Neighbours per node.
    pub num_neighbors: usize,
    /// Beam width while the graph is built.
    pub ef_construction: usize,
}

/// Parameters controlling how a Tachiom index is built.
pub struct TachiomBuildParams {
    /// Token-type ids for Token-Aware Clustering, one per token of the dataset,
    /// documents concatenated in order.
    pub token_ids: Vec<usize>,
    /// Total coarse-centroid budget (number of inverted lists).
    pub total_centroids: usize,
    /// K-means iterations per token type.
    pub tac_n_iter: usize,
    /// Number of tokens sampled for product-quantizer training.
    pub pq_sample_size: usize,
    /// K-means iterations for product-quantizer subspace training.
    pub pq_n_iter: usize,
    /// Normalise residuals before encoding, keeping the norm in the payload.
    pub normalize: bool,
    /// Seed for reproducible product-quantizer training.
    pub pq_seed: Option<u64>,
    /// The graph over the coarse centroids.
    pub hnsw_params: HnswSettings,
}

impl TachiomBuildParams {
    /// Whether there is one token-type id per token of a dataset of `n_tokens` tokens,
    /// as building requires.
    pub fn token_ids_match(&self, n_tokens: usize) -> (ok: bool)
        ensures
            ok == (self.token_ids@.len() == n_tokens),
    {
        self.token_ids.len() == n_tokens
    }
}

} // verus!
