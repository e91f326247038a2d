//! The decisions of the Tachiom search that follow the scores: which candidate
//! documents are re-ranked, which survive alpha pruning, and which are returned.
//!
//! Scores are `f32` values, handed to this module by their IEEE-754 bit patterns; they
//! are compared through [`score_key`], which orders bit patterns as the floats they
//! encode are ordered (`-0.0` and `+0.0` compare equal). NaN scores are not accepted.

use vstd::prelude::*;
use crate::ordering::{is_desc_order, lemma_desc_order_unique, sort_indices_desc};

verus! {

/// The bit pattern encodes a NaN.
pub open spec fn is_nan_bits(b: u32) -> bool {
    (b & 0x7f80_0000u32) == 0x7f80_0000u32 && (b & 0x007f_ffffu32) != 0
}

/// The order key of the (non-NaN) float with bit pattern `b`: negative floats map below
/// `0x8000_0000`, larger magnitude lower; non-negative floats map from `0x8000_0000` up,
/// larger magnitude higher; `-0.0` maps where `+0.0` does.
pub open spec fn score_key(b: u32) -> u32 {
    if b == 0x8000_0000u32 {
        0x8000_0000u32
    } else if b >= 0x8000_0000u32 {
        !b
    } else {
        b | 0x8000_0000u32
    }
}

/// The float with bit pattern `a` is greater than the one with bit pattern `b`.
pub open spec fn score_gt(a: u32, b: u32) -> bool {
    !is_nan_bits(a) && !is_nan_bits(b) && score_key(a) > score_key(b)
}

/// The float with bit pattern `a` is at least the one with bit pattern `b`.
pub open spec fn score_ge(a: u32, b: u32) -> bool {
    !is_nan_bits(a) && !is_nan_bits(b) && score_key(a) >= score_key(b)
}

/// Whether `bits` encodes a NaN.
pub fn is_nan_score(bits: u32) -> (nan: bool)
    ensures
        nan == is_nan_bits(bits),
{
    (bits & 0x7f80_0000u32) == 0x7f80_0000u32 && (bits & 0x007f_ffffu32) != 0
}

/// The order key of the float with bit pattern `bits`.
pub fn score_key_of(bits: u32) -> (key: u32)
    ensures
        key == score_key(bits),
{
    if bits == 0x8000_0000u32 {
        0x8000_0000u32
    } else if bits >= 0x8000_0000u32 {
        !bits
    } else {
        bits | 0x8000_0000u32
    }
}

/// A key ordering by score, higher first, and then by document id, lower first.
pub open spec fn score_doc_key(bits: u32, doc: u32) -> u64 {
    ((score_key(bits) as int) * 0x1_0000_0000 + (0xffff_ffff - doc as int)) as u64
}

/// The candidate key orders by score, higher first, and among equal scores by document
/// id, lower first; two keys are equal only for equal scores and equal ids.
pub proof fn lemma_score_doc_key(b1: u32, d1: u32, b2: u32, d2: u32)
    ensures
        score_doc_key(b1, d1) > score_doc_key(b2, d2) <==> (score_key(b1) > score_key(b2)
            || (score_key(b1) == score_key(b2) && d1 < d2)),
        score_doc_key(b1, d1) == score_doc_key(b2, d2) <==> (score_key(b1) == score_key(b2) && d1 == d2),
{
    let k1 = score_key(b1) as int;
    let k2 = score_key(b2) as int;
    let r1 = 0xffff_ffff - d1 as int;
    let r2 = 0xffff_ffff - d2 as int;
    assert(0 <= k1 * 0x1_0000_0000 + r1 <= u64::MAX) by (nonlinear_arith)
        requires
            0 <= k1 <= 0xffff_ffff,
            0 <= r1 < 0x1_0000_0000,
    ;
    assert(0 <= k2 * 0x1_0000_0000 + r2 <= u64::MAX) by (nonlinear_arith)
        requires
            0 <= k2 <= 0xffff_ffff,
            0 <= r2 < 0x1_0000_0000,
    ;
    assert(score_doc_key(b1, d1) as int == k1 * 0x1_0000_0000 + r1);
    assert(score_doc_key(b2, d2) as int == k2 * 0x1_0000_0000 + r2);
    assert(k1 > k2 ==> k1 * 0x1_0000_0000 + r1 > k2 * 0x1_0000_0000 + r2) by (nonlinear_arith)
        requires
            0 <= r1 < 0x1_0000_0000,
            0 <= r2 < 0x1_0000_0000,
    ;
    assert(k1 < k2 ==> k1 * 0x1_0000_0000 + r1 < k2 * 0x1_0000_0000 + r2) by (nonlinear_arith)
        requires
            0 <= r1 < 0x1_0000_0000,
            0 <= r2 < 0x1_0000_0000,
    ;
}

fn score_doc_key_of(bits: u32, doc: u32) -> (key: u64)
    ensures
        key == score_doc_key(bits, doc),
{
    let k = score_key_of(bits) as u64;
    assert(k * 0x1_0000_0000u64 <= 0xffff_ffff_0000_0000u64) by (nonlinear_arith)
        requires
            k <= 0xffff_ffffu64,
    ;
    let key = k * 0x1_0000_0000u64 + (0xffff_ffffu64 - doc as u64);
    assert(key as int == (score_key(bits) as int) * 0x1_0000_0000 + (0xffff_ffff - doc as int));
    key
}

/// The keys that rank stage-2 candidates (document id, score bits): score first, then
/// document id, lower first.
pub open spec fn candidate_keys(docs: Seq<(u32, u32)>) -> Seq<u64> {
    Seq::new(docs.len(), |i: int| score_doc_key(docs[i].1, docs[i].0))
}

/// No score of the candidates is a NaN.
pub open spec fn candidate_scores_valid(docs: Seq<(u32, u32)>) -> bool {
    forall|i: int| 0 <= i < docs.len() ==> !is_nan_bits(#[trigger] docs[i].1)
}

/// `ord` applied to `items`, cut after `n`.
pub open spec fn take_in_order<T>(items: Seq<T>, ord: Seq<usize>, n: int) -> Seq<T> {
    Seq::new(n as nat, |p: int| items[ord[p] as int])
}

/// A ranking cut after `n` holds exactly `n` entries, the `p`-th being the item at the
/// `p`-th position of the order.
pub proof fn lemma_take_in_order<T>(items: Seq<T>, ord: Seq<usize>, n: int)
    requires
        0 <= n <= ord.len(),
    ensures
        take_in_order(items, ord, n).len() == n,
        forall|p: int| 0 <= p < n ==> #[trigger] take_in_order(items, ord, n)[p] == items[ord[p] as int],
{
}

fn gather_in_order<T: Copy>(items: &Vec<T>, ord: &Vec<usize>, n: usize) -> (out: Vec<T>)
    requires
        n <= ord@.len(),
        forall|p: int| 0 <= p < ord@.len() ==> #[trigger] ord@[p] < items@.len(),
    ensures
        out@ == take_in_order(items@, ord@, n as int),
        out@.len() == n,
        forall|p: int| 0 <= p < n ==> #[trigger] out@[p] == items@[ord@[p] as int],
{
    let mut out: Vec<T> = Vec::new();
    let mut p: usize = 0;
    while p < n
        invariant
            n <= ord@.len(),
            forall|q: int| 0 <= q < ord@.len() ==> #[trigger] ord@[q] < items@.len(),
            0 <= p <= n,
            out@ =~= take_in_order(items@, ord@, p as int),
        decreases n - p,
    {
        out.push(items[ord[p]]);
        p = p + 1;
    }
    out
}

/// Stage 2: the candidates to re-rank. Of the documents with their accumulated coarse
/// scores, given as (document id, score bits), the `min(k_docs_to_score, n)` with the
/// best scores are kept, best first, ties by lower document id.
pub fn select_candidates(docs_with_scores: &Vec<(u32, u32)>, k_docs_to_score: usize) -> (candidates: Vec<(u32, u32)>)
    requires
        candidate_scores_valid(docs_with_scores@),
    ensures
        candidates@.len() == if k_docs_to_score < docs_with_scores@.len() { k_docs_to_score as int } else { docs_with_scores@.len() as int },
        forall|ord: Seq<usize>| #[trigger] is_desc_order(candidate_keys(docs_with_scores@), ord) ==>
            candidates@ == take_in_order(docs_with_scores@, ord,
                if k_docs_to_score < docs_with_scores@.len() { k_docs_to_score as int } else { docs_with_scores@.len() as int }),
{
    let n = docs_with_scores.len();
    let mut keys: Vec<u64> = Vec::new();
    let mut i: usize = 0;
    while i < n
        invariant
            n == docs_with_scores@.len(),
            0 <= i <= n,
            keys@ =~= candidate_keys(docs_with_scores@).take(i as int),
        decreases n - i,
    {
        let (doc, bits) = docs_with_scores[i];
        let key = score_doc_key_of(bits, doc);
        keys.push(key);
        i = i + 1;
    }
    assert(keys@ =~= candidate_keys(docs_with_scores@));
    let ord = sort_indices_desc(&keys);
    let take_n = if k_docs_to_score < n { k_docs_to_score } else { n };
    let candidates = gather_in_order(docs_with_scores, &ord, take_n);
    proof {
        assert forall|o: Seq<usize>| #[trigger] is_desc_order(candidate_keys(docs_with_scores@), o) implies
            candidates@ == take_in_order(docs_with_scores@, o, take_n as int) by {
            lemma_desc_order_unique(keys@, ord@, o);
        }
    }
    candidates
}

/// The position of the candidate that alpha pruning measures against: the `k`-th best
/// (or the last, if there are fewer), when there are candidates and `k > 0`.
pub fn alpha_pivot(n_candidates: usize, k: usize) -> (pivot: Option<usize>)
    ensures
        n_candidates > 0 && k > 0 ==> pivot == Some(((if k < n_candidates { k } else { n_candidates }) - 1) as usize),
        !(n_candidates > 0 && k > 0) ==> pivot == None::<usize>,
{
    if n_candidates > 0 && k > 0 {
        let m = if k < n_candidates { k } else { n_candidates };
        Some(m - 1)
    } else {
        None
    }
}

/// The candidates whose score is at least the threshold, in their order.
pub open spec fn at_least(candidates: Seq<(u32, u32)>, threshold: u32) -> Seq<(u32, u32)>
    decreases candidates.len(),
{
    if candidates.len() == 0 {
        Seq::empty()
    } else {
        let rest = at_least(candidates.drop_last(), threshold);
        if score_ge(candidates.last().1, threshold) {
            rest.push(candidates.last())
        } else {
            rest
        }
    }
}

/// Alpha pruning: keeps, in order, the candidates whose score is at least the score
/// with bit pattern `threshold` (none when the threshold is a NaN).
pub fn prune_below(candidates: &Vec<(u32, u32)>, threshold: u32) -> (kept: Vec<(u32, u32)>)
    ensures
        kept@ == at_least(candidates@, threshold),
{
    let t_nan = is_nan_score(threshold);
    let t_key = score_key_of(threshold);
    let mut kept: Vec<(u32, u32)> = Vec::new();
    let mut i: usize = 0;
    while i < candidates.len()
        invariant
            0 <= i <= candidates@.len(),
            t_nan == is_nan_bits(threshold),
            t_key == score_key(threshold),
            kept@ == at_least(candidates@.take(i as int), threshold),
        decreases candidates@.len() - i,
    {
        let (doc, bits) = candidates[i];
        assert(candidates@.take(i as int + 1).drop_last() =~= candidates@.take(i as int));
        assert(candidates@.take(i as int + 1).last() == candidates@[i as int]);
        if !t_nan && !is_nan_score(bits) && score_key_of(bits) >= t_key {
            kept.push((doc, bits));
        }
        i = i + 1;
    }
    assert(candidates@.take(candidates@.len() as int) =~= candidates@);
    kept
}

/// The keys that rank scored documents (score bits, document id): by score only.
pub open spec fn scored_keys(scored: Seq<(u32, u32)>) -> Seq<u64> {
    Seq::new(scored.len(), |i: int| score_key(scored[i].0) as u64)
}

/// Stage 3 without early exit: the `min(k, n)` best of the scored documents, given as
/// (score bits, document id), best first (documents with equal scores in input order).
pub fn rank_scored(scored: &Vec<(u32, u32)>, k: usize) -> (top: Vec<(u32, u32)>)
    requires
        forall|i: int| 0 <= i < scored@.len() ==> !is_nan_bits(#[trigger] scored@[i].0),
    ensures
        top@.len() == if k < scored@.len() { k as int } else { scored@.len() as int },
        forall|ord: Seq<usize>| #[trigger] is_desc_order(scored_keys(scored@), ord) ==>
            top@ == take_in_order(scored@, ord, if k < scored@.len() { k as int } else { scored@.len() as int }),
{
    let n = scored.len();
    let mut keys: Vec<u64> = Vec::new();
    let mut i: usize = 0;
    while i < n
        invariant
            n == scored@.len(),
            0 <= i <= n,
            keys@ =~= scored_keys(scored@).take(i as int),
        decreases n - i,
    {
        let key = score_key_of(scored[i].0) as u64;
        keys.push(key);
        i = i + 1;
    }
    assert(keys@ =~= scored_keys(scored@));
    let ord = sort_indices_desc(&keys);
    let take_n = if k < n { k } else { n };
    let top = gather_in_order(scored, &ord, take_n);
    proof {
        assert forall|o: Seq<usize>| #[trigger] is_desc_order(scored_keys(scored@), o) implies
            top@ == take_in_order(scored@, o, take_n as int) by {
            lemma_desc_order_unique(keys@, ord@, o);
        }
    }
    top
}

/// Of two scored documents (score bits, document id), `a` is worse than `b`: its score
/// is lower, or equal with a higher document id.
pub open spec fn is_worse(a: (u32, u32), b: (u32, u32)) -> bool {
    score_key(a.0) < score_key(b.0) || (score_key(a.0) == score_key(b.0) && a.1 > b.1)
}

/// The position of the worst of the kept documents (the first such position).
pub open spec fn worst_index(kept: Seq<(u32, u32)>) -> int
    decreases kept.len(),
{
    if kept.len() <= 1 {
        0
    } else {
        let w = worst_index(kept.drop_last());
        if is_worse(kept.last(), kept[w]) { kept.len() - 1 } else { w }
    }
}

proof fn lemma_worst_index_is_min(kept: Seq<(u32, u32)>)
    requires
        kept.len() > 0,
    ensures
        0 <= worst_index(kept) < kept.len(),
        forall|j: int| 0 <= j < kept.len() ==> score_key(kept[worst_index(kept)].0) <= score_key(#[trigger] kept[j].0),
    decreases kept.len(),
{
    if kept.len() > 1 {
        lemma_worst_index_is_min(kept.drop_last());
        assert forall|j: int| 0 <= j < kept.len() implies score_key(kept[worst_index(kept)].0) <= score_key(#[trigger] kept[j].0) by {
            if j < kept.len() - 1 {
                assert(kept.drop_last()[j] == kept[j]);
            }
        }
    }
}

/// The keys that order the returned documents (score bits, document id): score first,
/// then document id, lower first.
pub open spec fn result_keys(kept: Seq<(u32, u32)>) -> Seq<u64> {
    Seq::new(kept.len(), |i: int| score_doc_key(kept[i].0, kept[i].1))
}

/// Stage 3 with early exit: the best `k` documents seen so far, and the number of
/// documents in a row that did not improve on them.
///
/// The first `k` documents offered are kept; each later one replaces the worst kept
/// document if its score is higher, and otherwise counts as a stall; after `beta` stalls
/// in a row the search stops.
pub struct BetaTopK {
    /// The kept documents, as (score bits, document id).
    pub kept: Vec<(u32, u32)>,
    pub k: usize,
    pub beta: usize,
    /// Documents in a row that did not enter the kept set (after the first `k`).
    pub stalls: usize,
    /// The documents offered so far, in order.
    pub offered: Ghost<Seq<(u32, u32)>>,
    /// Where each kept document was offered: `kept[j] == offered[kept_pos[j]]`.
    pub kept_pos: Ghost<Seq<int>>,
}

impl BetaTopK {
    /// The search has stopped: `beta` documents in a row (at least one) did not enter.
    pub open spec fn stopped(&self) -> bool {
        self.stalls > 0 && self.stalls >= self.beta
    }

    /// The offered document at position `q` is one of the kept ones.
    pub open spec fn is_kept(&self, q: int) -> bool {
        exists|j: int| 0 <= j < self.kept_pos@.len() && #[trigger] self.kept_pos@[j] == q
    }

    /// The kept and offered scores are numbers; at most `k` documents are kept, each one
    /// of the offered, and `k` of them once any was left out; every offered document
    /// that is not kept scores at most every kept one; the stalls are counted among the
    /// documents left out.
    pub open spec fn wf(&self) -> bool {
        &&& forall|i: int| 0 <= i < self.kept@.len() ==> !is_nan_bits(#[trigger] self.kept@[i].0)
        &&& forall|q: int| 0 <= q < self.offered@.len() ==> !is_nan_bits(#[trigger] self.offered@[q].0)
        &&& self.kept@.len() <= self.k
        &&& self.kept_pos@.len() == self.kept@.len()
        &&& forall|j: int| 0 <= j < self.kept_pos@.len() ==> 0 <= #[trigger] self.kept_pos@[j] < self.offered@.len()
            && self.offered@[self.kept_pos@[j]] == self.kept@[j]
        &&& forall|j: int, l: int| 0 <= j < self.kept_pos@.len() && 0 <= l < self.kept_pos@.len() && j != l
            ==> #[trigger] self.kept_pos@[j] != #[trigger] self.kept_pos@[l]
        &&& self.offered@.len() > self.kept@.len() ==> self.kept@.len() == self.k
        &&& self.offered@.len() == self.kept@.len() ==> forall|j: int| 0 <= j < self.kept_pos@.len() ==> #[trigger] self.kept_pos@[j] == j
        &&& forall|q: int, j: int| 0 <= q < self.offered@.len() && 0 <= j < self.kept@.len() && !self.is_kept(q)
            ==> score_key(#[trigger] self.offered@[q].0) <= score_key(#[trigger] self.kept@[j].0)
        &&& self.stalls <= self.offered@.len() - self.kept@.len()
        &&& self.stalls > 0 ==> self.kept@.len() == self.k
    }

    /// An empty selection of the best `k` documents, stopping after `beta` stalls.
    pub fn new(k: usize, beta: usize) -> (s: Self)
        ensures
            s.kept@ == Seq::<(u32, u32)>::empty(),
            s.k == k,
            s.beta == beta,
            s.stalls == 0,
            s.offered@ == Seq::<(u32, u32)>::empty(),
            s.wf(),
    {
        BetaTopK { kept: Vec::new(), k, beta, stalls: 0, offered: Ghost(Seq::empty()), kept_pos: Ghost(Seq::empty()) }
    }

    fn worst_position(&self) -> (w: usize)
        requires
            self.kept@.len() > 0,
        ensures
            w as int == worst_index(self.kept@),
            w < self.kept@.len(),
    {
        let ghost kept = self.kept@;
        let mut w: usize = 0;
        let mut i: usize = 1;
        while i < self.kept.len()
            invariant
                kept == self.kept@,
                1 <= i <= kept.len(),
                w as int == worst_index(kept.take(i as int)),
                w < i,
            decreases kept.len() - i,
        {
            proof {
                assert(kept.take(i as int + 1).drop_last() =~= kept.take(i as int));
                assert(kept.take(i as int + 1)[w as int] == kept[w as int]);
                assert(kept.take(i as int + 1).last() == kept[i as int]);
            }
            let (sb, sd) = self.kept[i];
            let (wb, wd) = self.kept[w];
            let ks = score_key_of(sb);
            let kw = score_key_of(wb);
            if ks < kw || (ks == kw && sd > wd) {
                w = i;
            }
            i = i + 1;
        }
        assert(kept.take(kept.len() as int) =~= kept);
        w
    }

    /// Offers the next candidate, with score bits `bits`, to the selection. Returns
    /// whether the search goes on.
    pub fn offer(&mut self, bits: u32, doc: u32) -> (go_on: bool)
        requires
            !old(self).stopped(),
            old(self).wf(),
            old(self).k > 0,
            !is_nan_bits(bits),
        ensures
            final(self).k == old(self).k,
            final(self).beta == old(self).beta,
            final(self).wf(),
            final(self).offered@ == old(self).offered@.push((bits, doc)),
            old(self).kept@.len() < old(self).k ==> {
                &&& final(self).kept@ == old(self).kept@.push((bits, doc))
                &&& final(self).stalls == old(self).stalls
            },
            old(self).kept@.len() >= old(self).k && score_gt(bits, old(self).kept@[worst_index(old(self).kept@)].0) ==> {
                &&& final(self).kept@ == old(self).kept@.update(worst_index(old(self).kept@), (bits, doc))
                &&& final(self).stalls == 0
            },
            old(self).kept@.len() >= old(self).k && !score_gt(bits, old(self).kept@[worst_index(old(self).kept@)].0) ==> {
                &&& final(self).kept@ == old(self).kept@
                &&& final(self).stalls == old(self).stalls + 1
            },
            go_on == !final(self).stopped(),
    {
        let ghost old_kept = self.kept@;
        let ghost old_pos = self.kept_pos@;
        let ghost old_offered = self.offered@;
        let ghost q_new = old_offered.len() as int;
        if self.kept.len() < self.k {
            self.kept.push((bits, doc));
            self.offered = Ghost(old_offered.push((bits, doc)));
            self.kept_pos = Ghost(old_pos.push(q_new));
            proof {
                assert forall|q: int, j: int| 0 <= q < self.offered@.len() && 0 <= j < self.kept@.len() && !self.is_kept(q)
                    implies score_key(#[trigger] self.offered@[q].0) <= score_key(#[trigger] self.kept@[j].0) by {
                    assert(self.kept_pos@[self.kept@.len() - 1] == q_new);
                    assert(old_offered.len() == old_kept.len()) by {
                        if old_offered.len() > old_kept.len() {
                            assert(old_kept.len() == self.k);
                        }
                    }
                    assert(q < q_new);
                    assert(old_pos[q] == q);
                    assert(self.kept_pos@[q] == q);
                }
            }
            return true;
        }
        let w = self.worst_position();
        proof { lemma_worst_index_is_min(self.kept@); }
        let (wb, wd) = self.kept[w];
        if score_key_of(bits) > score_key_of(wb) {
            self.kept.set(w, (bits, doc));
            self.stalls = 0;
            self.offered = Ghost(old_offered.push((bits, doc)));
            self.kept_pos = Ghost(old_pos.update(w as int, q_new));
            proof {
                assert forall|q: int, j: int| 0 <= q < self.offered@.len() && 0 <= j < self.kept@.len() && !self.is_kept(q)
                    implies score_key(#[trigger] self.offered@[q].0) <= score_key(#[trigger] self.kept@[j].0) by {
                    assert(self.kept_pos@[w as int] == q_new);
                    assert(q != q_new);
                    assert(self.offered@[q] == old_offered[q]);
                    // `q` was the evicted worst, or was left out before.
                    if old_pos[w as int] == q {
                        assert(score_key(old_kept[w as int].0) <= score_key(old_kept[j].0) || j == w as int);
                    } else {
                        assert(!(exists|jj: int| 0 <= jj < old_pos.len() && #[trigger] old_pos[jj] == q)) by {
                            if exists|jj: int| 0 <= jj < old_pos.len() && #[trigger] old_pos[jj] == q {
                                let jj = choose|jj: int| 0 <= jj < old_pos.len() && #[trigger] old_pos[jj] == q;
                                assert(jj != w as int);
                                assert(self.kept_pos@[jj] == q);
                            }
                        }
                        assert(score_key(old_offered[q].0) <= score_key(old_kept[w as int].0));
                        assert(score_key(old_offered[q].0) <= score_key(old_kept[j].0) || j == w as int);
                    }
                }
                assert forall|j: int, l: int| 0 <= j < self.kept_pos@.len() && 0 <= l < self.kept_pos@.len() && j != l
                    implies #[trigger] self.kept_pos@[j] != #[trigger] self.kept_pos@[l] by {
                    if j != w as int {
                        assert(old_pos[j] < q_new);
                    }
                    if l != w as int {
                        assert(old_pos[l] < q_new);
                    }
                }
            }
            true
        } else {
            self.stalls = self.stalls + 1;
            self.offered = Ghost(old_offered.push((bits, doc)));
            proof {
                assert forall|q: int, j: int| 0 <= q < self.offered@.len() && 0 <= j < self.kept@.len() && !self.is_kept(q)
                    implies score_key(#[trigger] self.offered@[q].0) <= score_key(#[trigger] self.kept@[j].0) by {
                    if q < q_new {
                        assert(self.offered@[q] == old_offered[q]);
                    } else {
                        assert(score_key(bits) <= score_key(old_kept[w as int].0));
                    }
                }
            }
            !(self.stalls >= self.beta)
        }
    }

    /// The kept documents, best first (equal scores by lower document id).
    pub fn finish(&self) -> (top: Vec<(u32, u32)>)
        ensures
            top@.len() == self.kept@.len(),
            forall|ord: Seq<usize>| #[trigger] is_desc_order(result_keys(self.kept@), ord) ==>
                top@ == take_in_order(self.kept@, ord, self.kept@.len() as int),
    {
        let n = self.kept.len();
        let mut keys: Vec<u64> = Vec::new();
        let mut i: usize = 0;
        while i < n
            invariant
                n == self.kept@.len(),
                0 <= i <= n,
                keys@ =~= result_keys(self.kept@).take(i as int),
            decreases n - i,
        {
            let (bits, doc) = self.kept[i];
            let key = score_doc_key_of(bits, doc);
            keys.push(key);
            i = i + 1;
        }
        assert(keys@ =~= result_keys(self.kept@));
        let ord = sort_indices_desc(&keys);
        let top = gather_in_order(&self.kept, &ord, n);
        proof {
            assert forall|o: Seq<usize>| #[trigger] is_desc_order(result_keys(self.kept@), o) implies
                top@ == take_in_order(self.kept@, o, n as int) by {
                lemma_desc_order_unique(keys@, ord@, o);
            }
        }
        top
    }
}

/// Whether stage 3 uses the early-exit selection: `beta` is given, there are at least
/// `k` candidates, and `k > 0`.
pub fn use_early_exit(beta: Option<usize>, n_candidates: usize, k: usize) -> (early: bool)
    ensures
        early == (beta is Some && n_candidates >= k && k > 0),
{
    beta.is_some() && n_candidates >= k && k > 0
}

} // verus!
