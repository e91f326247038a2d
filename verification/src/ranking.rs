//! What the ranked results of the search are, as sets of scores: the `i`-th best score
//! of a ranking depends only on which scores were ranked, and ranking more documents
//! never lowers it.

use vstd::prelude::*;
use vstd::relations::injective_on;
use vstd::set_lib::{lemma_int_range, lemma_len_subset, lemma_map_size, lemma_map_size_bound, set_int_range};
use crate::ordering::{is_desc_order, lemma_desc_order_covers};
use crate::search::{BetaTopK, at_least, is_nan_bits, lemma_score_doc_key, result_keys, score_ge, score_key, scored_keys};

verus! {

/// `o` lists position `x` among its first `n` entries.
pub open spec fn in_prefix(o: Seq<usize>, n: int, x: int) -> bool {
    exists|r: int| 0 <= r < n && #[trigger] o[r] as int == x
}

/// `o` lists each position of `s` once, by score (the first component) from highest to
/// lowest.
pub open spec fn ranks_desc(s: Seq<(u32, u32)>, o: Seq<usize>) -> bool {
    &&& o.len() == s.len()
    &&& forall|p: int| 0 <= p < o.len() ==> #[trigger] o[p] < s.len()
    &&& forall|p: int, q: int| 0 <= p < o.len() && 0 <= q < o.len() && p != q ==> #[trigger] o[p] != #[trigger] o[q]
    &&& forall|x: usize| x < s.len() ==> #[trigger] o.contains(x)
    &&& forall|p: int, q: int| 0 <= p <= q < o.len() ==> score_key(s[#[trigger] o[p] as int].0) >= score_key(s[#[trigger] o[q] as int].0)
}

/// The `i`-th best score of the ranking `o` of `s`.
pub open spec fn rank_score(s: Seq<(u32, u32)>, o: Seq<usize>, i: int) -> u32 {
    score_key(s[o[i] as int].0)
}

/// An order by score alone (ties by position) ranks by score.
pub proof fn lemma_scored_order_ranks(s: Seq<(u32, u32)>, o: Seq<usize>)
    requires
        is_desc_order(scored_keys(s), o),
    ensures
        ranks_desc(s, o),
{
    lemma_desc_order_covers(scored_keys(s), o);
    assert forall|p: int, q: int| 0 <= p <= q < o.len() implies score_key(s[#[trigger] o[p] as int].0) >= score_key(s[#[trigger] o[q] as int].0) by {
        if p < q {
            assert(scored_keys(s)[o[p] as int] == score_key(s[o[p] as int].0) as u64);
            assert(scored_keys(s)[o[q] as int] == score_key(s[o[q] as int].0) as u64);
        }
    }
}

/// An order by score and then document id ranks by score.
pub proof fn lemma_result_order_ranks(s: Seq<(u32, u32)>, o: Seq<usize>)
    requires
        is_desc_order(result_keys(s), o),
    ensures
        ranks_desc(s, o),
{
    lemma_desc_order_covers(result_keys(s), o);
    assert forall|p: int, q: int| 0 <= p <= q < o.len() implies score_key(s[#[trigger] o[p] as int].0) >= score_key(s[#[trigger] o[q] as int].0) by {
        if p < q {
            let a = s[o[p] as int];
            let b = s[o[q] as int];
            lemma_score_doc_key(a.0, a.1, b.0, b.1);
        }
    }
}

/// An injective map sends one of `i + 1` positions outside the first `i` entries of `o`.
proof fn lemma_no_injection(i: int, f: spec_fn(int) -> int, o: Seq<usize>)
    requires
        0 <= i <= o.len(),
        injective_on(f, set_int_range(0, i + 1)),
    ensures
        exists|p: int| 0 <= p <= i && !#[trigger] in_prefix(o, i, f(p)),
{
    if exists|p: int| 0 <= p <= i && !#[trigger] in_prefix(o, i, f(p)) {
        return;
    }
    let a = set_int_range(0, i + 1);
    let b = set_int_range(0, i);
    lemma_int_range(0, i + 1);
    lemma_int_range(0, i);
    let fa = a.map(f);
    let g = |r: int| o[r] as int;
    let gb = b.map(g);
    lemma_map_size(a, fa, f);
    lemma_map_size_bound(b, gb, g);
    assert forall|y: int| fa.contains(y) implies gb.contains(y) by {
        let p = choose|p: int| a.contains(p) && f(p) == y;
        assert(in_prefix(o, i, f(p)));
        let r = choose|r: int| 0 <= r < i && #[trigger] o[r] as int == f(p);
        assert(b.contains(r));
        assert(g(r) == y);
    }
    lemma_len_subset(fa, gb);
}

/// Ranking more scores never lowers the `i`-th best: if each score of `s1` is matched,
/// at a position of its own, by a score of `s2` at least as high, then `s1` is no longer
/// than `s2` and its `i`-th best score is at most the `i`-th best of `s2`.
pub proof fn lemma_rank_dominated(s1: Seq<(u32, u32)>, o1: Seq<usize>, s2: Seq<(u32, u32)>, o2: Seq<usize>, m: Seq<usize>)
    requires
        ranks_desc(s1, o1),
        ranks_desc(s2, o2),
        m.len() == s1.len(),
        forall|j: int| 0 <= j < m.len() ==> #[trigger] m[j] < s2.len(),
        forall|j: int, l: int| 0 <= j < m.len() && 0 <= l < m.len() && j != l ==> #[trigger] m[j] != #[trigger] m[l],
        forall|j: int| 0 <= j < m.len() ==> score_key(s1[j].0) <= score_key(s2[#[trigger] m[j] as int].0),
    ensures
        s1.len() <= s2.len(),
        forall|i: int| 0 <= i < s1.len() ==> rank_score(s1, o1, i) <= #[trigger] rank_score(s2, o2, i),
{
    if s1.len() > s2.len() {
        let n = s2.len() as int;
        let f = |p: int| m[p] as int;
        assert(injective_on(f, set_int_range(0, n + 1))) by {
            assert forall|p: int, q: int| set_int_range(0, n + 1).contains(p) && set_int_range(0, n + 1).contains(q)
                && #[trigger] f(p) == #[trigger] f(q) implies p == q by {
                if p != q {
                    assert(m[p] != m[q]);
                }
            }
        }
        lemma_no_injection(n, f, o2);
        let p = choose|p: int| 0 <= p <= n && !#[trigger] in_prefix(o2, n, f(p));
        assert(o2.contains(m[p]));
        let r = choose|r: int| 0 <= r < o2.len() && o2[r] == m[p];
        assert(in_prefix(o2, n, f(p)));
    }
    assert forall|i: int| 0 <= i < s1.len() implies rank_score(s1, o1, i) <= #[trigger] rank_score(s2, o2, i) by {
        let w = rank_score(s2, o2, i);
        if rank_score(s1, o1, i) > w {
            let f = |p: int| m[o1[p] as int] as int;
            assert(injective_on(f, set_int_range(0, i + 1))) by {
                assert forall|p: int, q: int| set_int_range(0, i + 1).contains(p) && set_int_range(0, i + 1).contains(q)
                    && #[trigger] f(p) == #[trigger] f(q) implies p == q by {
                    if p != q {
                        assert(o1[p] != o1[q]);
                        assert(m[o1[p] as int] != m[o1[q] as int]);
                    }
                }
            }
            lemma_no_injection(i, f, o2);
            let p = choose|p: int| 0 <= p <= i && !#[trigger] in_prefix(o2, i, f(p));
            let x = o1[p] as int;
            assert(score_key(s1[o1[p] as int].0) >= score_key(s1[o1[i] as int].0));
            assert(score_key(s1[x].0) <= score_key(s2[m[x] as int].0));
            let y = m[x];
            assert(o2.contains(y));
            let r = choose|r: int| 0 <= r < o2.len() && o2[r] == y;
            if r >= i {
                assert(score_key(s2[o2[i] as int].0) >= score_key(s2[o2[r] as int].0));
            } else {
                assert(in_prefix(o2, i, f(p)));
            }
        }
    }
}


/// The positions in `s` of the candidates that `at_least(s, threshold)` keeps.
pub open spec fn at_least_positions(s: Seq<(u32, u32)>, threshold: u32) -> Seq<int>
    decreases s.len(),
{
    if s.len() == 0 {
        Seq::empty()
    } else {
        let rest = at_least_positions(s.drop_last(), threshold);
        if score_ge(s.last().1, threshold) { rest.push(s.len() - 1) } else { rest }
    }
}

proof fn lemma_at_least_positions(s: Seq<(u32, u32)>, t: u32)
    ensures
        at_least_positions(s, t).len() == at_least(s, t).len(),
        forall|j: int| 0 <= j < at_least(s, t).len() ==> 0 <= #[trigger] at_least_positions(s, t)[j] < s.len()
            && s[at_least_positions(s, t)[j]] == at_least(s, t)[j],
        forall|j: int, l: int| 0 <= j < l < at_least(s, t).len()
            ==> #[trigger] at_least_positions(s, t)[j] < #[trigger] at_least_positions(s, t)[l],
    decreases s.len(),
{
    if s.len() > 0 {
        lemma_at_least_positions(s.drop_last(), t);
        let rest = at_least_positions(s.drop_last(), t);
        assert forall|j: int| 0 <= j < rest.len() implies 0 <= #[trigger] rest[j] < s.len() - 1 by {}
    }
}

/// Pruning at a higher threshold keeps what pruning the result of a lower threshold at
/// the higher one keeps.
pub proof fn lemma_prune_nested(c: Seq<(u32, u32)>, t1: u32, t2: u32)
    requires
        !is_nan_bits(t1),
        !is_nan_bits(t2),
        score_key(t2) <= score_key(t1),
    ensures
        at_least(c, t1) == at_least(at_least(c, t2), t1),
        at_least(c, t1).len() <= at_least(c, t2).len(),
    decreases c.len(),
{
    if c.len() > 0 {
        lemma_prune_nested(c.drop_last(), t1, t2);
        let r2 = at_least(c.drop_last(), t2);
        if score_ge(c.last().1, t2) {
            assert(r2.push(c.last()).drop_last() =~= r2);
        }
    }
    lemma_at_least_positions(at_least(c, t2), t1);
}

/// The documents of `s` (score bits, document id) scored anew: `(rescore(id), id)`.
pub open spec fn rescored(s: Seq<(u32, u32)>, rescore: spec_fn(u32) -> u32) -> Seq<(u32, u32)> {
    Seq::new(s.len(), |i: int| (rescore(s[i].0), s[i].0))
}

/// A higher alpha-pruning threshold never ranks a document higher: when the candidates
/// `c` (document id, score bits) are pruned at `t1`, at least `t2`, and the survivors
/// are scored anew by `rescore` and ranked, there are no more of them than with `t2`,
/// and the `i`-th best score is at most the `i`-th best with `t2`.
pub proof fn lemma_higher_threshold_ranks_lower(
    c: Seq<(u32, u32)>,
    t1: u32,
    t2: u32,
    rescore: spec_fn(u32) -> u32,
    o1: Seq<usize>,
    o2: Seq<usize>,
)
    requires
        !is_nan_bits(t1),
        !is_nan_bits(t2),
        score_key(t2) <= score_key(t1),
        c.len() <= usize::MAX,
        is_desc_order(scored_keys(rescored(at_least(c, t1), rescore)), o1),
        is_desc_order(scored_keys(rescored(at_least(c, t2), rescore)), o2),
    ensures
        at_least(c, t1).len() <= at_least(c, t2).len(),
        forall|i: int| 0 <= i < at_least(c, t1).len() ==>
            rank_score(rescored(at_least(c, t1), rescore), o1, i)
                <= #[trigger] rank_score(rescored(at_least(c, t2), rescore), o2, i),
{
    let a1 = at_least(c, t1);
    let a2 = at_least(c, t2);
    let s1 = rescored(a1, rescore);
    let s2 = rescored(a2, rescore);
    lemma_prune_nested(c, t1, t2);
    lemma_at_least_positions(a2, t1);
    lemma_at_least_len(c, t2);
    let pos = at_least_positions(a2, t1);
    let m = Seq::new(a1.len(), |j: int| pos[j] as usize);
    lemma_scored_order_ranks(s1, o1);
    lemma_scored_order_ranks(s2, o2);
    assert forall|j: int| 0 <= j < m.len() implies #[trigger] m[j] < s2.len() && m[j] as int == pos[j] by {}
    assert forall|j: int, l: int| 0 <= j < m.len() && 0 <= l < m.len() && j != l implies #[trigger] m[j] != #[trigger] m[l] by {
        if j < l {
            assert(pos[j] < pos[l]);
        } else {
            assert(pos[l] < pos[j]);
        }
    }
    assert forall|j: int| 0 <= j < m.len() implies score_key(s1[j].0) <= score_key(s2[#[trigger] m[j] as int].0) by {
        assert(a2[pos[j]] == a1[j]);
    }
    lemma_rank_dominated(s1, o1, s2, o2, m);
}

proof fn lemma_at_least_len(c: Seq<(u32, u32)>, t: u32)
    ensures
        at_least(c, t).len() <= c.len(),
    decreases c.len(),
{
    if c.len() > 0 {
        lemma_at_least_len(c.drop_last(), t);
    }
}


/// Early exit with `beta` at least the number of documents offered never stops the
/// search: at most all but the `k` kept documents can have stalled, fewer than `beta`.
pub proof fn lemma_beta_never_stops(t: BetaTopK)
    requires
        t.wf(),
        t.k > 0,
        t.beta >= t.offered@.len(),
    ensures
        !t.stopped(),
{
}

/// Once at least `k` documents were offered, the kept ones are `k` documents whose
/// scores, best first, are the `k` best scores of all the documents offered: early
/// exit that offered every candidate returns the scores that ranking them all does.
pub proof fn lemma_beta_keeps_best(t: BetaTopK, ot: Seq<usize>, os: Seq<usize>)
    requires
        t.wf(),
        t.offered@.len() >= t.k,
        t.offered@.len() <= usize::MAX,
        is_desc_order(result_keys(t.kept@), ot),
        is_desc_order(scored_keys(t.offered@), os),
    ensures
        t.kept@.len() == t.k,
        forall|i: int| 0 <= i < t.k ==> #[trigger] rank_score(t.kept@, ot, i) == rank_score(t.offered@, os, i),
{
    let kept = t.kept@;
    let offered = t.offered@;
    let kp = t.kept_pos@;
    lemma_result_order_ranks(kept, ot);
    lemma_scored_order_ranks(offered, os);
    let m = Seq::new(kept.len(), |j: int| kp[j] as usize);
    assert forall|j: int| 0 <= j < m.len() implies #[trigger] m[j] < offered.len() && m[j] as int == kp[j] by {}
    assert forall|j: int, l: int| 0 <= j < m.len() && 0 <= l < m.len() && j != l implies #[trigger] m[j] != #[trigger] m[l] by {
        assert(kp[j] != kp[l]);
    }
    assert forall|j: int| 0 <= j < m.len() implies score_key(kept[j].0) <= score_key(offered[#[trigger] m[j] as int].0) by {
        assert(offered[kp[j]] == kept[j]);
    }
    lemma_rank_dominated(kept, ot, offered, os, m);
    assert forall|i: int| 0 <= i < t.k implies #[trigger] rank_score(kept, ot, i) == rank_score(offered, os, i) by {
        let w = rank_score(kept, ot, i);
        if rank_score(offered, os, i) > w {
            let f = |p: int| choose|j: int| 0 <= j < kp.len() && #[trigger] kp[j] == os[p] as int;
            assert forall|p: int| 0 <= p <= i implies t.is_kept(os[p] as int) && 0 <= #[trigger] f(p) < kp.len()
                && kp[f(p)] == os[p] as int by {
                let x = os[p] as int;
                assert(score_key(offered[os[p] as int].0) >= score_key(offered[os[i] as int].0));
                if !t.is_kept(x) {
                    assert(score_key(offered[x].0) <= score_key(kept[ot[i] as int].0));
                }
            }
            assert(injective_on(f, set_int_range(0, i + 1))) by {
                assert forall|p: int, q: int| set_int_range(0, i + 1).contains(p) && set_int_range(0, i + 1).contains(q)
                    && #[trigger] f(p) == #[trigger] f(q) implies p == q by {
                    assert(kp[f(p)] == os[p] as int);
                    assert(kp[f(q)] == os[q] as int);
                    if p != q {
                        assert(os[p] != os[q]);
                    }
                }
            }
            lemma_no_injection(i, f, ot);
            let p = choose|p: int| 0 <= p <= i && !#[trigger] in_prefix(ot, i, f(p));
            let j = f(p);
            assert(kp[j] == os[p] as int);
            assert(score_key(offered[os[p] as int].0) >= score_key(offered[os[i] as int].0));
            assert(offered[kp[j]] == kept[j]);
            assert(ot.contains(j as usize));
            let r = choose|r: int| 0 <= r < ot.len() && ot[r] == j as usize;
            if r >= i {
                assert(score_key(kept[ot[i] as int].0) >= score_key(kept[ot[r] as int].0));
            } else {
                assert(ot[r] as int == f(p));
                assert(in_prefix(ot, i, f(p)));
            }
        }
    }
}

} // verus!
