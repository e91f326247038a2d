//! Centroid allocation for Token-Aware Clustering: the damped-spread strategy.
//!
//! The budget of centroids is shared among token types as follows.
//! 1. Tail: a type with fewer than [`MICRO_THRESHOLD`] vectors gets one centroid, one
//!    with fewer than [`SMALL_THRESHOLD`] gets two; the other types are *active*.
//! 2. The active types share what the tail leaves of the budget, in proportion to a
//!    damped spread score (computed in floating point by the caller, which hands this
//!    module each type's rounded share and the fractional part that was rounded away).
//! 3. Bounding: a share is raised to [`HARD_FLOOR`] and lowered to the type's cap,
//!    `max(count / MIN_POINTS_PER_CENTROID, HARD_FLOOR)`.
//! 4. Reconciliation: a surplus is handed out one centroid at a time, largest
//!    fractional part first, to types below their cap, and what is still left to every
//!    type regardless of cap; a deficit is taken back one centroid at a time, largest
//!    share first, from types above the floor.

use vstd::prelude::*;
use crate::ordering::{is_desc_order, lemma_desc_order_covers, lemma_desc_order_unique, sort_indices_desc};
use crate::tac::round_robin::{
    as_ints, lemma_elem_le_sum, lemma_round_robin, lemma_sum_concat, lemma_sum_constant,
    lemma_sum_nonneg, lemma_sum_prefix_le, lemma_sum_update, round_robin, round_robin_spec, sum_of,
    sum_usizes,
};

verus! {

/// Token types with fewer vectors than this get a single centroid.
pub const MICRO_THRESHOLD: usize = 128;

/// Token types with fewer vectors than this (and at least `MICRO_THRESHOLD`) get two.
pub const SMALL_THRESHOLD: usize = 256;

/// No active token type gets fewer centroids than this.
pub const HARD_FLOOR: usize = 4;

/// An active token type gets at most one centroid per this many vectors (but at least
/// `HARD_FLOOR`) before reconciliation.
pub const MIN_POINTS_PER_CENTROID: usize = 39;

/// The ids of the token types whose vector count lies in `[lo, hi)`, in input order.
pub open spec fn ids_with_count_in(groups: Seq<(usize, usize)>, lo: int, hi: int) -> Seq<usize>
    decreases groups.len(),
{
    if groups.len() == 0 {
        Seq::empty()
    } else {
        let rest = ids_with_count_in(groups.drop_last(), lo, hi);
        let g = groups.last();
        if lo <= g.1 && g.1 < hi {
            rest.push(g.0)
        } else {
            rest
        }
    }
}

/// The token types (id, count) with at least `lo` vectors, in input order.
pub open spec fn groups_with_count_from(groups: Seq<(usize, usize)>, lo: int) -> Seq<(usize, usize)>
    decreases groups.len(),
{
    if groups.len() == 0 {
        Seq::empty()
    } else {
        let rest = groups_with_count_from(groups.drop_last(), lo);
        let g = groups.last();
        if lo <= g.1 {
            rest.push(g)
        } else {
            rest
        }
    }
}

/// The token types split by size: the two tail classes and the active types.
pub struct TailSplit {
    /// Ids of the types with fewer than `MICRO_THRESHOLD` vectors.
    pub micro: Vec<usize>,
    /// Ids of the types with `MICRO_THRESHOLD` to `SMALL_THRESHOLD - 1` vectors.
    pub small: Vec<usize>,
    /// (id, vector count) of the types with at least `SMALL_THRESHOLD` vectors.
    pub active: Vec<(usize, usize)>,
}

/// Phase 1: splits the token types, given as (id, vector count), into the micro and
/// small tail classes and the active types, each in input order.
pub fn split_token_groups(groups: &Vec<(usize, usize)>) -> (split: TailSplit)
    ensures
        split.micro@ == ids_with_count_in(groups@, 0, MICRO_THRESHOLD as int),
        split.small@ == ids_with_count_in(groups@, MICRO_THRESHOLD as int, SMALL_THRESHOLD as int),
        split.active@ == groups_with_count_from(groups@, SMALL_THRESHOLD as int),
{
    let mut micro: Vec<usize> = Vec::new();
    let mut small: Vec<usize> = Vec::new();
    let mut active: Vec<(usize, usize)> = Vec::new();
    let mut i: usize = 0;
    while i < groups.len()
        invariant
            0 <= i <= groups@.len(),
            micro@ == ids_with_count_in(groups@.take(i as int), 0, MICRO_THRESHOLD as int),
            small@ == ids_with_count_in(groups@.take(i as int), MICRO_THRESHOLD as int, SMALL_THRESHOLD as int),
            active@ == groups_with_count_from(groups@.take(i as int), SMALL_THRESHOLD as int),
        decreases groups@.len() - i,
    {
        let (token_id, n) = groups[i];
        assert(groups@.take(i as int + 1).drop_last() =~= groups@.take(i as int));
        assert(groups@.take(i as int + 1).last() == groups@[i as int]);
        if n < MICRO_THRESHOLD {
            micro.push(token_id);
        } else if n < SMALL_THRESHOLD {
            small.push(token_id);
        } else {
            active.push((token_id, n));
        }
        i = i + 1;
    }
    assert(groups@.take(groups@.len() as int) =~= groups@);
    TailSplit { micro, small, active }
}

impl TailSplit {
    /// The centroids that the tail takes: one per micro type, two per small type.
    pub fn tail_budget(&self) -> (budget: usize)
        requires
            self.micro@.len() + 2 * self.small@.len() <= usize::MAX,
        ensures
            budget == self.micro@.len() + 2 * self.small@.len(),
    {
        self.micro.len() + self.small.len() * 2
    }

    /// Whether the active types take part in the allocation: there are some, and the
    /// tail leaves part of `total_centroids` over.
    pub fn needs_active_allocation(&self, total_centroids: usize) -> (needed: bool)
        requires
            self.micro@.len() + 2 * self.small@.len() <= usize::MAX,
        ensures
            needed == (self.active@.len() > 0 && total_centroids > self.micro@.len() + 2 * self.small@.len()),
    {
        let tail = self.tail_budget();
        let remaining = total_centroids.saturating_sub(tail);
        self.active.len() > 0 && remaining != 0
    }
}

/// The cap of an active type with `count` vectors: one centroid per
/// `MIN_POINTS_PER_CENTROID` vectors, and never below `HARD_FLOOR`.
pub open spec fn cap_for(count: int) -> int {
    let c = count / (MIN_POINTS_PER_CENTROID as int);
    if c > HARD_FLOOR { c } else { HARD_FLOOR as int }
}

/// A share raised to the floor and then lowered to the cap.
pub open spec fn bounded_share(count: int, rounded: int) -> int {
    let floored = if rounded > HARD_FLOOR { rounded } else { HARD_FLOOR as int };
    if floored < cap_for(count) { floored } else { cap_for(count) }
}

/// An active type after bounding.
#[derive(Clone, Copy, Debug)]
pub struct BoundedAllocation {
    pub token_id: usize,
    /// Number of vectors of the type.
    pub count: usize,
    /// Centroids after bounding.
    pub alloc: usize,
    /// Fractional part of the (floored) provisional share, as an order key: a larger
    /// key stands for a larger fraction.
    pub frac_key: u64,
    /// Whether the cap lowered the share.
    pub capped: bool,
}

impl BoundedAllocation {
    /// The bounding invariant: the share lies between the floor and the cap, and a
    /// capped share is at the cap.
    pub open spec fn wf(self) -> bool {
        &&& HARD_FLOOR <= self.alloc <= cap_for(self.count as int)
        &&& self.capped ==> self.alloc == cap_for(self.count as int)
    }
}

/// Phase 3: bounds the rounded provisional share `rounded` of a type with `count`
/// vectors: the share is raised to `HARD_FLOOR`, then lowered to the cap; `capped`
/// records whether the cap lowered it.
pub fn bound_allocation(token_id: usize, count: usize, rounded: usize, frac_key: u64) -> (b: BoundedAllocation)
    ensures
        b.token_id == token_id,
        b.count == count,
        b.frac_key == frac_key,
        b.alloc == bounded_share(count as int, rounded as int),
        b.capped == ((if rounded > HARD_FLOOR { rounded as int } else { HARD_FLOOR as int }) > cap_for(count as int)),
        b.wf(),
{
    let c = count / MIN_POINTS_PER_CENTROID;
    let cap = if c > HARD_FLOOR { c } else { HARD_FLOOR };
    let floored = if rounded > HARD_FLOOR { rounded } else { HARD_FLOOR };
    let alloc = if floored < cap { floored } else { cap };
    let capped = alloc == cap && floored > cap;
    BoundedAllocation { token_id, count, alloc, frac_key, capped }
}

/// The shares of the bounded types, in their order.
pub open spec fn allocs_of(b: Seq<BoundedAllocation>) -> Seq<int> {
    b.map_values(|x: BoundedAllocation| x.alloc as int)
}

/// The centroids allocated before reconciliation: the tail and the bounded shares.
pub open spec fn current_total(b: Seq<BoundedAllocation>, tail: int) -> int {
    tail + sum_of(allocs_of(b))
}

/// The fractional-part keys of the bounded types, in their order.
pub open spec fn frac_keys(b: Seq<BoundedAllocation>) -> Seq<u64> {
    b.map_values(|x: BoundedAllocation| x.frac_key)
}

/// The shares of the bounded types as keys, in their order.
pub open spec fn alloc_keys(b: Seq<BoundedAllocation>) -> Seq<u64> {
    b.map_values(|x: BoundedAllocation| x.alloc as u64)
}

/// The keys that order the types during reconciliation: the fractional parts for a
/// surplus (or an exact match), the shares for a deficit.
pub open spec fn reconcile_keys(b: Seq<BoundedAllocation>, tail: int, total: int) -> Seq<u64> {
    if total < current_total(b, tail) {
        alloc_keys(b)
    } else {
        frac_keys(b)
    }
}

/// Room below the cap, for the types taken in the order `ord`.
pub open spec fn surplus_rooms(b: Seq<BoundedAllocation>, ord: Seq<usize>) -> Seq<int> {
    Seq::new(b.len(), |p: int| cap_for(b[ord[p] as int].count as int) - b[ord[p] as int].alloc)
}

/// Room above the floor, for the types taken in the order `ord`.
pub open spec fn deficit_rooms(b: Seq<BoundedAllocation>, ord: Seq<usize>) -> Seq<int> {
    Seq::new(b.len(), |p: int| b[ord[p] as int].alloc - HARD_FLOOR as int)
}

/// What the capped pass of a surplus gives each type, by position in `ord`.
pub open spec fn surplus_taken(b: Seq<BoundedAllocation>, ord: Seq<usize>, surplus: int) -> Seq<int> {
    round_robin_spec(surplus_rooms(b, ord), surplus)
}

/// What of a surplus the capped pass cannot place.
pub open spec fn surplus_leftover(b: Seq<BoundedAllocation>, ord: Seq<usize>, surplus: int) -> int {
    surplus - sum_of(surplus_taken(b, ord, surplus))
}

/// What the uncapped pass gives each type, by position in `ord`: the leftover handed out
/// round robin with no cap (no type can take more than the whole leftover).
pub open spec fn surplus_extra(b: Seq<BoundedAllocation>, ord: Seq<usize>, surplus: int) -> Seq<int> {
    let left = surplus_leftover(b, ord, surplus);
    round_robin_spec(Seq::new(b.len(), |p: int| left), left)
}

/// What a deficit takes back from each type, by position in `ord`.
pub open spec fn deficit_taken(b: Seq<BoundedAllocation>, ord: Seq<usize>, deficit: int) -> Seq<int> {
    round_robin_spec(deficit_rooms(b, ord), deficit)
}

/// The reconciled share of the type at position `p` of the order `ord`.
pub open spec fn reconciled_at(b: Seq<BoundedAllocation>, tail: int, total: int, ord: Seq<usize>, p: int) -> int {
    let current = current_total(b, tail);
    let a = b[ord[p] as int].alloc as int;
    if total > current {
        let surplus = total - current;
        a + surplus_taken(b, ord, surplus)[p] + surplus_extra(b, ord, surplus)[p]
    } else if total < current {
        a - deficit_taken(b, ord, current - total)[p]
    } else {
        a
    }
}

fn sum_allocs(b: &Vec<BoundedAllocation>) -> (s: usize)
    requires
        sum_of(allocs_of(b@)) <= usize::MAX,
        forall|i: int| 0 <= i < b@.len() ==> (#[trigger] b@[i]).wf(),
    ensures
        s == sum_of(allocs_of(b@)),
{
    let ghost a = allocs_of(b@);
    let mut s: usize = 0;
    let mut i: usize = 0;
    while i < b.len()
        invariant
            a == allocs_of(b@),
            sum_of(a) <= usize::MAX,
            forall|j: int| 0 <= j < b@.len() ==> (#[trigger] b@[j]).wf(),
            0 <= i <= b@.len(),
            s == sum_of(a.take(i as int)),
        decreases b@.len() - i,
    {
        proof {
            assert(a.take(i as int + 1).drop_last() =~= a.take(i as int));
            assert forall|j: int| 0 <= j < a.len() implies 0 <= #[trigger] a[j] by {}
            lemma_sum_prefix_le(a, i as int + 1);
        }
        s = s + b[i].alloc;
        i = i + 1;
    }
    assert(a.take(i as int) =~= a);
    s
}

/// A surplus handed out over the bounded types.
fn distribute_surplus(b: &Vec<BoundedAllocation>, surplus: usize, Ghost(limit): Ghost<int>) -> (finals: Vec<usize>)
    requires
        b@.len() > 0,
        forall|i: int| 0 <= i < b@.len() ==> (#[trigger] b@[i]).wf(),
        sum_of(allocs_of(b@)) + surplus == limit,
        limit <= usize::MAX,
    ensures
        finals@.len() == b@.len(),
        forall|ord: Seq<usize>| #[trigger] is_desc_order(frac_keys(b@), ord) ==>
            forall|p: int| 0 <= p < ord.len() ==> #[trigger] finals@[ord[p] as int] == b@[ord[p] as int].alloc
                + surplus_taken(b@, ord, surplus as int)[p] + surplus_extra(b@, ord, surplus as int)[p],
        sum_of(as_ints(finals@)) == limit,
        forall|i: int| 0 <= i < b@.len() ==> #[trigger] finals@[i] >= b@[i].alloc,
        (forall|i: int| 0 <= i < b@.len() ==> #[trigger] finals@[i] <= cap_for(b@[i].count as int))
            || (forall|i: int| 0 <= i < b@.len() ==> #[trigger] finals@[i] >= cap_for(b@[i].count as int)),
{
    let n = b.len();
    let ghost bs = b@;
    let ghost keys = frac_keys(bs);
    let mut key_vec: Vec<u64> = Vec::new();
    let mut i: usize = 0;
    while i < n
        invariant
            n == bs.len(),
            bs == b@,
            keys == frac_keys(bs),
            0 <= i <= n,
            key_vec@ =~= keys.take(i as int),
        decreases n - i,
    {
        key_vec.push(b[i].frac_key);
        i = i + 1;
    }
    assert(key_vec@ =~= keys);
    let ord = sort_indices_desc(&key_vec);
    proof { lemma_desc_order_covers(keys, ord@); }
    let ghost rooms_spec = surplus_rooms(bs, ord@);
    let mut rooms: Vec<usize> = Vec::new();
    let mut p: usize = 0;
    while p < n
        invariant
            n == bs.len(),
            bs == b@,
            forall|j: int| 0 <= j < bs.len() ==> (#[trigger] bs[j]).wf(),
            is_desc_order(keys, ord@),
            keys.len() == n,
            ord@.len() == n,
            forall|q: int| 0 <= q < n ==> #[trigger] ord@[q] < n,
            rooms_spec == surplus_rooms(bs, ord@),
            0 <= p <= n,
            as_ints(rooms@) =~= rooms_spec.take(p as int),
        decreases n - p,
    {
        let t = ord[p];
        let c = b[t].count / MIN_POINTS_PER_CENTROID;
        let cap = if c > HARD_FLOOR { c } else { HARD_FLOOR };
        let room = cap - b[t].alloc;
        let ghost old_rooms = as_ints(rooms@);
        rooms.push(room);
        proof {
            assert(cap as int == cap_for(bs[t as int].count as int));
            assert(rooms_spec[p as int] == room as int);
            assert(as_ints(rooms@) =~= old_rooms.push(room as int));
            assert(rooms_spec.take(p as int + 1) =~= rooms_spec.take(p as int).push(rooms_spec[p as int]));
        }
        p = p + 1;
    }
    assert(as_ints(rooms@) =~= rooms_spec);
    let taken = round_robin(&rooms, surplus);
    let ghost taken_spec = as_ints(taken@);
    proof {
        lemma_round_robin(rooms_spec, surplus as int);
    }
    let given = sum_usizes(&taken);
    let left = surplus - given;
    let mut even: Vec<usize> = Vec::new();
    let mut p: usize = 0;
    while p < n
        invariant
            0 <= p <= n,
            even@.len() == p,
            forall|j: int| 0 <= j < p ==> #[trigger] even@[j] == left,
        decreases n - p,
    {
        even.push(left);
        p = p + 1;
    }
    let extra = round_robin(&even, left);
    let ghost extra_spec = as_ints(extra@);
    proof {
        assert(as_ints(even@) =~= Seq::new(bs.len(), |p: int| left as int));
        lemma_round_robin(as_ints(even@), left as int);
        lemma_sum_nonneg(as_ints(even@));
        assert(sum_of(extra_spec) == left as int) by {
            if (left as int) > sum_of(as_ints(even@)) {
                lemma_elem_le_sum(as_ints(even@), 0);
            }
        }
        lemma_sum_nonneg(allocs_of(bs));
        assert forall|j: int| 0 <= j < allocs_of(bs).len() implies 0 <= #[trigger] allocs_of(bs)[j] by {}
    }
    let mut finals: Vec<usize> = Vec::new();
    let mut i: usize = 0;
    while i < n
        invariant
            n == bs.len(),
            bs == b@,
            0 <= i <= n,
            finals@.len() == i,
            forall|j: int| 0 <= j < i ==> #[trigger] finals@[j] == bs[j].alloc,
        decreases n - i,
    {
        finals.push(b[i].alloc);
        i = i + 1;
    }
    assert(as_ints(finals@) =~= allocs_of(bs));
    let mut p: usize = 0;
    while p < n
        invariant
            n == bs.len(),
            bs == b@,
            forall|j: int| 0 <= j < bs.len() ==> (#[trigger] bs[j]).wf(),
            is_desc_order(keys, ord@),
            keys.len() == n,
            ord@.len() == n,
            forall|q: int| 0 <= q < n ==> #[trigger] ord@[q] < n,
            forall|i: usize| i < keys.len() ==> #[trigger] ord@.contains(i),
            forall|q: int, r: int| 0 <= q < ord@.len() && 0 <= r < ord@.len() && q != r ==> ord@[q] != ord@[r],
            rooms_spec == surplus_rooms(bs, ord@),
            taken_spec == as_ints(taken@),
            taken_spec == round_robin_spec(rooms_spec, surplus as int),
            taken_spec.len() == n,
            forall|j: int| 0 <= j < n ==> 0 <= #[trigger] taken_spec[j] <= rooms_spec[j],
            sum_of(taken_spec) == given,
            extra_spec == as_ints(extra@),
            extra_spec.len() == n,
            forall|j: int| 0 <= j < n ==> 0 <= #[trigger] extra_spec[j],
            sum_of(extra_spec) == left,
            left == surplus - given,
            sum_of(allocs_of(bs)) + surplus == limit,
            limit <= usize::MAX,
            0 <= p <= n,
            finals@.len() == n,
            forall|q: int| 0 <= q < p ==> #[trigger] finals@[ord@[q] as int] == bs[ord@[q] as int].alloc + taken_spec[q] + extra_spec[q],
            forall|q: int| p <= q < n ==> #[trigger] finals@[ord@[q] as int] == bs[ord@[q] as int].alloc,
            sum_of(as_ints(finals@)) == sum_of(allocs_of(bs)) + sum_of(taken_spec.take(p as int)) + sum_of(extra_spec.take(p as int)),
        decreases n - p,
    {
        let t = ord[p];
        proof {
            lemma_elem_le_sum(allocs_of(bs), t as int);
            lemma_elem_le_sum(taken_spec, p as int);
            lemma_elem_le_sum(extra_spec, p as int);
        }
        let v = b[t].alloc + taken[p] + extra[p];
        let ghost before = as_ints(finals@);
        finals.set(t, v);
        proof {
            assert(before[t as int] == bs[t as int].alloc);
            lemma_sum_update(before, t as int, v as int);
            assert(as_ints(finals@) =~= before.update(t as int, v as int));
            assert(taken_spec.take(p as int + 1).drop_last() =~= taken_spec.take(p as int));
            assert(extra_spec.take(p as int + 1).drop_last() =~= extra_spec.take(p as int));
            assert forall|q: int| 0 <= q < p + 1 implies #[trigger] finals@[ord@[q] as int] == bs[ord@[q] as int].alloc + taken_spec[q] + extra_spec[q] by {
                if q < p {
                    assert(ord@[q] != ord@[p as int]);
                }
            }
            assert forall|q: int| p + 1 <= q < n implies #[trigger] finals@[ord@[q] as int] == bs[ord@[q] as int].alloc by {
                assert(ord@[q] != ord@[p as int]);
            }
        }
        p = p + 1;
    }
    proof {
        assert(taken_spec.take(n as int) =~= taken_spec);
        assert(extra_spec.take(n as int) =~= extra_spec);
        assert forall|ord2: Seq<usize>| #[trigger] is_desc_order(frac_keys(bs), ord2) implies
            forall|p: int| 0 <= p < ord2.len() ==> #[trigger] finals@[ord2[p] as int] == bs[ord2[p] as int].alloc
                + surplus_taken(bs, ord2, surplus as int)[p] + surplus_extra(bs, ord2, surplus as int)[p] by {
            lemma_desc_order_unique(keys, ord@, ord2);
        }
        assert forall|i: int| 0 <= i < bs.len() implies #[trigger] finals@[i] >= bs[i].alloc by {
            assert(ord@.contains(i as usize));
            let q = choose|q: int| 0 <= q < ord@.len() && ord@[q] == i as usize;
            assert(finals@[ord@[q] as int] == bs[ord@[q] as int].alloc + taken_spec[q] + extra_spec[q]);
        }
        if left == 0 {
            assert forall|i: int| 0 <= i < bs.len() implies #[trigger] finals@[i] <= cap_for(bs[i].count as int) by {
                assert(ord@.contains(i as usize));
                let q = choose|q: int| 0 <= q < ord@.len() && ord@[q] == i as usize;
                assert(finals@[ord@[q] as int] == bs[ord@[q] as int].alloc + taken_spec[q] + extra_spec[q]);
                lemma_elem_le_sum(extra_spec, q);
                assert(taken_spec[q] <= rooms_spec[q]);
            }
        } else {
            assert forall|i: int| 0 <= i < bs.len() implies #[trigger] finals@[i] >= cap_for(bs[i].count as int) by {
                assert(ord@.contains(i as usize));
                let q = choose|q: int| 0 <= q < ord@.len() && ord@[q] == i as usize;
                assert(finals@[ord@[q] as int] == bs[ord@[q] as int].alloc + taken_spec[q] + extra_spec[q]);
                assert(taken_spec[q] == rooms_spec[q]);
            }
        }
    }
    finals
}

/// A deficit taken back from the bounded types.
fn withdraw_deficit(b: &Vec<BoundedAllocation>, deficit: usize) -> (finals: Vec<usize>)
    requires
        b@.len() > 0,
        forall|i: int| 0 <= i < b@.len() ==> (#[trigger] b@[i]).wf(),
    ensures
        finals@.len() == b@.len(),
        forall|ord: Seq<usize>| #[trigger] is_desc_order(alloc_keys(b@), ord) ==>
            forall|p: int| 0 <= p < ord.len() ==> #[trigger] finals@[ord[p] as int] == b@[ord[p] as int].alloc
                - deficit_taken(b@, ord, deficit as int)[p],
        forall|i: int| 0 <= i < b@.len() ==> HARD_FLOOR <= #[trigger] finals@[i] <= b@[i].alloc,
        sum_of(as_ints(finals@)) == sum_of(allocs_of(b@)) - deficit
            || forall|i: int| 0 <= i < b@.len() ==> #[trigger] finals@[i] == HARD_FLOOR,
{
    let n = b.len();
    let ghost bs = b@;
    let ghost keys = alloc_keys(bs);
    let mut key_vec: Vec<u64> = Vec::new();
    let mut i: usize = 0;
    while i < n
        invariant
            n == bs.len(),
            bs == b@,
            keys == alloc_keys(bs),
            0 <= i <= n,
            key_vec@ =~= keys.take(i as int),
        decreases n - i,
    {
        key_vec.push(b[i].alloc as u64);
        i = i + 1;
    }
    assert(key_vec@ =~= keys);
    let ord = sort_indices_desc(&key_vec);
    proof { lemma_desc_order_covers(keys, ord@); }
    let ghost rooms_spec = deficit_rooms(bs, ord@);
    let mut rooms: Vec<usize> = Vec::new();
    let mut p: usize = 0;
    while p < n
        invariant
            n == bs.len(),
            bs == b@,
            forall|j: int| 0 <= j < bs.len() ==> (#[trigger] bs[j]).wf(),
            is_desc_order(keys, ord@),
            keys.len() == n,
            ord@.len() == n,
            forall|q: int| 0 <= q < n ==> #[trigger] ord@[q] < n,
            rooms_spec == deficit_rooms(bs, ord@),
            0 <= p <= n,
            as_ints(rooms@) =~= rooms_spec.take(p as int),
        decreases n - p,
    {
        let t = ord[p];
        let room = b[t].alloc - HARD_FLOOR;
        let ghost old_rooms = as_ints(rooms@);
        rooms.push(room);
        proof {
            assert(as_ints(rooms@) =~= old_rooms.push(room as int));
            assert(rooms_spec.take(p as int + 1) =~= rooms_spec.take(p as int).push(rooms_spec[p as int]));
        }
        p = p + 1;
    }
    assert(as_ints(rooms@) =~= rooms_spec);
    let taken = round_robin(&rooms, deficit);
    let ghost taken_spec = as_ints(taken@);
    proof {
        lemma_round_robin(rooms_spec, deficit as int);
    }
    let mut finals: Vec<usize> = Vec::new();
    let mut i: usize = 0;
    while i < n
        invariant
            n == bs.len(),
            bs == b@,
            0 <= i <= n,
            finals@.len() == i,
            forall|j: int| 0 <= j < i ==> #[trigger] finals@[j] == bs[j].alloc,
        decreases n - i,
    {
        finals.push(b[i].alloc);
        i = i + 1;
    }
    assert(as_ints(finals@) =~= allocs_of(bs));
    let mut p: usize = 0;
    while p < n
        invariant
            n == bs.len(),
            bs == b@,
            forall|j: int| 0 <= j < bs.len() ==> (#[trigger] bs[j]).wf(),
            is_desc_order(keys, ord@),
            keys.len() == n,
            ord@.len() == n,
            forall|q: int| 0 <= q < n ==> #[trigger] ord@[q] < n,
            forall|i: usize| i < keys.len() ==> #[trigger] ord@.contains(i),
            forall|q: int, r: int| 0 <= q < ord@.len() && 0 <= r < ord@.len() && q != r ==> ord@[q] != ord@[r],
            rooms_spec == deficit_rooms(bs, ord@),
            taken_spec == as_ints(taken@),
            taken_spec == round_robin_spec(rooms_spec, deficit as int),
            taken_spec.len() == n,
            forall|j: int| 0 <= j < n ==> 0 <= #[trigger] taken_spec[j] <= rooms_spec[j],
            0 <= p <= n,
            finals@.len() == n,
            forall|q: int| 0 <= q < p ==> #[trigger] finals@[ord@[q] as int] == bs[ord@[q] as int].alloc - taken_spec[q],
            forall|q: int| p <= q < n ==> #[trigger] finals@[ord@[q] as int] == bs[ord@[q] as int].alloc,
            sum_of(as_ints(finals@)) == sum_of(allocs_of(bs)) - sum_of(taken_spec.take(p as int)),
        decreases n - p,
    {
        let t = ord[p];
        proof {
            assert(taken_spec[p as int] <= rooms_spec[p as int]);
            assert(rooms_spec[p as int] == bs[t as int].alloc - HARD_FLOOR as int);
        }
        let v = b[t].alloc - taken[p];
        let ghost before = as_ints(finals@);
        finals.set(t, v);
        proof {
            assert(before[t as int] == bs[t as int].alloc);
            lemma_sum_update(before, t as int, v as int);
            assert(as_ints(finals@) =~= before.update(t as int, v as int));
            assert(taken_spec.take(p as int + 1).drop_last() =~= taken_spec.take(p as int));
            assert forall|q: int| 0 <= q < p + 1 implies #[trigger] finals@[ord@[q] as int] == bs[ord@[q] as int].alloc - taken_spec[q] by {
                if q < p {
                    assert(ord@[q] != ord@[p as int]);
                }
            }
            assert forall|q: int| p + 1 <= q < n implies #[trigger] finals@[ord@[q] as int] == bs[ord@[q] as int].alloc by {
                assert(ord@[q] != ord@[p as int]);
            }
        }
        p = p + 1;
    }
    proof {
        assert(taken_spec.take(n as int) =~= taken_spec);
        assert forall|ord2: Seq<usize>| #[trigger] is_desc_order(alloc_keys(bs), ord2) implies
            forall|p: int| 0 <= p < ord2.len() ==> #[trigger] finals@[ord2[p] as int] == bs[ord2[p] as int].alloc
                - deficit_taken(bs, ord2, deficit as int)[p] by {
            lemma_desc_order_unique(keys, ord@, ord2);
        }
        assert forall|i: int| 0 <= i < bs.len() implies HARD_FLOOR <= #[trigger] finals@[i] <= bs[i].alloc by {
            assert(ord@.contains(i as usize));
            let q = choose|q: int| 0 <= q < ord@.len() && ord@[q] == i as usize;
            assert(finals@[ord@[q] as int] == bs[ord@[q] as int].alloc - taken_spec[q]);
        }
        if sum_of(taken_spec) < deficit {
            assert forall|i: int| 0 <= i < bs.len() implies #[trigger] finals@[i] == HARD_FLOOR by {
                assert(ord@.contains(i as usize));
                let q = choose|q: int| 0 <= q < ord@.len() && ord@[q] == i as usize;
                assert(finals@[ord@[q] as int] == bs[ord@[q] as int].alloc - taken_spec[q]);
                assert(taken_spec[q] == rooms_spec[q]);
            }
        }
    }
    finals
}

/// Phase 4: reconciles the bounded shares with the budget `total_centroids`, of which
/// the tail takes `tail_budget`. Returns the final share of each bounded type, in the
/// order of `bounded`.
///
/// With `current = tail_budget + Σ alloc`: a surplus `total_centroids - current` is
/// handed out round robin, largest fractional part first (ties in input order), to the
/// types below their cap, and what that cannot place is handed out round robin to all
/// types regardless of cap; a deficit `current - total_centroids` is taken back round
/// robin, largest share first (ties in input order), from the types above the floor.
pub fn reconcile_budget(bounded: &Vec<BoundedAllocation>, tail_budget: usize, total_centroids: usize) -> (finals: Vec<usize>)
    requires
        bounded@.len() > 0,
        forall|i: int| 0 <= i < bounded@.len() ==> (#[trigger] bounded@[i]).wf(),
        current_total(bounded@, tail_budget as int) <= usize::MAX,
        current_total(bounded@, tail_budget as int) <= i64::MAX,
        total_centroids <= i64::MAX,
    ensures
        finals@.len() == bounded@.len(),
        forall|ord: Seq<usize>| #[trigger] is_desc_order(reconcile_keys(bounded@, tail_budget as int, total_centroids as int), ord) ==>
            forall|p: int| 0 <= p < ord.len() ==> #[trigger] finals@[ord[p] as int]
                == reconciled_at(bounded@, tail_budget as int, total_centroids as int, ord, p),
        // No type ends below the floor.
        forall|i: int| 0 <= i < bounded@.len() ==> HARD_FLOOR <= #[trigger] finals@[i],
        // The budget is met exactly, unless a deficit cannot be taken back without going
        // below the floor, and then every type is at the floor.
        tail_budget + sum_of(as_ints(finals@)) == total_centroids
            || (total_centroids < current_total(bounded@, tail_budget as int)
                && forall|i: int| 0 <= i < bounded@.len() ==> #[trigger] finals@[i] == HARD_FLOOR),
        // A type ends above its cap only when every type has reached its cap.
        (forall|i: int| 0 <= i < bounded@.len() ==> #[trigger] finals@[i] <= cap_for(bounded@[i].count as int))
            || (forall|i: int| 0 <= i < bounded@.len() ==> #[trigger] finals@[i] >= cap_for(bounded@[i].count as int)),
{
    proof {
        lemma_sum_nonneg(allocs_of(bounded@));
    }
    let active_sum = sum_allocs(bounded);
    let current = tail_budget + active_sum;
    if total_centroids > current {
        let surplus = total_centroids - current;
        let finals = distribute_surplus(bounded, surplus, Ghost(sum_of(allocs_of(bounded@)) + surplus));
        proof {
            assert forall|ord: Seq<usize>| #[trigger] is_desc_order(reconcile_keys(bounded@, tail_budget as int, total_centroids as int), ord) implies
                forall|p: int| 0 <= p < ord.len() ==> #[trigger] finals@[ord[p] as int]
                    == reconciled_at(bounded@, tail_budget as int, total_centroids as int, ord, p) by {
                assert(reconcile_keys(bounded@, tail_budget as int, total_centroids as int) == frac_keys(bounded@));
            }
        }
        finals
    } else if total_centroids < current {
        let deficit = current - total_centroids;
        let finals = withdraw_deficit(bounded, deficit);
        proof {
            assert forall|ord: Seq<usize>| #[trigger] is_desc_order(reconcile_keys(bounded@, tail_budget as int, total_centroids as int), ord) implies
                forall|p: int| 0 <= p < ord.len() ==> #[trigger] finals@[ord[p] as int]
                    == reconciled_at(bounded@, tail_budget as int, total_centroids as int, ord, p) by {
                assert(reconcile_keys(bounded@, tail_budget as int, total_centroids as int) == alloc_keys(bounded@));
            }
            assert forall|i: int| 0 <= i < bounded@.len() implies #[trigger] finals@[i] <= cap_for(bounded@[i].count as int) by {
                assert(bounded@[i].wf());
            }
        }
        finals
    } else {
        let n = bounded.len();
        let mut finals: Vec<usize> = Vec::new();
        let mut i: usize = 0;
        while i < n
            invariant
                n == bounded@.len(),
                0 <= i <= n,
                finals@.len() == i,
                forall|j: int| 0 <= j < i ==> #[trigger] finals@[j] == bounded@[j].alloc,
            decreases n - i,
        {
            finals.push(bounded[i].alloc);
            i = i + 1;
        }
        proof {
            assert(as_ints(finals@) =~= allocs_of(bounded@));
            assert forall|i: int| 0 <= i < bounded@.len() implies HARD_FLOOR <= #[trigger] finals@[i] <= cap_for(bounded@[i].count as int) by {
                assert(bounded@[i].wf());
            }
        }
        finals
    }
}

/// The share of an active type as rounded by the caller from its provisional share:
/// `rounded` is the floored share rounded to an integer, `frac_key` orders the
/// fractional parts that were rounded away (a larger key for a larger fraction).
#[derive(Clone, Copy, Debug)]
pub struct ProvisionalShare {
    pub rounded: usize,
    pub frac_key: u64,
}

/// The active types after bounding, in the order of `active`.
pub open spec fn bounded_shares(active: Seq<(usize, usize)>, provisional: Seq<ProvisionalShare>) -> Seq<BoundedAllocation> {
    Seq::new(active.len(), |k: int| BoundedAllocation {
        token_id: active[k].0,
        count: active[k].1,
        alloc: bounded_share(active[k].1 as int, provisional[k].rounded as int) as usize,
        frac_key: provisional[k].frac_key,
        capped: (if provisional[k].rounded > HARD_FLOOR { provisional[k].rounded as int } else { HARD_FLOOR as int })
            > cap_for(active[k].1 as int),
    })
}

/// The number of centroids in an allocation of (token id, centroids) pairs.
pub open spec fn allocated_total(a: Seq<(usize, usize)>) -> int {
    sum_of(centroid_counts(a))
}

/// The centroid counts of an allocation, in its order.
pub open spec fn centroid_counts(a: Seq<(usize, usize)>) -> Seq<int> {
    a.map_values(|e: (usize, usize)| e.1 as int)
}

/// The damped-spread allocation of `total_centroids` centroids among the token types of
/// `split`, as (token id, centroids) pairs: the micro types with one centroid each, then
/// the small types with two, then, when the active types take part (see
/// [`TailSplit::needs_active_allocation`]), each active type with its reconciled share.
/// `provisional[k]` is the rounded provisional share of `split.active[k]`; it is not
/// read when the active types do not take part.
pub fn allocate_centroids(split: &TailSplit, provisional: &Vec<ProvisionalShare>, total_centroids: usize)
    -> (allocation: Vec<(usize, usize)>)
    requires
        split.micro@.len() + 2 * split.small@.len() <= usize::MAX,
        split.micro@.len() + split.small@.len() + split.active@.len() <= usize::MAX,
        (split.active@.len() > 0 && total_centroids > split.micro@.len() + 2 * split.small@.len()) ==> {
            &&& provisional@.len() == split.active@.len()
            &&& current_total(bounded_shares(split.active@, provisional@), (split.micro@.len() + 2 * split.small@.len()) as int) <= usize::MAX
            &&& current_total(bounded_shares(split.active@, provisional@), (split.micro@.len() + 2 * split.small@.len()) as int) <= i64::MAX
            &&& total_centroids <= i64::MAX
        },
    ensures
        ({
            let m = split.micro@.len() as int;
            let s = split.small@.len() as int;
            let tail = m + 2 * s;
            let active_part = split.active@.len() > 0 && total_centroids > tail;
            let b = bounded_shares(split.active@, provisional@);
            &&& allocation@.len() == m + s + if active_part { split.active@.len() as int } else { 0 }
            &&& forall|i: int| 0 <= i < m ==> #[trigger] allocation@[i] == (split.micro@[i], 1usize)
            &&& forall|i: int| 0 <= i < s ==> #[trigger] allocation@[m + i] == (split.small@[i], 2usize)
            &&& active_part ==> forall|k: int| 0 <= k < split.active@.len() ==> (#[trigger] allocation@[m + s + k]).0 == split.active@[k].0
            &&& active_part ==> forall|ord: Seq<usize>| #[trigger] is_desc_order(reconcile_keys(b, tail, total_centroids as int), ord) ==>
                forall|p: int| 0 <= p < ord.len() ==> (#[trigger] allocation@[m + s + ord[p] as int]).1
                    == reconciled_at(b, tail, total_centroids as int, ord, p)
            // Every active type gets at least the floor.
            &&& active_part ==> forall|k: int| 0 <= k < split.active@.len() ==> HARD_FLOOR <= (#[trigger] allocation@[m + s + k]).1
            // Without the active types the allocation is the tail's.
            &&& !active_part ==> allocated_total(allocation@) == tail
            // With them the budget is met exactly, unless a deficit cannot be taken back
            // without going below the floor, and then every active type is at the floor.
            &&& active_part ==> (allocated_total(allocation@) == total_centroids
                || forall|k: int| 0 <= k < split.active@.len() ==> (#[trigger] allocation@[m + s + k]).1 == HARD_FLOOR)
        }),
{
    let m = split.micro.len();
    let s = split.small.len();
    let tail = split.tail_budget();
    let active_part = split.needs_active_allocation(total_centroids);
    let mut allocation: Vec<(usize, usize)> = Vec::new();
    let mut i: usize = 0;
    while i < m
        invariant
            m == split.micro@.len(),
            0 <= i <= m,
            allocation@.len() == i,
            forall|j: int| 0 <= j < i ==> #[trigger] allocation@[j] == (split.micro@[j], 1usize),
        decreases m - i,
    {
        allocation.push((split.micro[i], 1));
        i = i + 1;
    }
    let mut i: usize = 0;
    while i < s
        invariant
            m == split.micro@.len(),
            s == split.small@.len(),
            0 <= i <= s,
            allocation@.len() == m + i,
            forall|j: int| 0 <= j < m ==> #[trigger] allocation@[j] == (split.micro@[j], 1usize),
            forall|j: int| 0 <= j < i ==> #[trigger] allocation@[m + j] == (split.small@[j], 2usize),
        decreases s - i,
    {
        allocation.push((split.small[i], 2));
        i = i + 1;
    }
    let ghost tail_part = allocation@;
    proof {
        let ones = Seq::new(m as nat, |p: int| 1int);
        let twos = Seq::new(s as nat, |p: int| 2int);
        assert forall|j: int| 0 <= j < m + s implies #[trigger] centroid_counts(tail_part)[j]
            == (ones + twos)[j] by {
            if j >= m {
                assert(tail_part[m + (j - m)] == (split.small@[j - m], 2usize));
            }
        }
        assert(centroid_counts(tail_part) =~= ones + twos);
        lemma_sum_concat(Seq::new(m as nat, |p: int| 1int), Seq::new(s as nat, |p: int| 2int));
        lemma_sum_constant(m as int, 1);
        lemma_sum_constant(s as int, 2);
    }
    if !active_part {
        return allocation;
    }
    let ghost b = bounded_shares(split.active@, provisional@);
    let na = split.active.len();
    let mut bounded: Vec<BoundedAllocation> = Vec::new();
    let mut k: usize = 0;
    while k < na
        invariant
            na == split.active@.len(),
            provisional@.len() == na,
            b == bounded_shares(split.active@, provisional@),
            0 <= k <= na,
            bounded@ =~= b.take(k as int),
        decreases na - k,
    {
        let (token_id, count) = split.active[k];
        let share = provisional[k];
        let one = bound_allocation(token_id, count, share.rounded, share.frac_key);
        bounded.push(one);
        k = k + 1;
    }
    assert(bounded@ =~= b);
    let finals = reconcile_budget(&bounded, tail, total_centroids);
    let mut k: usize = 0;
    while k < na
        invariant
            na == split.active@.len(),
            finals@.len() == na,
            allocation@.len() == m + s + k,
            0 <= k <= na,
            allocation@.take(m + s) == tail_part,
            tail_part.len() == m + s,
            m == split.micro@.len(),
            s == split.small@.len(),
            forall|j: int| 0 <= j < m ==> #[trigger] tail_part[j] == (split.micro@[j], 1usize),
            forall|j: int| 0 <= j < s ==> #[trigger] tail_part[m + j] == (split.small@[j], 2usize),
            forall|j: int| 0 <= j < k ==> #[trigger] allocation@[m + s + j] == (split.active@[j].0, finals@[j]),
        decreases na - k,
    {
        allocation.push((split.active[k].0, finals[k]));
        proof {
            assert(allocation@.take(m + s) =~= tail_part);
        }
        k = k + 1;
    }
    proof {
        assert forall|i: int| 0 <= i < m implies #[trigger] allocation@[i] == (split.micro@[i], 1usize) by {
            assert(allocation@.take(m + s)[i] == tail_part[i]);
        }
        assert forall|i: int| 0 <= i < s implies #[trigger] allocation@[m + i] == (split.small@[i], 2usize) by {
            assert(allocation@.take(m + s)[m + i] == tail_part[m + i]);
        }
        let all = centroid_counts(allocation@);
        let rhs = centroid_counts(tail_part) + as_ints(finals@);
        assert forall|j: int| 0 <= j < all.len() implies #[trigger] all[j] == rhs[j] by {
            if j < m + s {
                assert(allocation@.take(m + s)[j] == tail_part[j]);
            } else {
                assert(allocation@[m + s + (j - m - s)] == (split.active@[j - m - s].0, finals@[j - m - s]));
            }
        }
        assert(all =~= rhs);
        lemma_sum_concat(centroid_counts(tail_part), as_ints(finals@));
    }
    allocation
}

} // verus!
