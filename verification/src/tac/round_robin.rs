//! Handing out a budget one unit at a time, in a fixed order, to slots of limited room.
//!
//! Each pass visits the slots in order and gives one unit to every slot that still has
//! room, until the budget is spent; passes repeat while they hand out anything.

use vstd::prelude::*;

verus! {

/// The sum of a sequence of integers.
pub open spec fn sum_of(s: Seq<int>) -> int
    decreases s.len(),
{
    if s.len() == 0 {
        0
    } else {
        sum_of(s.drop_last()) + s.last()
    }
}

/// A sequence of machine integers read as mathematical integers.
pub open spec fn as_ints(s: Seq<usize>) -> Seq<int> {
    s.map_values(|x: usize| x as int)
}

/// One pass from slot `p` on: every slot with room left gets one unit while the budget
/// lasts. Returns what each slot holds afterwards and what is left of the budget.
pub open spec fn rr_pass(rooms: Seq<int>, taken: Seq<int>, left: int, p: int) -> (Seq<int>, int)
    decreases rooms.len() - p,
{
    if p >= rooms.len() || p < 0 {
        (taken, left)
    } else if left > 0 && taken[p] < rooms[p] {
        rr_pass(rooms, taken.update(p, taken[p] + 1), left - 1, p + 1)
    } else {
        rr_pass(rooms, taken, left, p + 1)
    }
}

/// Passes repeated until one of them hands out nothing.
pub open spec fn rr_rounds(rooms: Seq<int>, taken: Seq<int>, left: int) -> Seq<int>
    decreases left,
{
    let (next, rest) = rr_pass(rooms, taken, left, 0);
    if rest >= left || rest < 0 {
        taken
    } else {
        rr_rounds(rooms, next, rest)
    }
}

/// How many units each slot receives when `budget` units are handed out round robin
/// over slots with the given `rooms`.
pub open spec fn round_robin_spec(rooms: Seq<int>, budget: int) -> Seq<int> {
    rr_rounds(rooms, Seq::new(rooms.len(), |p: int| 0int), budget)
}

pub proof fn lemma_sum_update(s: Seq<int>, i: int, v: int)
    requires
        0 <= i < s.len(),
    ensures
        sum_of(s.update(i, v)) == sum_of(s) - s[i] + v,
    decreases s.len(),
{
    if i == s.len() - 1 {
        assert(s.update(i, v).drop_last() =~= s.drop_last());
    } else {
        assert(s.update(i, v).drop_last() =~= s.drop_last().update(i, v));
        lemma_sum_update(s.drop_last(), i, v);
    }
}

pub proof fn lemma_sum_zeros(n: int)
    requires
        n >= 0,
    ensures
        sum_of(Seq::new(n as nat, |p: int| 0int)) == 0,
    decreases n,
{
    if n > 0 {
        assert(Seq::new(n as nat, |p: int| 0int).drop_last() =~= Seq::new((n - 1) as nat, |p: int| 0int));
        lemma_sum_zeros(n - 1);
    }
}

pub proof fn lemma_sum_le(a: Seq<int>, b: Seq<int>)
    requires
        a.len() == b.len(),
        forall|i: int| 0 <= i < a.len() ==> #[trigger] a[i] <= b[i],
    ensures
        sum_of(a) <= sum_of(b),
    decreases a.len(),
{
    if a.len() > 0 {
        lemma_sum_le(a.drop_last(), b.drop_last());
    }
}

/// What one pass does: it hands out `left - rest` units, one at most per slot, within
/// the rooms, and touches no slot before `p`; a pass that hands out nothing although
/// budget remains finds every slot from `p` on full.
pub proof fn lemma_rr_pass(rooms: Seq<int>, taken: Seq<int>, left: int, p: int)
    requires
        taken.len() == rooms.len(),
        0 <= p <= rooms.len(),
        left >= 0,
        forall|i: int| 0 <= i < rooms.len() ==> 0 <= #[trigger] taken[i] <= rooms[i],
    ensures
        ({
            let (next, rest) = rr_pass(rooms, taken, left, p);
            &&& next.len() == taken.len()
            &&& 0 <= rest <= left
            &&& sum_of(next) == sum_of(taken) + (left - rest)
            &&& forall|i: int| 0 <= i < rooms.len() ==> taken[i] <= #[trigger] next[i] <= rooms[i]
            &&& forall|i: int| 0 <= i < rooms.len() ==> #[trigger] next[i] <= taken[i] + 1
            &&& forall|i: int| 0 <= i < p ==> #[trigger] next[i] == taken[i]
            &&& (rest == left && left > 0) ==> forall|i: int| p <= i < rooms.len() ==> #[trigger] taken[i] == rooms[i]
        }),
    decreases rooms.len() - p,
{
    if p < rooms.len() {
        if left > 0 && taken[p] < rooms[p] {
            let t2 = taken.update(p, taken[p] + 1);
            lemma_sum_update(taken, p, taken[p] + 1);
            lemma_rr_pass(rooms, t2, left - 1, p + 1);
        } else {
            lemma_rr_pass(rooms, taken, left, p + 1);
        }
    }
}

/// What the repeated passes do: every slot ends within its room, and the units handed
/// out are the budget or, when the rooms cannot take it all, all the room there was.
pub proof fn lemma_rr_rounds(rooms: Seq<int>, taken: Seq<int>, left: int)
    requires
        taken.len() == rooms.len(),
        left >= 0,
        forall|i: int| 0 <= i < rooms.len() ==> 0 <= #[trigger] taken[i] <= rooms[i],
    ensures
        ({
            let r = rr_rounds(rooms, taken, left);
            let room = sum_of(rooms) - sum_of(taken);
            &&& r.len() == rooms.len()
            &&& forall|i: int| 0 <= i < rooms.len() ==> taken[i] <= #[trigger] r[i] <= rooms[i]
            &&& sum_of(r) - sum_of(taken) == if left <= room { left } else { room }
        }),
    decreases left,
{
    let (next, rest) = rr_pass(rooms, taken, left, 0);
    lemma_rr_pass(rooms, taken, left, 0);
    lemma_sum_le(taken, rooms);
    if rest >= left || rest < 0 {
        if left > 0 {
            assert(sum_of(rooms) == sum_of(taken)) by {
                assert(taken =~= rooms);
            }
        }
    } else {
        lemma_rr_rounds(rooms, next, rest);
    }
}

pub proof fn lemma_sum_eq_pointwise(a: Seq<int>, b: Seq<int>)
    requires
        a.len() == b.len(),
        forall|i: int| 0 <= i < a.len() ==> #[trigger] a[i] <= b[i],
        sum_of(a) == sum_of(b),
    ensures
        forall|i: int| 0 <= i < a.len() ==> #[trigger] a[i] == b[i],
    decreases a.len(),
{
    if a.len() > 0 {
        lemma_sum_le(a.drop_last(), b.drop_last());
        lemma_sum_eq_pointwise(a.drop_last(), b.drop_last());
        assert forall|i: int| 0 <= i < a.len() implies #[trigger] a[i] == b[i] by {
            if i < a.len() - 1 {
                assert(a.drop_last()[i] == b.drop_last()[i]);
            }
        }
    }
}

pub proof fn lemma_sum_concat(a: Seq<int>, b: Seq<int>)
    ensures
        sum_of(a + b) == sum_of(a) + sum_of(b),
    decreases b.len(),
{
    if b.len() > 0 {
        assert((a + b).drop_last() =~= a + b.drop_last());
        lemma_sum_concat(a, b.drop_last());
    } else {
        assert(a + b =~= a);
    }
}

pub proof fn lemma_sum_constant(n: int, c: int)
    requires
        n >= 0,
    ensures
        sum_of(Seq::new(n as nat, |p: int| c)) == n * c,
    decreases n,
{
    if n > 0 {
        assert(Seq::new(n as nat, |p: int| c).drop_last() =~= Seq::new((n - 1) as nat, |p: int| c));
        lemma_sum_constant(n - 1, c);
        assert((n - 1) * c + c == n * c) by (nonlinear_arith);
    } else {
        assert(n * c == 0) by (nonlinear_arith)
            requires
                n == 0,
        ;
    }
}

/// An element of a sequence of non-negative integers is at most its sum.
pub proof fn lemma_elem_le_sum(s: Seq<int>, i: int)
    requires
        0 <= i < s.len(),
        forall|j: int| 0 <= j < s.len() ==> 0 <= #[trigger] s[j],
    ensures
        s[i] <= sum_of(s),
        0 <= sum_of(s),
    decreases s.len(),
{
    lemma_sum_nonneg(s.drop_last());
    if i < s.len() - 1 {
        lemma_elem_le_sum(s.drop_last(), i);
    }
}

pub proof fn lemma_sum_nonneg(s: Seq<int>)
    requires
        forall|j: int| 0 <= j < s.len() ==> 0 <= #[trigger] s[j],
    ensures
        0 <= sum_of(s),
    decreases s.len(),
{
    if s.len() > 0 {
        lemma_sum_nonneg(s.drop_last());
    }
}

/// A prefix of a sequence of non-negative integers sums to at most the whole.
pub proof fn lemma_sum_prefix_le(s: Seq<int>, i: int)
    requires
        0 <= i <= s.len(),
        forall|j: int| 0 <= j < s.len() ==> 0 <= #[trigger] s[j],
    ensures
        sum_of(s.take(i)) <= sum_of(s),
    decreases s.len(),
{
    if i < s.len() {
        assert(s.drop_last().take(i) =~= s.take(i));
        lemma_sum_prefix_le(s.drop_last(), i);
    } else {
        assert(s.take(i) =~= s);
    }
}

/// The round robin hands out the whole budget when the rooms can take it, and all the
/// room there is otherwise; no slot gets more than its room.
pub proof fn lemma_round_robin(rooms: Seq<int>, budget: int)
    requires
        budget >= 0,
        forall|i: int| 0 <= i < rooms.len() ==> 0 <= #[trigger] rooms[i],
    ensures
        ({
            let r = round_robin_spec(rooms, budget);
            &&& r.len() == rooms.len()
            &&& forall|i: int| 0 <= i < rooms.len() ==> 0 <= #[trigger] r[i] <= rooms[i]
            &&& sum_of(r) == if budget <= sum_of(rooms) { budget } else { sum_of(rooms) }
            &&& sum_of(r) < budget ==> forall|i: int| 0 <= i < rooms.len() ==> #[trigger] r[i] == rooms[i]
        }),
{
    let zeros = Seq::new(rooms.len(), |p: int| 0int);
    lemma_sum_zeros(rooms.len() as int);
    lemma_rr_rounds(rooms, zeros, budget);
    let r = round_robin_spec(rooms, budget);
    if sum_of(r) < budget {
        lemma_sum_eq_pointwise(r, rooms);
    }
}

/// Every slot that still has room holds at least as much as any other slot.
pub open spec fn rr_level(rooms: Seq<int>, t: Seq<int>) -> bool {
    forall|i: int, j: int| 0 <= i < t.len() && 0 <= j < t.len() ==> #[trigger] t[i] <= #[trigger] t[j] || t[j] == rooms[j]
}

/// Round-robin fairness of `r`: in slot order, a later slot holds no more than an
/// earlier one that still has room, and an earlier slot holds at most one more than a
/// later one that still has room.
pub open spec fn rr_fair(rooms: Seq<int>, r: Seq<int>) -> bool {
    &&& forall|i: int, j: int| 0 <= i < j < r.len() ==> #[trigger] r[j] <= #[trigger] r[i] || r[i] == rooms[i]
    &&& forall|i: int, j: int| 0 <= i < j < r.len() ==> #[trigger] r[i] <= #[trigger] r[j] + 1 || r[j] == rooms[j]
}

proof fn lemma_pass_zero(rooms: Seq<int>, taken: Seq<int>, p: int)
    ensures
        rr_pass(rooms, taken, 0, p) == (taken, 0int),
    decreases rooms.len() - p,
{
    if 0 <= p < rooms.len() {
        lemma_pass_zero(rooms, taken, p + 1);
    }
}

/// The shape of one pass from slot `p`: slots before `p` are untouched, each later slot
/// gains one unit at most (only with room left), and a slot with room that gains
/// nothing means the budget ran out there.
proof fn lemma_pass_shape(rooms: Seq<int>, taken: Seq<int>, left: int, p: int)
    requires
        taken.len() == rooms.len(),
        0 <= p <= rooms.len(),
        left >= 0,
    ensures
        ({
            let (r, rest) = rr_pass(rooms, taken, left, p);
            &&& r.len() == taken.len()
            &&& forall|i: int| 0 <= i < p ==> #[trigger] r[i] == taken[i]
            &&& forall|i: int| p <= i < rooms.len() ==> #[trigger] r[i] == taken[i]
                || (r[i] == taken[i] + 1 && taken[i] < rooms[i])
            &&& forall|i: int| p <= i < rooms.len() && taken[i] < rooms[i] && #[trigger] r[i] == taken[i] ==>
                rest == 0 && forall|j: int| i < j < rooms.len() ==> #[trigger] r[j] == taken[j]
        }),
    decreases rooms.len() - p,
{
    if p < rooms.len() {
        if left > 0 && taken[p] < rooms[p] {
            lemma_pass_shape(rooms, taken.update(p, taken[p] + 1), left - 1, p + 1);
        } else {
            lemma_pass_shape(rooms, taken, left, p + 1);
            if left == 0 {
                lemma_pass_zero(rooms, taken, p + 1);
            }
        }
    }
}

proof fn lemma_rounds_fair(rooms: Seq<int>, taken: Seq<int>, left: int)
    requires
        taken.len() == rooms.len(),
        left >= 0,
        forall|i: int| 0 <= i < rooms.len() ==> 0 <= #[trigger] taken[i] <= rooms[i],
        rr_level(rooms, taken),
    ensures
        rr_fair(rooms, rr_rounds(rooms, taken, left)),
    decreases left,
{
    let (next, rest) = rr_pass(rooms, taken, left, 0);
    lemma_rr_pass(rooms, taken, left, 0);
    lemma_pass_shape(rooms, taken, left, 0);
    if rest >= left || rest < 0 {
        assert(rr_fair(rooms, taken)) by {
            assert forall|i: int, j: int| 0 <= i < j < taken.len() implies #[trigger] taken[j] <= #[trigger] taken[i] || taken[i] == rooms[i] by {
                assert(taken[j] <= taken[i] || taken[i] == rooms[i]);
            }
        }
    } else {
        // The pass result is fair, and level when the budget did not run out.
        assert forall|i: int, j: int| 0 <= i < j < next.len() implies #[trigger] next[j] <= #[trigger] next[i] || next[i] == rooms[i] by {
            if next[i] < rooms[i] {
                assert(taken[j] <= taken[i] || taken[i] == rooms[i]);
            }
        }
        assert forall|i: int, j: int| 0 <= i < j < next.len() implies #[trigger] next[i] <= #[trigger] next[j] + 1 || next[j] == rooms[j] by {
            if next[j] < rooms[j] {
                assert(taken[i] <= taken[j] || taken[j] == rooms[j]);
            }
        }
        if rest == 0 {
            lemma_pass_zero(rooms, next, 0);
            assert(rr_rounds(rooms, next, 0) == next);
            assert(rr_fair(rooms, next));
        } else {
            assert forall|i: int, j: int| 0 <= i < next.len() && 0 <= j < next.len() implies #[trigger] next[i] <= #[trigger] next[j] || next[j] == rooms[j] by {
                if next[j] < rooms[j] {
                    assert(taken[i] <= taken[j] || taken[j] == rooms[j]);
                    if next[j] == taken[j] {
                        assert(taken[j] < rooms[j]);
                    }
                }
            }
            lemma_rounds_fair(rooms, next, rest);
        }
    }
}

/// Round robin is fair: for slots `i < j` in the hand-out order, slot `j` gets no more
/// than slot `i` unless slot `i` is full, and slot `i` gets at most one more than slot
/// `j` unless slot `j` is full. (With equal rooms that can take the budget, each of `n`
/// slots gets `budget / n` or one more, the earlier slots the larger share.)
pub proof fn lemma_round_robin_fair(rooms: Seq<int>, budget: int)
    requires
        budget >= 0,
        forall|i: int| 0 <= i < rooms.len() ==> 0 <= #[trigger] rooms[i],
    ensures
        rr_fair(rooms, round_robin_spec(rooms, budget)),
{
    let zeros = Seq::new(rooms.len(), |p: int| 0int);
    lemma_rounds_fair(rooms, zeros, budget);
}

/// The sum of a vector of machine integers, when it fits.
pub fn sum_usizes(v: &Vec<usize>) -> (total: usize)
    requires
        sum_of(as_ints(v@)) <= usize::MAX,
    ensures
        total == sum_of(as_ints(v@)),
{
    let ghost s = as_ints(v@);
    let mut total: usize = 0;
    let mut i: usize = 0;
    while i < v.len()
        invariant
            s == as_ints(v@),
            sum_of(s) <= usize::MAX,
            0 <= i <= v@.len(),
            total == sum_of(s.take(i as int)),
        decreases v@.len() - i,
    {
        proof {
            assert(s.take(i as int + 1).drop_last() =~= s.take(i as int));
            lemma_sum_prefix_le(s, i as int + 1);
        }
        total = total + v[i];
        i = i + 1;
    }
    assert(s.take(i as int) =~= s);
    total
}

/// Hands out `budget` units round robin over slots of the given `rooms`, in slot order,
/// and returns how many units each slot received.
pub fn round_robin(rooms: &Vec<usize>, budget: usize) -> (taken: Vec<usize>)
    ensures
        as_ints(taken@) == round_robin_spec(as_ints(rooms@), budget as int),
        taken@.len() == rooms@.len(),
        forall|i: int| 0 <= i < taken@.len() ==> #[trigger] taken@[i] <= rooms@[i],
        forall|i: int, j: int| 0 <= i < j < taken@.len() ==> #[trigger] taken@[j] <= #[trigger] taken@[i] || taken@[i] == rooms@[i],
        forall|i: int, j: int| 0 <= i < j < taken@.len() ==> #[trigger] taken@[i] <= #[trigger] taken@[j] + 1 || taken@[j] == rooms@[j],
{
    let n = rooms.len();
    let ghost rs = as_ints(rooms@);
    let mut taken: Vec<usize> = Vec::new();
    while taken.len() < n
        invariant
            n == rooms@.len(),
            taken@.len() <= n,
            forall|i: int| 0 <= i < taken@.len() ==> #[trigger] taken@[i] == 0,
        decreases n - taken@.len(),
    {
        taken.push(0);
    }
    assert(as_ints(taken@) =~= Seq::new(rs.len(), |p: int| 0int));
    let mut left = budget;
    loop
        invariant
            n == rooms@.len(),
            rs == as_ints(rooms@),
            taken@.len() == n,
            left <= budget,
            rr_rounds(rs, as_ints(taken@), left as int) == round_robin_spec(rs, budget as int),
        decreases left,
    {
        let start_left = left;
        let ghost start = as_ints(taken@);
        let mut p: usize = 0;
        while p < n
            invariant
                n == rooms@.len(),
                rs == as_ints(rooms@),
                taken@.len() == n,
                p <= n,
                left <= start_left,
                rr_pass(rs, as_ints(taken@), left as int, p as int) == rr_pass(rs, start, start_left as int, 0),
                left == start_left ==> as_ints(taken@) == start,
            decreases n - p,
        {
            if left > 0 && taken[p] < rooms[p] {
                let t = taken[p] + 1;
                let ghost before = as_ints(taken@);
                taken.set(p, t);
                assert(as_ints(taken@) =~= before.update(p as int, before[p as int] + 1));
                left = left - 1;
            }
            p = p + 1;
        }
        assert(rr_pass(rs, as_ints(taken@), left as int, n as int) == (as_ints(taken@), left as int));
        if left == start_left {
            proof {
                lemma_round_robin_fair(rs, budget as int);
                lemma_round_robin(rs, budget as int);
                let r = as_ints(taken@);
                assert forall|i: int| 0 <= i < taken@.len() implies #[trigger] taken@[i] <= rooms@[i] by {
                    assert(r[i] <= rs[i]);
                }
                assert forall|i: int, j: int| 0 <= i < j < taken@.len() implies #[trigger] taken@[j] <= #[trigger] taken@[i] || taken@[i] == rooms@[i] by {
                    assert(r[j] <= r[i] || r[i] == rs[i]);
                }
                assert forall|i: int, j: int| 0 <= i < j < taken@.len() implies #[trigger] taken@[i] <= #[trigger] taken@[j] + 1 || taken@[j] == rooms@[j] by {
                    assert(r[i] <= r[j] + 1 || r[j] == rs[j]);
                }
            }
            return taken;
        }
    }
}

} // verus!
