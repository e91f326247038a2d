//! Orders of indices by a descending integer key.
//!
//! Several steps of the library process items "by key, largest first", breaking ties
//! by the items' original positions (the behaviour of a stable sort). Such an order is
//! described here as a sequence of positions, and computed by [`sort_indices_desc`].

use vstd::prelude::*;
use vstd::set_lib::{lemma_int_range, lemma_subset_equality, set_int_range};

verus! {

/// Position `i` comes before position `j` when keys are taken largest first and equal
/// keys keep their original order.
pub open spec fn precedes_desc(keys: Seq<u64>, i: int, j: int) -> bool {
    keys[i] > keys[j] || (keys[i] == keys[j] && i < j)
}

/// `ord` lists the positions of `keys`, each once, largest key first, ties by position.
pub open spec fn is_desc_order(keys: Seq<u64>, ord: Seq<usize>) -> bool {
    &&& ord.len() == keys.len()
    &&& forall|p: int| 0 <= p < ord.len() ==> #[trigger] ord[p] < keys.len()
    &&& forall|p: int, q: int|
        0 <= p < q < ord.len() ==> precedes_desc(keys, #[trigger] ord[p] as int, #[trigger] ord[q] as int)
}

/// The positions of `keys`, largest key first; equal keys keep their original order.
pub fn sort_indices_desc(keys: &Vec<u64>) -> (ord: Vec<usize>)
    ensures
        is_desc_order(keys@, ord@),
{
    let n = keys.len();
    let mut ord: Vec<usize> = Vec::new();
    let mut i: usize = 0;
    while i < n
        invariant
            n == keys@.len(),
            0 <= i <= n,
            ord@.len() == i,
            forall|p: int| 0 <= p < ord@.len() ==> #[trigger] ord@[p] < i,
            forall|p: int, q: int|
                0 <= p < q < ord@.len() ==> precedes_desc(keys@, #[trigger] ord@[p] as int, #[trigger] ord@[q] as int),
        decreases n - i,
    {
        let ki = keys[i];
        // Everything already placed has a smaller position than `i`, so `i` goes after
        // every entry whose key is at least its own.
        let mut p: usize = 0;
        while p < ord.len() && keys[ord[p]] >= ki
            invariant
                n == keys@.len(),
                i < n,
                ki == keys@[i as int],
                0 <= p <= ord@.len(),
                forall|r: int| 0 <= r < ord@.len() ==> #[trigger] ord@[r] < i,
                forall|r: int| 0 <= r < p ==> keys@[#[trigger] ord@[r] as int] >= ki,
            decreases ord@.len() - p,
        {
            p = p + 1;
        }
        let ghost before = ord@;
        ord.insert(p, i);
        proof {
            assert(ord@ == before.insert(p as int, i));
            assert forall|r: int, s: int|
                0 <= r < s < ord@.len() implies precedes_desc(keys@, #[trigger] ord@[r] as int, #[trigger] ord@[s] as int) by {
                if s < p {
                    assert(ord@[r] == before[r] && ord@[s] == before[s]);
                } else if s == p {
                    assert(ord@[r] == before[r]);
                } else if r == p {
                    assert(ord@[s] == before[s - 1]);
                    // `before[p]` has a key below `ki`; later entries are not above it.
                    assert(keys@[before[p as int] as int] < ki);
                    if s - 1 > p {
                        assert(precedes_desc(keys@, before[p as int] as int, before[s - 1] as int));
                    }
                } else if r < p {
                    assert(ord@[r] == before[r] && ord@[s] == before[s - 1]);
                } else {
                    assert(ord@[r] == before[r - 1] && ord@[s] == before[s - 1]);
                }
            }
        }
        i = i + 1;
    }
    ord
}

/// An order of the positions lists each position of `keys` exactly once.
pub proof fn lemma_desc_order_covers(keys: Seq<u64>, ord: Seq<usize>)
    requires
        is_desc_order(keys, ord),
    ensures
        forall|i: usize| i < keys.len() ==> #[trigger] ord.contains(i),
        forall|p: int, q: int| 0 <= p < ord.len() && 0 <= q < ord.len() && p != q ==> ord[p] != ord[q],
{
    let s = ord.map_values(|x: usize| x as int);
    assert forall|p: int, q: int| 0 <= p < ord.len() && 0 <= q < ord.len() && p != q implies ord[p] != ord[q] by {
        if p < q {
            assert(precedes_desc(keys, ord[p] as int, ord[q] as int));
        } else {
            assert(precedes_desc(keys, ord[q] as int, ord[p] as int));
        }
    }
    assert(s.no_duplicates()) by {
        assert forall|p: int, q: int| 0 <= p < s.len() && 0 <= q < s.len() && p != q implies s[p] != s[q] by {
            assert(ord[p] != ord[q]);
        }
    }
    s.unique_seq_to_set();
    let n = keys.len() as int;
    lemma_int_range(0, n);
    assert(s.to_set().subset_of(set_int_range(0, n))) by {
        assert forall|x: int| s.to_set().contains(x) implies set_int_range(0, n).contains(x) by {
            let p = choose|p: int| 0 <= p < s.len() && s[p] == x;
            assert(ord[p] < keys.len());
        }
    }
    lemma_subset_equality(s.to_set(), set_int_range(0, n));
    assert forall|i: usize| i < keys.len() implies #[trigger] ord.contains(i) by {
        assert(set_int_range(0, n).contains(i as int));
        assert(s.to_set().contains(i as int));
        let p = choose|p: int| 0 <= p < s.len() && s[p] == i as int;
        assert(ord[p] == i);
    }
}

/// Two orders of the same keys are the same order: it is determined by the keys.
pub proof fn lemma_desc_order_unique(keys: Seq<u64>, o1: Seq<usize>, o2: Seq<usize>)
    requires
        is_desc_order(keys, o1),
        is_desc_order(keys, o2),
    ensures
        o1 == o2,
{
    if o1.len() > 0 {
        lemma_desc_order_prefix(keys, o1, o2, o1.len() - 1);
    }
    assert(o1 =~= o2);
}

proof fn lemma_desc_order_prefix(keys: Seq<u64>, o1: Seq<usize>, o2: Seq<usize>, p: int)
    requires
        is_desc_order(keys, o1),
        is_desc_order(keys, o2),
        0 <= p < o1.len(),
    ensures
        forall|r: int| 0 <= r <= p ==> o1[r] == o2[r],
    decreases p,
{
    if p > 0 {
        lemma_desc_order_prefix(keys, o1, o2, p - 1);
    }
    lemma_desc_order_covers(keys, o1);
    lemma_desc_order_covers(keys, o2);
    if o1[p] != o2[p] {
        let a = o1[p];
        let b = o2[p];
        assert(o1.contains(b));
        let q = choose|q: int| 0 <= q < o1.len() && o1[q] == b;
        assert(o2.contains(a));
        let q2 = choose|q: int| 0 <= q < o2.len() && o2[q] == a;
        if q < p {
            assert(o2[q] == b);
        }
        if q2 < p {
            assert(o1[q2] == a);
        }
        assert(q > p && q2 > p);
        assert(precedes_desc(keys, a as int, b as int));
        assert(precedes_desc(keys, b as int, a as int));
    }
}

} // verus!
