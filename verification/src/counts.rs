//! Sums and rankings of counts.

use vstd::prelude::*;
use vstd::relations;
use vstd::seq_lib;

verus! {

/// The sum of some counts.
pub open spec fn sum(s: Seq<u64>) -> nat
    decreases s.len(),
{
    if s.len() == 0 {
        0
    } else {
        sum(s.drop_last()) + s.last() as nat
    }
}

/// The order in which the larger count comes first.
pub open spec fn larger_first() -> spec_fn(u64, u64) -> bool {
    |a: u64, b: u64| a >= b
}

/// The counts, the largest first.
pub open spec fn descending(s: Seq<u64>) -> Seq<u64> {
    s.sort_by(larger_first())
}

/// The sum of the `k` largest counts, or of all where there are fewer.
pub open spec fn top_sum(s: Seq<u64>, k: nat) -> nat {
    if k < s.len() {
        sum(descending(s).take(k as int))
    } else {
        sum(s)
    }
}

/// How many counts are not 0.
pub open spec fn nonzero(s: Seq<u64>) -> nat
    decreases s.len(),
{
    if s.len() == 0 {
        0
    } else {
        nonzero(s.drop_last()) + if s.last() > 0 {
            1nat
        } else {
            0
        }
    }
}

proof fn lemma_sum_push(s: Seq<u64>, x: u64)
    ensures
        sum(s.push(x)) == sum(s) + x,
{
    assert(s.push(x).drop_last() =~= s);
}

proof fn lemma_sum_insert(s: Seq<u64>, i: int, x: u64)
    requires
        0 <= i <= s.len(),
    ensures
        sum(s.insert(i, x)) == sum(s) + x,
    decreases s.len(),
{
    if i == s.len() {
        assert(s.insert(i, x) =~= s.push(x));
        lemma_sum_push(s, x);
    } else {
        let head = s.drop_last();
        assert(s.insert(i, x).drop_last() =~= head.insert(i, x));
        lemma_sum_insert(head, i, x);
    }
}

/// A part at the front sums to no more than the whole.
pub proof fn lemma_sum_take(s: Seq<u64>, n: int)
    requires
        0 <= n <= s.len(),
    ensures
        sum(s.take(n)) <= sum(s),
    decreases s.len(),
{
    if n == s.len() {
        assert(s.take(n) =~= s);
    } else {
        assert(s.drop_last().take(n) =~= s.take(n));
        lemma_sum_take(s.drop_last(), n);
    }
}

proof fn lemma_larger_first()
    ensures
        relations::total_ordering(larger_first()),
{
}

/// A sorted rearrangement of some counts is their descending order.
proof fn lemma_descending(s: Seq<u64>, d: Seq<u64>)
    requires
        d.to_multiset() == s.to_multiset(),
        relations::sorted_by(d, larger_first()),
    ensures
        d == descending(s),
{
    lemma_larger_first();
    s.lemma_sort_by_ensures(larger_first());
    seq_lib::lemma_sorted_unique(d, descending(s), larger_first());
}

/// The counts, the largest first.
pub fn sort_descending(v: &[u64]) -> (r: Vec<u64>)
    ensures
        r@ == descending(v@),
        r.len() == v.len(),
        sum(r@) == sum(v@),
{
    let mut out: Vec<u64> = Vec::new();
    let mut i: usize = 0;
    assert(v@.take(0) =~= Seq::<u64>::empty());
    while i < v.len()
        invariant
            i <= v.len(),
            out.len() == i,
            out@.to_multiset() == v@.take(i as int).to_multiset(),
            sum(out@) == sum(v@.take(i as int)),
            forall|a: int, b: int| 0 <= a < b < out.len() ==> out@[a] >= out@[b],
        decreases v.len() - i,
    {
        let x: u64 = v[i];
        let mut p: usize = out.len();
        while p > 0 && out[p - 1] < x
            invariant
                p <= out.len(),
                forall|b: int| p <= b < out.len() ==> out@[b] < x,
            decreases p,
        {
            p = p - 1;
        }
        let ghost before = out@;
        assert(v@.take(i + 1) =~= v@.take(i as int).push(x));
        proof {
            lemma_sum_insert(before, p as int, x);
            lemma_sum_push(v@.take(i as int), x);
            seq_lib::to_multiset_insert(before, p as int, x);
            seq_lib::to_multiset_build(v@.take(i as int), x);
        }
        out.insert(p, x);
        i = i + 1;
    }
    assert(v@.take(v.len() as int) =~= v@);
    proof {
        lemma_descending(v@, out@);
    }
    out
}

/// The sum of some counts.
pub fn sum_of(v: &[u64]) -> (r: u64)
    requires
        sum(v@) <= u64::MAX,
    ensures
        r == sum(v@),
{
    sum_first(v, v.len())
}

/// The sum of the first `n` counts.
fn sum_first(v: &[u64], n: usize) -> (r: u64)
    requires
        n <= v.len(),
        sum(v@) <= u64::MAX,
    ensures
        r == sum(v@.take(n as int)),
        n == v.len() ==> r == sum(v@),
{
    let mut total: u64 = 0;
    let mut i: usize = 0;
    while i < n
        invariant
            i <= n <= v.len(),
            sum(v@) <= u64::MAX,
            total == sum(v@.take(i as int)),
        decreases n - i,
    {
        proof {
            assert(v@.take(i + 1) =~= v@.take(i as int).push(v@[i as int]));
            lemma_sum_push(v@.take(i as int), v@[i as int]);
            lemma_sum_take(v@, i + 1);
        }
        total = total + v[i];
        i = i + 1;
    }
    assert(v@.take(v.len() as int) =~= v@);
    total
}

/// The sum of the `k` largest counts.
pub fn sum_of_largest(v: &[u64], k: usize) -> (r: u64)
    requires
        sum(v@) <= u64::MAX,
    ensures
        r == top_sum(v@, k as nat),
{
    if k >= v.len() {
        return sum_of(v);
    }
    let sorted = sort_descending(v);
    sum_first(sorted.as_slice(), k)
}

/// How many counts are not 0.
pub fn count_nonzero(v: &[u64]) -> (r: usize)
    ensures
        r == nonzero(v@),
{
    let mut n: usize = 0;
    let mut i: usize = 0;
    while i < v.len()
        invariant
            i <= v.len(),
            n <= i,
            n == nonzero(v@.take(i as int)),
        decreases v.len() - i,
    {
        assert(v@.take(i + 1).drop_last() =~= v@.take(i as int));
        if v[i] > 0 {
            n = n + 1;
        }
        i = i + 1;
    }
    assert(v@.take(v.len() as int) =~= v@);
    n
}

/// The places of some counts, those of the larger counts first: every place
/// once.
pub fn rank_by_count(v: &[u64]) -> (r: Vec<usize>)
    ensures
        r.len() == v.len(),
        r@.no_duplicates(),
        forall|i: int| 0 <= i < r.len() ==> #[trigger] r@[i] < v.len(),
        forall|i: int, j: int| 0 <= i < j < r.len() ==> v@[r@[i] as int] >= v@[r@[j] as int],
{
    let mut out: Vec<usize> = Vec::new();
    let mut i: usize = 0;
    while i < v.len()
        invariant
            i <= v.len(),
            out.len() == i,
            out@.no_duplicates(),
            forall|a: int| 0 <= a < out.len() ==> #[trigger] out@[a] < i,
            forall|a: int, b: int|
                0 <= a < b < out.len() ==> v@[out@[a] as int] >= v@[out@[b] as int],
        decreases v.len() - i,
    {
        let x: u64 = v[i];
        let mut p: usize = out.len();
        while p > 0 && v[out[p - 1]] < x
            invariant
                p <= out.len(),
                out.len() == i,
                i < v.len(),
                forall|a: int| 0 <= a < out.len() ==> #[trigger] out@[a] < i,
                forall|b: int| p <= b < out.len() ==> v@[#[trigger] out@[b] as int] < x,
            decreases p,
        {
            p = p - 1;
        }
        out.insert(p, i);
        i = i + 1;
    }
    out
}

/// The share of the largest counts grows with how many are taken, and is never
/// more than the whole.
pub proof fn the_largest_share_grows(s: Seq<u64>, k: nat)
    ensures
        top_sum(s, k) <= top_sum(s, k + 1),
        top_sum(s, k) <= sum(s),
{
    lemma_larger_first();
    s.lemma_sort_by_ensures(larger_first());
    let d = descending(s);
    assert(d.len() == s.len()) by {
        broadcast use seq_lib::group_to_multiset_ensures;

        assert(d.to_multiset().len() == s.to_multiset().len());
    }
    lemma_same_sum(s, d);
    if k < s.len() {
        lemma_sum_take(d, k as int);
        if k + 1 < s.len() {
            assert(d.take(k as int + 1) =~= d.take(k as int).push(d[k as int]));
            lemma_sum_push(d.take(k as int), d[k as int]);
        }
    }
}

/// Where not every count is 0, the largest ones have a share.
pub proof fn the_largest_share_is_positive(s: Seq<u64>, k: nat)
    requires
        k > 0,
        sum(s) > 0,
    ensures
        top_sum(s, k) > 0,
{
    if k < s.len() {
        lemma_larger_first();
        s.lemma_sort_by_ensures(larger_first());
        let d = descending(s);
        assert(d.len() == s.len()) by {
            broadcast use seq_lib::group_to_multiset_ensures;

            assert(d.to_multiset().len() == s.to_multiset().len());
        }
        lemma_same_sum(s, d);
        let first = d.take(k as int);
        if d[0] == 0 {
            assert forall|i: int| 0 <= i < d.len() implies #[trigger] d[i] == 0 by {
                if i > 0 {
                    assert(larger_first()(d[0], d[i]));
                }
            }
            lemma_sum_of_none(d);
        }
        lemma_sum_take(first, 1);
        let one = first.take(1);
        assert(one.last() == d[0]);
        assert(sum(one) == sum(one.drop_last()) + one.last());
    }
}

proof fn lemma_sum_of_none(s: Seq<u64>)
    requires
        forall|i: int| 0 <= i < s.len() ==> #[trigger] s[i] == 0,
    ensures
        sum(s) == 0,
    decreases s.len(),
{
    if s.len() > 0 {
        lemma_sum_of_none(s.drop_last());
    }
}

/// Rearranged counts have the same sum.
proof fn lemma_same_sum(s: Seq<u64>, d: Seq<u64>)
    requires
        s.to_multiset() == d.to_multiset(),
    ensures
        sum(s) == sum(d),
    decreases s.len(),
{
    broadcast use vstd::multiset::group_multiset_axioms;
    broadcast use seq_lib::group_to_multiset_ensures;

    seq_lib::to_multiset_len(s);
    seq_lib::to_multiset_len(d);
    if s.len() == 0 {
    } else {
        let x = s.last();
        assert(s.contains(x));
        assert(d.to_multiset().count(x) > 0);
        assert(d.contains(x));
        let i = choose|i: int| 0 <= i < d.len() && d[i] == x;
        let head = s.drop_last();
        assert(s =~= head.push(x));
        let rest = d.remove(i);
        assert(rest.insert(i, x) =~= d);
        lemma_sum_insert(rest, i, x);
        assert(rest.to_multiset() =~= head.to_multiset());
        lemma_same_sum(head, rest);
        assert(sum(d) == sum(rest) + x);
    }
}

proof fn lemma_nonzero_insert(s: Seq<u64>, i: int, x: u64)
    requires
        0 <= i <= s.len(),
    ensures
        nonzero(s.insert(i, x)) == nonzero(s) + if x > 0 {
            1nat
        } else {
            0
        },
    decreases s.len(),
{
    let t = s.insert(i, x);
    if i == s.len() {
        assert(t.drop_last() =~= s);
    } else {
        lemma_nonzero_insert(s.drop_last(), i, x);
        assert(t.drop_last() =~= s.drop_last().insert(i, x));
        assert(t.last() == s.last());
    }
}

/// Rearranged counts have as many that are not 0.
proof fn lemma_same_nonzero(s: Seq<u64>, d: Seq<u64>)
    requires
        s.to_multiset() == d.to_multiset(),
    ensures
        nonzero(s) == nonzero(d),
    decreases s.len(),
{
    broadcast use vstd::multiset::group_multiset_axioms;
    broadcast use seq_lib::group_to_multiset_ensures;

    seq_lib::to_multiset_len(s);
    seq_lib::to_multiset_len(d);
    if s.len() > 0 {
        let x = s.last();
        assert(s.contains(x));
        assert(d.to_multiset().count(x) > 0);
        assert(d.contains(x));
        let i = choose|i: int| 0 <= i < d.len() && d[i] == x;
        let head = s.drop_last();
        assert(s =~= head.push(x));
        let rest = d.remove(i);
        assert(rest.insert(i, x) =~= d);
        lemma_nonzero_insert(rest, i, x);
        assert(rest.to_multiset() =~= head.to_multiset());
        lemma_same_nonzero(head, rest);
    }
}

proof fn lemma_nonzero_prefix(s: Seq<u64>, n: int)
    requires
        0 <= n <= s.len(),
        forall|i: int| 0 <= i < n ==> #[trigger] s[i] > 0,
    ensures
        nonzero(s) >= n,
    decreases s.len(),
{
    if s.len() > 0 {
        if n == s.len() {
            assert(s[n - 1] > 0);
            lemma_nonzero_prefix(s.drop_last(), n - 1);
        } else {
            lemma_nonzero_prefix(s.drop_last(), n);
        }
    }
}

proof fn lemma_zero_tail(s: Seq<u64>, k: int)
    requires
        0 <= k <= s.len(),
        forall|i: int| k <= i < s.len() ==> #[trigger] s[i] == 0,
    ensures
        sum(s.take(k)) == sum(s),
    decreases s.len(),
{
    if k == s.len() {
        assert(s.take(k) =~= s);
    } else {
        assert(s[s.len() - 1] == 0);
        lemma_zero_tail(s.drop_last(), k);
        assert(s.drop_last().take(k) =~= s.take(k));
    }
}

/// Where no more than `k` counts are not 0, the `k` largest are all there is.
pub proof fn few_counts_are_the_whole(s: Seq<u64>, k: nat)
    requires
        nonzero(s) <= k,
    ensures
        top_sum(s, k) == sum(s),
{
    if k < s.len() {
        lemma_larger_first();
        s.lemma_sort_by_ensures(larger_first());
        let d = descending(s);
        assert(d.len() == s.len()) by {
            broadcast use seq_lib::group_to_multiset_ensures;

            assert(d.to_multiset().len() == s.to_multiset().len());
        }
        lemma_same_sum(s, d);
        lemma_same_nonzero(s, d);
        assert forall|i: int| k <= i < d.len() implies #[trigger] d[i] == 0 by {
            if d[i] > 0 {
                assert forall|j: int| 0 <= j < i + 1 implies #[trigger] d[j] > 0 by {
                    if j < i {
                        assert((larger_first())(d[j], d[i]));
                    }
                }
                lemma_nonzero_prefix(d, i + 1);
            }
        }
        lemma_zero_tail(d, k as int);
    }
}

/// The counts of two parts sum to those of the whole.
pub proof fn lemma_sum_joined(a: Seq<u64>, b: Seq<u64>)
    ensures
        sum(a + b) == sum(a) + sum(b),
    decreases b.len(),
{
    if b.len() == 0 {
        assert(a + b =~= a);
    } else {
        assert((a + b).drop_last() =~= a + b.drop_last());
        lemma_sum_joined(a, b.drop_last());
    }
}

} // verus!
