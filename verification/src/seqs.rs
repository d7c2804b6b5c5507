//! Small helpers that turn executable sequences into mathematical ones.

use vstd::prelude::*;

verus! {

/// The views of the elements of a sequence, in the same order.
pub open spec fn views<T: View>(s: Seq<T>) -> Seq<T::V> {
    s.map_values(|x: T| x@)
}

/// The entries of `s` as mathematical integers.
pub open spec fn ints(s: Seq<i128>) -> Seq<int> {
    s.map_values(|v: i128| v as int)
}

/// The entries of `s` as mathematical integers.
pub open spec fn nats(s: Seq<u128>) -> Seq<int> {
    s.map_values(|v: u128| v as int)
}

/// The entries of `s` as mathematical integers.
pub open spec fn indices(s: Seq<usize>) -> Seq<int> {
    s.map_values(|v: usize| v as int)
}

/// The sum of the entries of `s`.
pub open spec fn total(s: Seq<int>) -> int
    decreases s.len(),
{
    if s.len() == 0 {
        0
    } else {
        total(s.drop_last()) + s.last()
    }
}

pub proof fn lemma_total_push(s: Seq<int>, x: int)
    ensures
        total(s.push(x)) == total(s) + x,
{
    assert(s.push(x).drop_last() =~= s);
}

/// The sum of a sequence is the sum without one entry, and that entry.
pub proof fn lemma_total_remove(s: Seq<int>, k: int)
    requires
        0 <= k < s.len(),
    ensures
        total(s) == total(s.remove(k)) + s[k],
    decreases s.len(),
{
    if k == s.len() - 1 {
        assert(s.remove(k) =~= s.drop_last());
    } else {
        lemma_total_remove(s.drop_last(), k);
        assert(s.remove(k).drop_last() =~= s.drop_last().remove(k));
        assert(s.remove(k).last() == s.last());
    }
}

/// Sums add up entry by entry.
pub proof fn lemma_total_sum(a: Seq<int>, b: Seq<int>, c: Seq<int>)
    requires
        a.len() == b.len(),
        a.len() == c.len(),
        forall|i: int| 0 <= i < a.len() ==> #[trigger] c[i] == a[i] + b[i],
    ensures
        total(c) == total(a) + total(b),
    decreases a.len(),
{
    if a.len() > 0 {
        lemma_total_sum(a.drop_last(), b.drop_last(), c.drop_last());
    }
}

/// A sum lies between the bounds of its entries, taken as often as there
/// are entries.
pub proof fn lemma_total_bounds(s: Seq<int>, lo: int, hi: int)
    requires
        forall|i: int| 0 <= i < s.len() ==> lo <= #[trigger] s[i] && s[i] <= hi,
    ensures
        s.len() * lo <= total(s) <= s.len() * hi,
    decreases s.len(),
{
    if s.len() > 0 {
        lemma_total_bounds(s.drop_last(), lo, hi);
        let n = s.len() as int;
        assert(n * lo == (n - 1) * lo + lo) by (nonlinear_arith);
        assert(n * hi == (n - 1) * hi + hi) by (nonlinear_arith);
    } else {
        assert(0 * lo == 0);
        assert(0 * hi == 0);
    }
}

/// Changing one entry changes the sum by as much.
pub proof fn lemma_total_update(s: Seq<int>, k: int, x: int)
    requires
        0 <= k < s.len(),
    ensures
        total(s.update(k, x)) == total(s) - s[k] + x,
{
    lemma_total_remove(s, k);
    lemma_total_remove(s.update(k, x), k);
    assert(s.update(k, x).remove(k) =~= s.remove(k));
}

/// Putting one entry in raises the sum by as much.
pub proof fn lemma_total_insert(s: Seq<int>, k: int, x: int)
    requires
        0 <= k <= s.len(),
    ensures
        total(s.insert(k, x)) == total(s) + x,
{
    lemma_total_remove(s.insert(k, x), k);
    assert(s.insert(k, x).remove(k) =~= s);
}

/// Where no entry is below zero, no entry is above the sum.
pub proof fn lemma_total_entry(s: Seq<int>, k: int)
    requires
        0 <= k < s.len(),
        forall|i: int| 0 <= i < s.len() ==> 0 <= #[trigger] s[i],
    ensures
        0 <= s[k] <= total(s),
{
    lemma_total_remove(s, k);
    lemma_total_nonneg(s.remove(k));
}

/// Where no entry is below zero, neither is the sum.
pub proof fn lemma_total_nonneg(s: Seq<int>)
    requires
        forall|i: int| 0 <= i < s.len() ==> 0 <= #[trigger] s[i],
    ensures
        0 <= total(s),
    decreases s.len(),
{
    if s.len() > 0 {
        lemma_total_nonneg(s.drop_last());
    }
}

/// A sequence that is zero but at one place sums to what stands there.
pub proof fn lemma_total_one(n: nat, k: int, x: int)
    requires
        0 <= k < n,
    ensures
        total(Seq::new(n, |i: int| if i == k { x } else { 0 })) == x,
{
    let hot = Seq::new(n, |i: int| if i == k { x } else { 0 });
    lemma_total_remove(hot, k);
    lemma_total_bounds(hot.remove(k), 0, 0);
}

} // verus!
