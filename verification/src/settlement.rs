//! The settlement engine: who is owed most, who owes most, and the greedy
//! pairing of the two that squares the group up in few transfers.

use vstd::prelude::*;

use crate::seqs::{
    indices, ints, lemma_total_bounds, lemma_total_insert, lemma_total_one, lemma_total_push,
    lemma_total_remove, lemma_total_sum, nats, total, views,
};

verus! {

/// The first position at or after `k` in `order` whose value is below `v`
/// (the length of `order` if there is none).
pub open spec fn slot(vals: Seq<int>, order: Seq<int>, v: int, k: nat) -> nat
    decreases order.len() - k,
{
    if k >= order.len() || vals[order[k as int]] < v {
        k
    } else {
        slot(vals, order, v, k + 1)
    }
}

/// The positions below `n` whose value exceeds `eps`, largest value first;
/// among equal values the lower position comes first.
pub open spec fn ranking_upto(vals: Seq<int>, eps: int, n: nat) -> Seq<int>
    decreases n,
{
    if n == 0 {
        Seq::empty()
    } else {
        let rest = ranking_upto(vals, eps, (n - 1) as nat);
        let p = n - 1;
        if vals[p] > eps {
            rest.insert(slot(vals, rest, vals[p], 0) as int, p)
        } else {
            rest
        }
    }
}

/// All positions of `vals` whose value exceeds `eps`, largest value first;
/// among equal values the lower position comes first.
pub open spec fn ranking(vals: Seq<int>, eps: int) -> Seq<int> {
    ranking_upto(vals, eps, vals.len())
}

/// `p` comes before `q` in a ranking of `vals`.
pub open spec fn outranks(vals: Seq<int>, p: int, q: int) -> bool {
    vals[p] > vals[q] || (vals[p] == vals[q] && p < q)
}

/// `order` lists exactly the positions below `n` whose value exceeds `eps`,
/// each once, in ranking order. At most one sequence does.
pub open spec fn is_ranking(vals: Seq<int>, eps: int, n: nat, order: Seq<int>) -> bool {
    &&& forall|k: int| 0 <= k < order.len() ==> 0 <= #[trigger] order[k] < n && vals[order[k]] > eps
    &&& forall|p: int| 0 <= p < n && #[trigger] vals[p] > eps ==> order.contains(p)
    &&& forall|k: int, l: int|
        0 <= k < l < order.len() ==> outranks(vals, #[trigger] order[k], #[trigger] order[l])
}

proof fn lemma_slot(vals: Seq<int>, order: Seq<int>, v: int, k: nat)
    requires
        k <= order.len(),
    ensures
        k <= slot(vals, order, v, k) <= order.len(),
        forall|m: int| k <= m < slot(vals, order, v, k) ==> vals[#[trigger] order[m]] >= v,
        slot(vals, order, v, k) < order.len() ==> vals[order[slot(vals, order, v, k) as int]] < v,
    decreases order.len() - k,
{
    if k >= order.len() || vals[order[k as int]] < v {
    } else {
        lemma_slot(vals, order, v, k + 1);
    }
}

/// What `ranking_upto` computes is the ranking of the first `n` positions.
pub proof fn lemma_ranking_upto(vals: Seq<int>, eps: int, n: nat)
    requires
        n <= vals.len(),
    ensures
        is_ranking(vals, eps, n, ranking_upto(vals, eps, n)),
    decreases n,
{
    if n > 0 {
        let rest = ranking_upto(vals, eps, (n - 1) as nat);
        let p = n - 1;
        lemma_ranking_upto(vals, eps, (n - 1) as nat);
        if vals[p] > eps {
            let s = slot(vals, rest, vals[p], 0) as int;
            lemma_slot(vals, rest, vals[p], 0);
            let order = rest.insert(s, p);
            assert(order == ranking_upto(vals, eps, n));
            assert forall|k: int| 0 <= k < order.len() implies 0 <= #[trigger] order[k] < n
                && vals[order[k]] > eps by {
                if k < s {
                    assert(order[k] == rest[k]);
                } else if k > s {
                    assert(order[k] == rest[k - 1]);
                }
            }
            assert forall|q: int| 0 <= q < n && #[trigger] vals[q] > eps implies order.contains(
                q,
            ) by {
                if q == p {
                    assert(order[s] == q);
                } else {
                    assert(rest.contains(q));
                    let m = choose|m: int| 0 <= m < rest.len() && rest[m] == q;
                    if m < s {
                        assert(order[m] == q);
                    } else {
                        assert(order[m + 1] == q);
                    }
                }
            }
            assert forall|k: int, l: int| 0 <= k < l < order.len() implies outranks(
                vals,
                #[trigger] order[k],
                #[trigger] order[l],
            ) by {
                if l < s {
                    assert(order[k] == rest[k] && order[l] == rest[l]);
                } else if l == s {
                    assert(order[k] == rest[k]);
                } else if k == s {
                    assert(order[l] == rest[l - 1]);
                    if l - 1 > s {
                        assert(outranks(vals, rest[s], rest[l - 1]));
                    }
                } else if k < s {
                    assert(order[k] == rest[k] && order[l] == rest[l - 1]);
                } else {
                    assert(order[k] == rest[k - 1] && order[l] == rest[l - 1]);
                }
            }
        } else {
            let order = rest;
            assert forall|q: int| 0 <= q < n && #[trigger] vals[q] > eps implies order.contains(
                q,
            ) by {
                assert(q < n - 1);
            }
        }
    }
}

/// Only one sequence is the ranking of given values.
pub proof fn lemma_ranking_unique(vals: Seq<int>, eps: int, n: nat, a: Seq<int>, b: Seq<int>)
    requires
        n <= vals.len(),
        is_ranking(vals, eps, n, a),
        is_ranking(vals, eps, n, b),
    ensures
        a == b,
    decreases a.len(),
{
    if a.len() == 0 {
        if b.len() > 0 {
            assert(a.contains(b[0]));
        }
        assert(a =~= b);
    } else {
        // The last entry of a ranking is the one that every other entry outranks.
        let x = a.last();
        assert(b.contains(x));
        let m = choose|m: int| 0 <= m < b.len() && b[m] == x;
        if m < b.len() - 1 {
            let y = b.last();
            assert(outranks(vals, b[m], b[b.len() - 1]));
            assert(a.contains(y));
            let k = choose|k: int| 0 <= k < a.len() && a[k] == y;
            if k < a.len() - 1 {
                assert(outranks(vals, a[k], a[a.len() - 1]));
            }
            assert(false);
        }
        let a1 = a.drop_last();
        let b1 = b.drop_last();
        lemma_ranking_without(vals, eps, n, a, x);
        lemma_ranking_without(vals, eps, n, b, x);
        lemma_ranking_unique(vals.update(x, eps), eps, n, a1, b1);
        assert(a =~= a1.push(x));
        assert(b =~= b1.push(x));
    }
}

/// A ranking without its last entry is the ranking of the values in which
/// that entry no longer qualifies.
proof fn lemma_ranking_without(vals: Seq<int>, eps: int, n: nat, a: Seq<int>, x: int)
    requires
        n <= vals.len(),
        is_ranking(vals, eps, n, a),
        a.len() > 0,
        a.last() == x,
    ensures
        is_ranking(vals.update(x, eps), eps, n, a.drop_last()),
{
    let a1 = a.drop_last();
    let v1 = vals.update(x, eps);
    assert forall|k: int| 0 <= k < a1.len() implies 0 <= #[trigger] a1[k] < n && v1[a1[k]]
        > eps by {
        assert(a1[k] == a[k]);
        assert(outranks(vals, a[k], a[a.len() - 1]));
    }
    assert forall|p: int| 0 <= p < n && #[trigger] v1[p] > eps implies a1.contains(p) by {
        assert(p != x);
        assert(vals[p] > eps);
        assert(a.contains(p));
        let k = choose|k: int| 0 <= k < a.len() && a[k] == p;
        assert(a1[k] == p);
    }
    assert forall|k: int, l: int| 0 <= k < l < a1.len() implies outranks(
        v1,
        #[trigger] a1[k],
        #[trigger] a1[l],
    ) by {
        assert(a1[k] == a[k] && a1[l] == a[l]);
        assert(outranks(vals, a[k], a[l]));
        assert(outranks(vals, a[k], a[a.len() - 1]));
        assert(outranks(vals, a[l], a[a.len() - 1]));
    }
}

/// The values of the first `n` positions, with zero in place of a value
/// that does not exceed `eps`.
pub open spec fn gains(vals: Seq<int>, eps: int, n: nat) -> Seq<int> {
    Seq::new(n, |p: int| if vals[p] > eps { vals[p] } else { 0 })
}

/// The values of the ranked come to the sum of all values that exceed the
/// tolerance.
pub proof fn lemma_ranking_total(vals: Seq<int>, eps: int, n: nat)
    requires
        n <= vals.len(),
    ensures
        total(ranking_upto(vals, eps, n).map_values(|p: int| vals[p])) == total(
            gains(vals, eps, n),
        ),
    decreases n,
{
    let ranked = ranking_upto(vals, eps, n).map_values(|p: int| vals[p]);
    if n == 0 {
        assert(ranked =~= Seq::<int>::empty());
        assert(gains(vals, eps, n) =~= Seq::<int>::empty());
    } else {
        let j = (n - 1) as nat;
        let rest = ranking_upto(vals, eps, j);
        let before = rest.map_values(|p: int| vals[p]);
        lemma_ranking_total(vals, eps, j);
        let g = if vals[j as int] > eps {
            vals[j as int]
        } else {
            0
        };
        assert(gains(vals, eps, n) =~= gains(vals, eps, j).push(g));
        lemma_total_push(gains(vals, eps, j), g);
        if vals[j as int] > eps {
            let k = slot(vals, rest, vals[j as int], 0) as int;
            lemma_slot(vals, rest, vals[j as int], 0);
            assert(ranked =~= before.insert(k, vals[j as int]));
            lemma_total_insert(before, k, vals[j as int]);
        }
    }
}

/// Ranks the positions of `keys` whose key exceeds `eps`: largest key first,
/// and among equal keys the lower position first.
pub fn rank(keys: &Vec<i128>, eps: u64) -> (order: Vec<usize>)
    ensures
        indices(order@) == ranking(ints(keys@), eps as int),
{
    let ghost vals = ints(keys@);
    let mut order: Vec<usize> = Vec::new();
    let mut p: usize = 0;
    assert(indices(order@) =~= ranking_upto(vals, eps as int, 0));
    while p < keys.len()
        invariant
            p <= keys.len(),
            vals == ints(keys@),
            indices(order@) == ranking_upto(vals, eps as int, p as nat),
        decreases keys.len() - p,
    {
        let ghost rest = indices(order@);
        proof {
            lemma_ranking_upto(vals, eps as int, p as nat);
        }
        if keys[p] > eps as i128 {
            let mut k: usize = 0;
            while k < order.len() && keys[order[k]] >= keys[p]
                invariant
                    k <= order.len(),
                    p < keys.len(),
                    vals == ints(keys@),
                    rest == indices(order@),
                    is_ranking(vals, eps as int, p as nat, rest),
                    slot(vals, rest, vals[p as int], 0) == slot(vals, rest, vals[p as int], k as nat),
                decreases order.len() - k,
            {
                assert(rest[k as int] == order[k as int]);
                k += 1;
            }
            proof {
                if k < order.len() {
                    assert(rest[k as int] == order[k as int]);
                }
                assert(slot(vals, rest, vals[p as int], 0) == k);
            }
            order.insert(k, p);
            assert(indices(order@) =~= rest.insert(k as int, p as int));
        }
        p += 1;
    }
    order
}

/// One transfer of a pairing. Debtor and creditor are named by their places
/// in the two lists that were paired.
#[derive(Debug, Clone, Copy, PartialEq, Eq)]
pub struct Step {
    pub debtor: usize,
    pub creditor: usize,
    pub amount: u128,
}

pub struct StepView {
    pub debtor: int,
    pub creditor: int,
    pub amount: int,
}

impl View for Step {
    type V = StepView;

    open spec fn view(&self) -> StepView {
        StepView {
            debtor: self.debtor as int,
            creditor: self.creditor as int,
            amount: self.amount as int,
        }
    }
}

/// The entry at place `k`, or zero past the end.
pub open spec fn entry(s: Seq<int>, k: int) -> int {
    if 0 <= k < s.len() {
        s[k]
    } else {
        0
    }
}

/// Where a pairing stands: the creditor and the debtor at the front of
/// their lines, what the one is still owed and what the other still owes.
pub struct Front {
    pub creditor: int,
    pub avail: int,
    pub debtor: int,
    pub owed: int,
}

impl Front {
    /// What the debtor at the front pays the creditor at the front: the
    /// smaller of what the one owes and the other is owed.
    pub open spec fn amount(self) -> int {
        if self.avail <= self.owed {
            self.avail
        } else {
            self.owed
        }
    }

    pub open spec fn step(self) -> StepView {
        StepView { debtor: self.debtor, creditor: self.creditor, amount: self.amount() }
    }

    /// One of the two lines has run out.
    pub open spec fn done(self, credits: Seq<int>, debts: Seq<int>, eps: int) -> bool {
        eps < 0 || self.creditor < 0 || self.debtor < 0 || self.creditor >= credits.len()
            || self.debtor >= debts.len()
    }

    /// Where the pairing stands after the transfer at the front: whoever is
    /// then within `eps` of zero makes room for the next in line.
    pub open spec fn next(self, credits: Seq<int>, debts: Seq<int>, eps: int) -> Front {
        let avail = self.avail - self.amount();
        let owed = self.owed - self.amount();
        Front {
            creditor: if avail <= eps {
                self.creditor + 1
            } else {
                self.creditor
            },
            avail: if avail <= eps {
                entry(credits, self.creditor + 1)
            } else {
                avail
            },
            debtor: if owed <= eps {
                self.debtor + 1
            } else {
                self.debtor
            },
            owed: if owed <= eps {
                entry(debts, self.debtor + 1)
            } else {
                owed
            },
        }
    }
}

/// Where a pairing starts: at the head of both lines.
pub open spec fn start(credits: Seq<int>, debts: Seq<int>) -> Front {
    Front { creditor: 0, avail: entry(credits, 0), debtor: 0, owed: entry(debts, 0) }
}

/// The greedy pairing from where it stands: the transfer at the front, then
/// the pairing from where it stands after that.
pub open spec fn pairing_from(credits: Seq<int>, debts: Seq<int>, eps: int, at: Front) -> Seq<
    StepView,
>
    decreases credits.len() - at.creditor + debts.len() - at.debtor,
{
    if at.done(credits, debts, eps) {
        Seq::empty()
    } else {
        seq![at.step()] + pairing_from(credits, debts, eps, at.next(credits, debts, eps))
    }
}

/// The greedy pairing of the credits with the debts, both taken in order.
pub open spec fn pairing(credits: Seq<int>, debts: Seq<int>, eps: int) -> Seq<StepView> {
    pairing_from(credits, debts, eps, start(credits, debts))
}

proof fn lemma_pairing_len_from(credits: Seq<int>, debts: Seq<int>, eps: int, at: Front)
    requires
        0 <= at.creditor,
        0 <= at.debtor,
    ensures
        !at.done(credits, debts, eps) ==> pairing_from(credits, debts, eps, at).len() <= (
        credits.len() - at.creditor) + (debts.len() - at.debtor) - 1,
        at.done(credits, debts, eps) ==> pairing_from(credits, debts, eps, at).len() == 0,
    decreases credits.len() - at.creditor + debts.len() - at.debtor,
{
    if !at.done(credits, debts, eps) {
        lemma_pairing_len_from(credits, debts, eps, at.next(credits, debts, eps));
    }
}

/// A pairing needs no transfer where one of the two sides is empty, and
/// otherwise fewer transfers than there are people on the two sides.
pub proof fn lemma_pairing_len(credits: Seq<int>, debts: Seq<int>, eps: int)
    ensures
        credits.len() == 0 || debts.len() == 0 ==> pairing(credits, debts, eps).len() == 0,
        credits.len() > 0 && debts.len() > 0 ==> pairing(credits, debts, eps).len()
            < credits.len() + debts.len(),
{
    lemma_pairing_len_from(credits, debts, eps, start(credits, debts));
}

proof fn lemma_pairing_range_from(credits: Seq<int>, debts: Seq<int>, eps: int, at: Front)
    ensures
        forall|k: int|
            0 <= k < pairing_from(credits, debts, eps, at).len() ==> {
                let s = #[trigger] pairing_from(credits, debts, eps, at)[k];
                0 <= s.creditor < credits.len() && 0 <= s.debtor < debts.len()
            },
    decreases credits.len() - at.creditor + debts.len() - at.debtor,
{
    if !at.done(credits, debts, eps) {
        let then = at.next(credits, debts, eps);
        lemma_pairing_range_from(credits, debts, eps, then);
        let rest = pairing_from(credits, debts, eps, then);
        let all = pairing_from(credits, debts, eps, at);
        assert forall|k: int| 0 <= k < all.len() implies {
            let s = #[trigger] all[k];
            0 <= s.creditor < credits.len() && 0 <= s.debtor < debts.len()
        } by {
            if k > 0 {
                assert(all[k] == rest[k - 1]);
            }
        }
    }
}

/// Every transfer of a pairing names a creditor and a debtor of the two
/// lists.
pub proof fn lemma_pairing_range(credits: Seq<int>, debts: Seq<int>, eps: int)
    ensures
        forall|k: int|
            0 <= k < pairing(credits, debts, eps).len() ==> {
                let s = #[trigger] pairing(credits, debts, eps)[k];
                0 <= s.creditor < credits.len() && 0 <= s.debtor < debts.len()
            },
{
    lemma_pairing_range_from(credits, debts, eps, start(credits, debts));
}

proof fn lemma_pairing_amounts_from(credits: Seq<int>, debts: Seq<int>, eps: int, at: Front)
    requires
        0 <= eps,
        0 <= at.creditor,
        0 <= at.debtor,
        forall|k: int| 0 <= k < credits.len() ==> credits[k] > eps,
        forall|k: int| 0 <= k < debts.len() ==> debts[k] > eps,
        at.creditor < credits.len() ==> at.avail > eps,
        at.debtor < debts.len() ==> at.owed > eps,
    ensures
        forall|k: int|
            0 <= k < pairing_from(credits, debts, eps, at).len() ==> (#[trigger] pairing_from(
                credits,
                debts,
                eps,
                at,
            )[k]).amount > eps,
    decreases credits.len() - at.creditor + debts.len() - at.debtor,
{
    if !at.done(credits, debts, eps) {
        let then = at.next(credits, debts, eps);
        lemma_pairing_amounts_from(credits, debts, eps, then);
        let rest = pairing_from(credits, debts, eps, then);
        let all = pairing_from(credits, debts, eps, at);
        assert forall|k: int| 0 <= k < all.len() implies (#[trigger] all[k]).amount > eps by {
            if k > 0 {
                assert(all[k] == rest[k - 1]);
            }
        }
    }
}

/// Where every credit and every debt exceeds the tolerance, so does every
/// transfer of the pairing.
pub proof fn lemma_pairing_amounts(credits: Seq<int>, debts: Seq<int>, eps: int)
    requires
        0 <= eps,
        forall|k: int| 0 <= k < credits.len() ==> credits[k] > eps,
        forall|k: int| 0 <= k < debts.len() ==> debts[k] > eps,
    ensures
        forall|k: int|
            0 <= k < pairing(credits, debts, eps).len() ==> (#[trigger] pairing(
                credits,
                debts,
                eps,
            )[k]).amount > eps,
{
    lemma_pairing_amounts_from(credits, debts, eps, start(credits, debts));
}

/// What the creditor at place `c` receives over all of `steps`.
pub open spec fn received(steps: Seq<StepView>, c: int) -> int
    decreases steps.len(),
{
    if steps.len() == 0 {
        0
    } else {
        (if steps[0].creditor == c {
            steps[0].amount
        } else {
            0
        }) + received(steps.drop_first(), c)
    }
}

/// What the debtor at place `d` pays over all of `steps`.
pub open spec fn paid(steps: Seq<StepView>, d: int) -> int
    decreases steps.len(),
{
    if steps.len() == 0 {
        0
    } else {
        (if steps[0].debtor == d {
            steps[0].amount
        } else {
            0
        }) + paid(steps.drop_first(), d)
    }
}

/// What the one at place `c` of a line has open when the line stands at
/// place `i` with `avail` open there.
pub open spec fn open_at(line: Seq<int>, i: int, avail: int, c: int) -> int {
    if c < i {
        0
    } else if c == i {
        avail
    } else {
        line[c]
    }
}

/// Nobody from place `i` on is left with more than `eps` open.
pub open spec fn line_settled(
    steps: Seq<StepView>,
    line: Seq<int>,
    eps: int,
    i: int,
    avail: int,
) -> bool {
    forall|c: int|
        i <= c < line.len() ==> open_at(line, i, avail, c) - #[trigger] received(steps, c) <= eps
}

/// The same steps with the roles of debtor and creditor exchanged.
pub open spec fn swapped(steps: Seq<StepView>) -> Seq<StepView> {
    steps.map_values(
        |s: StepView| StepView { debtor: s.creditor, creditor: s.debtor, amount: s.amount },
    )
}

proof fn lemma_swapped(steps: Seq<StepView>, d: int)
    ensures
        received(swapped(steps), d) == paid(steps, d),
    decreases steps.len(),
{
    if steps.len() > 0 {
        assert(swapped(steps).drop_first() =~= swapped(steps.drop_first()));
        lemma_swapped(steps.drop_first(), d);
    }
}

/// The amounts of `steps`, in order.
pub open spec fn amounts(steps: Seq<StepView>) -> Seq<int> {
    steps.map_values(|s: StepView| s.amount)
}

proof fn lemma_received_total(steps: Seq<StepView>, n: nat)
    requires
        forall|k: int| 0 <= k < steps.len() ==> 0 <= (#[trigger] steps[k]).creditor < n,
    ensures
        total(Seq::new(n, |c: int| received(steps, c))) == total(amounts(steps)),
    decreases steps.len(),
{
    let all = Seq::new(n, |c: int| received(steps, c));
    if steps.len() == 0 {
        lemma_total_bounds(all, 0, 0);
        assert(amounts(steps) =~= Seq::<int>::empty());
    } else {
        let rest = steps.drop_first();
        assert forall|k: int| 0 <= k < rest.len() implies 0 <= (#[trigger] rest[k]).creditor
            < n by {
            assert(rest[k] == steps[k + 1]);
        }
        lemma_received_total(rest, n);
        let first = steps[0];
        let hot = Seq::new(n, |c: int| if c == first.creditor { first.amount } else { 0 });
        lemma_total_one(n, first.creditor, first.amount);
        lemma_total_sum(hot, Seq::new(n, |c: int| received(rest, c)), all);
        lemma_total_remove(amounts(steps), 0);
        assert(amounts(steps).remove(0) =~= amounts(rest));
    }
}

/// What a pairing hands to its creditors is what it takes from its
/// debtors.
pub proof fn lemma_pairing_moves(credits: Seq<int>, debts: Seq<int>, eps: int)
    ensures
        total(Seq::new(credits.len(), |c: int| received(pairing(credits, debts, eps), c)))
            == total(Seq::new(debts.len(), |d: int| paid(pairing(credits, debts, eps), d))),
{
    let steps = pairing(credits, debts, eps);
    lemma_pairing_range(credits, debts, eps);
    lemma_received_total(steps, credits.len());
    assert forall|k: int| 0 <= k < swapped(steps).len() implies 0 <= (#[trigger] swapped(
        steps,
    )[k]).creditor < debts.len() by {
        assert(swapped(steps)[k].creditor == steps[k].debtor);
    }
    lemma_received_total(swapped(steps), debts.len());
    assert(amounts(swapped(steps)) =~= amounts(steps));
    assert(Seq::new(debts.len(), |d: int| received(swapped(steps), d)) =~= Seq::new(
        debts.len(),
        |d: int| paid(steps, d),
    )) by {
        assert forall|d: int| 0 <= d < debts.len() implies received(swapped(steps), d) == paid(
            steps,
            d,
        ) by {
            lemma_swapped(steps, d);
        }
    }
}

proof fn lemma_pairing_settles_from(credits: Seq<int>, debts: Seq<int>, eps: int, at: Front)
    requires
        0 <= eps,
        0 <= at.creditor,
        0 <= at.debtor,
        0 <= at.avail,
        0 <= at.owed,
        forall|k: int| 0 <= k < credits.len() ==> credits[k] >= 0,
        forall|k: int| 0 <= k < debts.len() ==> debts[k] >= 0,
    ensures
        ({
            let steps = pairing_from(credits, debts, eps, at);
            &&& forall|c: int|
                0 <= c < credits.len() ==> 0 <= #[trigger] received(steps, c) <= open_at(
                    credits,
                    at.creditor,
                    at.avail,
                    c,
                )
            &&& forall|d: int|
                0 <= d < debts.len() ==> 0 <= #[trigger] paid(steps, d) <= open_at(
                    debts,
                    at.debtor,
                    at.owed,
                    d,
                )
            &&& (line_settled(steps, credits, eps, at.creditor, at.avail) || line_settled(
                swapped(steps),
                debts,
                eps,
                at.debtor,
                at.owed,
            ))
        }),
    decreases credits.len() - at.creditor + debts.len() - at.debtor,
{
    let steps = pairing_from(credits, debts, eps, at);
    if at.done(credits, debts, eps) {
        assert(steps.len() == 0);
        assert(swapped(steps).len() == 0);
        if at.creditor >= credits.len() {
            assert(line_settled(steps, credits, eps, at.creditor, at.avail));
        } else {
            assert(line_settled(swapped(steps), debts, eps, at.debtor, at.owed));
        }
    } else {
        let then = at.next(credits, debts, eps);
        let rest = pairing_from(credits, debts, eps, then);
        lemma_pairing_settles_from(credits, debts, eps, then);
        assert(steps == seq![at.step()] + rest);
        assert(steps.drop_first() =~= rest);
        assert(swapped(steps).drop_first() =~= swapped(rest));
        assert forall|c: int| 0 <= c < credits.len() implies 0 <= #[trigger] received(steps, c)
            <= open_at(credits, at.creditor, at.avail, c) by {
            assert(0 <= received(rest, c) <= open_at(credits, then.creditor, then.avail, c));
        }
        assert forall|d: int| 0 <= d < debts.len() implies 0 <= #[trigger] paid(steps, d)
            <= open_at(debts, at.debtor, at.owed, d) by {
            assert(0 <= paid(rest, d) <= open_at(debts, then.debtor, then.owed, d));
        }
        if line_settled(rest, credits, eps, then.creditor, then.avail) {
            assert forall|c: int| at.creditor <= c < credits.len() implies open_at(
                credits,
                at.creditor,
                at.avail,
                c,
            ) - #[trigger] received(steps, c) <= eps by {
                assert(0 <= received(rest, c) <= open_at(credits, then.creditor, then.avail, c));
                if c >= then.creditor {
                    assert(open_at(credits, then.creditor, then.avail, c) - received(rest, c)
                        <= eps);
                }
            }
        } else {
            assert(line_settled(swapped(rest), debts, eps, then.debtor, then.owed));
            assert forall|d: int| at.debtor <= d < debts.len() implies open_at(
                debts,
                at.debtor,
                at.owed,
                d,
            ) - #[trigger] received(swapped(steps), d) <= eps by {
                lemma_swapped(rest, d);
                lemma_swapped(steps, d);
                assert(0 <= paid(rest, d) <= open_at(debts, then.debtor, then.owed, d));
                if d >= then.debtor {
                    assert(open_at(debts, then.debtor, then.owed, d) - received(swapped(rest), d)
                        <= eps);
                }
            }
        }
    }
}

/// A pairing hands no creditor more than the credit, takes from no debtor more
/// than the debt, and leaves all creditors or all debtors settled to within
/// the tolerance.
pub proof fn lemma_pairing_settles(credits: Seq<int>, debts: Seq<int>, eps: int)
    requires
        0 <= eps,
        forall|k: int| 0 <= k < credits.len() ==> credits[k] >= 0,
        forall|k: int| 0 <= k < debts.len() ==> debts[k] >= 0,
    ensures
        forall|c: int|
            0 <= c < credits.len() ==> 0 <= #[trigger] received(pairing(credits, debts, eps), c)
                <= credits[c],
        forall|d: int|
            0 <= d < debts.len() ==> 0 <= #[trigger] paid(pairing(credits, debts, eps), d)
                <= debts[d],
        (forall|c: int|
            0 <= c < credits.len() ==> credits[c] - #[trigger] received(
                pairing(credits, debts, eps),
                c,
            ) <= eps) || (forall|d: int|
            0 <= d < debts.len() ==> debts[d] - #[trigger] paid(pairing(credits, debts, eps), d)
                <= eps),
{
    let steps = pairing(credits, debts, eps);
    let at = start(credits, debts);
    lemma_pairing_settles_from(credits, debts, eps, at);
    assert forall|c: int| 0 <= c < credits.len() implies 0 <= #[trigger] received(steps, c)
        <= credits[c] by {
        assert(open_at(credits, 0, at.avail, c) == credits[c]);
    }
    assert forall|d: int| 0 <= d < debts.len() implies 0 <= #[trigger] paid(steps, d)
        <= debts[d] by {
        assert(open_at(debts, 0, at.owed, d) == debts[d]);
    }
    if line_settled(steps, credits, eps, 0, at.avail) {
        assert forall|c: int| 0 <= c < credits.len() implies credits[c] - #[trigger] received(
            steps,
            c,
        ) <= eps by {
            assert(open_at(credits, 0, at.avail, c) == credits[c]);
        }
    } else {
        assert(line_settled(swapped(steps), debts, eps, 0, at.owed));
        assert forall|d: int| 0 <= d < debts.len() implies debts[d] - #[trigger] paid(steps, d)
            <= eps by {
            lemma_swapped(steps, d);
            assert(open_at(debts, 0, at.owed, d) == debts[d]);
            assert(open_at(debts, 0, at.owed, d) - received(swapped(steps), d) <= eps);
        }
    }
}

/// Pairs creditors with debtors greedily: the debtor at the front pays the
/// creditor at the front the smaller of what the one owes and the other is
/// owed, and whoever is then within `eps` of zero leaves the front.
pub fn pair_up(credits: &Vec<u128>, debts: &Vec<u128>, eps: u64) -> (steps: Vec<Step>)
    ensures
        views(steps@) == pairing(nats(credits@), nats(debts@), eps as int),
{
    let ghost cs = nats(credits@);
    let ghost ds = nats(debts@);
    let mut steps: Vec<Step> = Vec::new();
    let mut i: usize = 0;
    let mut j: usize = 0;
    let mut avail: u128 = if credits.len() > 0 {
        credits[0]
    } else {
        0
    };
    let mut owed: u128 = if debts.len() > 0 {
        debts[0]
    } else {
        0
    };
    assert(views(steps@) + pairing(cs, ds, eps as int) =~= pairing(cs, ds, eps as int));
    while i < credits.len() && j < debts.len()
        invariant
            i <= credits.len(),
            j <= debts.len(),
            cs == nats(credits@),
            ds == nats(debts@),
            views(steps@) + pairing_from(
                cs,
                ds,
                eps as int,
                Front { creditor: i as int, avail: avail as int, debtor: j as int, owed: owed as int },
            ) == pairing(cs, ds, eps as int),
        decreases credits.len() - i + debts.len() - j,
    {
        let ghost before = views(steps@);
        let ghost at = Front {
            creditor: i as int,
            avail: avail as int,
            debtor: j as int,
            owed: owed as int,
        };
        let amount: u128 = if avail <= owed {
            avail
        } else {
            owed
        };
        let step = Step { debtor: j, creditor: i, amount };
        steps.push(step);
        avail = avail - amount;
        owed = owed - amount;
        if avail <= eps as u128 {
            i += 1;
            avail = if i < credits.len() {
                credits[i]
            } else {
                0
            };
        }
        if owed <= eps as u128 {
            j += 1;
            owed = if j < debts.len() {
                debts[j]
            } else {
                0
            };
        }
        proof {
            let then = Front {
                creditor: i as int,
                avail: avail as int,
                debtor: j as int,
                owed: owed as int,
            };
            assert(then == at.next(cs, ds, eps as int));
            let rest = pairing_from(cs, ds, eps as int, then);
            assert(pairing_from(cs, ds, eps as int, at) == seq![step@] + rest);
            assert(views(steps@) =~= before.push(step@));
            assert(views(steps@) + rest =~= before + pairing_from(cs, ds, eps as int, at));
        }
    }
    proof {
        lemma_pairing_len_from(
            cs,
            ds,
            eps as int,
            Front { creditor: i as int, avail: avail as int, debtor: j as int, owed: owed as int },
        );
        assert(views(steps@) + Seq::<StepView>::empty() =~= views(steps@));
    }
    steps
}

} // verus!
