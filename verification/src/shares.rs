//! Sharing an amount out by weights, to the last micro-unit.

use vstd::prelude::*;

use crate::ledger::{Participant, Transaction};
use crate::model::{
    carriers_upto, fair_share, floors_upto, magnitude, weights_upto, ParticipantView,
    TransactionView,
};
use crate::seqs::{total, views};

verus! {

proof fn lemma_weights_upto(ps: Seq<ParticipantView>, n: nat, k: int)
    requires
        0 <= k < n <= ps.len(),
        forall|j: int| 0 <= j < ps.len() ==> #[trigger] ps[j].weight <= 255,
    ensures
        ps[k].weight <= weights_upto(ps, n) <= 255 * n,
    decreases n,
{
    if k < n - 1 {
        lemma_weights_upto(ps, (n - 1) as nat, k);
    } else {
        lemma_weights_bound(ps, (n - 1) as nat);
    }
}

proof fn lemma_weights_bound(ps: Seq<ParticipantView>, n: nat)
    requires
        n <= ps.len(),
        forall|j: int| 0 <= j < ps.len() ==> #[trigger] ps[j].weight <= 255,
    ensures
        weights_upto(ps, n) <= 255 * n,
    decreases n,
{
    if n > 0 {
        lemma_weights_bound(ps, (n - 1) as nat);
    }
}

proof fn lemma_weights_grow(ps: Seq<ParticipantView>, m: nat, n: nat)
    requires
        m <= n,
    ensures
        weights_upto(ps, m) <= weights_upto(ps, n),
    decreases n,
{
    if m < n {
        lemma_weights_grow(ps, m, (n - 1) as nat);
    }
}

/// A part rounded down is neither below zero nor above the whole, and
/// falls short of the exact part by less than one.
proof fn lemma_part(size: int, x: int, w: int)
    requires
        0 <= size,
        0 <= x,
        0 < w,
    ensures
        0 <= fair_share(size, x, w),
        0 <= size * x - w * fair_share(size, x, w) <= w - 1,
        x == 0 ==> fair_share(size, x, w) == 0,
        x <= w ==> fair_share(size, x, w) <= size,
{
    let q = (size * x) / w;
    assert(0 <= size * x) by (nonlinear_arith)
        requires
            0 <= size,
            0 <= x,
    ;
    vstd::arithmetic::div_mod::lemma_fundamental_div_mod(size * x, w);
    vstd::arithmetic::div_mod::lemma_mod_bound(size * x, w);
    assert(0 <= q) by (nonlinear_arith)
        requires
            0 <= size * x,
            0 < w,
            q == (size * x) / w,
    ;
    if x == 0 {
        assert(size * x == 0) by (nonlinear_arith)
            requires
                x == 0,
        ;
        assert(q == 0) by (nonlinear_arith)
            requires
                w * q + (0int % w) == 0,
                0 <= 0int % w,
                0 <= q,
                0 < w,
        ;
    }
    if x <= w {
        assert(q <= size) by (nonlinear_arith)
            requires
                0 <= size,
                0 <= x <= w,
                0 < w,
                q == (size * x) / w,
        ;
    }
}

/// Parts rounded down come to no more than the whole, and fall short of it
/// by less than one for each participant who carries weight.
pub proof fn lemma_floors_upto(ps: Seq<ParticipantView>, size: int, w: int, k: nat)
    requires
        0 <= size,
        0 < w,
        k <= ps.len(),
    ensures
        0 <= floors_upto(ps, size, w, k),
        carriers_upto(ps, k) <= k,
        0 <= size * weights_upto(ps, k) - w * floors_upto(ps, size, w, k) <= carriers_upto(ps, k)
            * (w - 1),
    decreases k,
{
    if k == 0 {
        assert(size * 0 == 0);
        assert(w * 0 == 0);
        assert(0 * (w - 1) == 0);
    } else {
        let j = (k - 1) as nat;
        lemma_floors_upto(ps, size, w, j);
        let x = ps[j as int].weight as int;
        let q = fair_share(size, x, w);
        lemma_part(size, x, w);
        let s1 = weights_upto(ps, j) as int;
        let f1 = floors_upto(ps, size, w, j);
        let c1 = carriers_upto(ps, j) as int;
        assert(size * (s1 + x) == size * s1 + size * x) by (nonlinear_arith);
        assert(w * (f1 + q) == w * f1 + w * q) by (nonlinear_arith);
        assert((c1 + 1) * (w - 1) == c1 * (w - 1) + (w - 1)) by (nonlinear_arith);
        if x == 0 {
            assert(size * x == 0) by (nonlinear_arith)
                requires
                    x == 0,
            ;
        }
    }
}

/// No part rounded down is more than all of them together.
proof fn lemma_floor_within(ps: Seq<ParticipantView>, size: int, w: int, n: nat, e: int)
    requires
        0 <= size,
        0 < w,
        0 <= e < n <= ps.len(),
    ensures
        0 <= fair_share(size, ps[e].weight as int, w) <= floors_upto(ps, size, w, n),
    decreases n,
{
    lemma_part(size, ps[n - 1].weight as int, w);
    lemma_floors_upto(ps, size, w, (n - 1) as nat);
    if e < n - 1 {
        lemma_floor_within(ps, size, w, (n - 1) as nat, e);
    }
}

proof fn lemma_floors_without_weight(ps: Seq<ParticipantView>, size: int, k: nat)
    ensures
        floors_upto(ps, size, 0, k) == 0,
    decreases k,
{
    if k > 0 {
        lemma_floors_without_weight(ps, size, (k - 1) as nat);
    }
}

/// What is left over when every part is rounded down is not below zero,
/// and there is a participant who carries weight for every micro-unit of
/// it.
pub proof fn lemma_left_over(t: TransactionView)
    ensures
        0 <= t.left_over(),
        t.total_weight() > 0 ==> t.left_over() <= carriers_upto(
            t.participants,
            t.participants.len(),
        ),
{
    let ps = t.participants;
    let size = magnitude(t.amount);
    let w = t.total_weight() as int;
    if w == 0 {
        lemma_floors_without_weight(ps, size, ps.len());
    } else {
        lemma_floors_upto(ps, size, w, ps.len());
        let f = floors_upto(ps, size, w, ps.len());
        let c = carriers_upto(ps, ps.len()) as int;
        let r = size - f;
        assert(size * w - w * f == w * r) by (nonlinear_arith)
            requires
                r == size - f,
        ;
        assert(0 <= r <= c) by (nonlinear_arith)
            requires
                0 <= w * r <= c * (w - 1),
                0 < w,
                0 <= c,
        ;
    }
}

/// The smaller of two numbers.
spec fn least(a: int, b: int) -> int {
    if a <= b {
        a
    } else {
        b
    }
}

/// The shares of the first `k` participants come to their parts rounded
/// down, and one more for each of them who got of what was left over.
proof fn lemma_shares_upto(t: TransactionView, k: nat)
    requires
        k <= t.participants.len(),
    ensures
        t.amount >= 0 ==> total(t.shared_out().shares().take(k as int)) == floors_upto(
            t.participants,
            magnitude(t.amount),
            t.total_weight() as int,
            k,
        ) + least(t.left_over(), carriers_upto(t.participants, k) as int),
        t.amount < 0 ==> total(t.shared_out().shares().take(k as int)) == -(floors_upto(
            t.participants,
            magnitude(t.amount),
            t.total_weight() as int,
            k,
        ) + least(t.left_over(), carriers_upto(t.participants, k) as int)),
    decreases k,
{
    let shares = t.shared_out().shares();
    lemma_left_over(t);
    if k == 0 {
        assert(shares.take(0) =~= Seq::<int>::empty());
    } else {
        let j = (k - 1) as nat;
        lemma_shares_upto(t, j);
        assert(shares.take(k as int).drop_last() =~= shares.take(j as int));
        assert(shares.take(k as int).last() == shares[j as int]);
        assert(shares[j as int] == t.shared_out().participants[j as int].share());
        assert(shares[j as int] == t.share_at(j as int));
    }
}

/// Sharing out loses nothing: where some weight is on the participants,
/// the shares come to the amount, and every share is the amount times the
/// weight over the sum of the weights, rounded toward zero, or one
/// micro-unit further from zero.
pub proof fn lemma_nothing_is_left_over(draft: TransactionView)
    requires
        draft.total_weight() > 0,
    ensures
        total(draft.shared_out().shares()) == draft.amount,
        draft.shared_out().remainder() == 0,
        forall|e: int|
            0 <= e < draft.participants.len() ==> {
                let s = (#[trigger] draft.shared_out().participants[e]).share();
                let part = fair_share(
                    draft.amount,
                    draft.participants[e].weight as int,
                    draft.total_weight() as int,
                );
                s == part || (draft.amount >= 0 && s == part + 1) || (draft.amount < 0 && s == part
                    - 1)
            },
{
    let n = draft.participants.len();
    let shares = draft.shared_out().shares();
    lemma_shares_upto(draft, n);
    lemma_left_over(draft);
    assert(shares.take(n as int) =~= shares);
}

/// The part of `size` that falls on `weight` out of a total weight of
/// `total`, rounded down.
fn floor_share(size: u128, weight: u8, total: u128) -> (r: u128)
    requires
        size <= 0x8000_0000_0000_0000,
        weight <= total,
    ensures
        r == fair_share(size as int, weight as int, total as int),
        r <= size,
{
    if total == 0 {
        return 0;
    }
    proof {
        lemma_part(size as int, weight as int, total as int);
    }
    assert(size * weight <= 0x8000_0000_0000_0000 * 255) by (nonlinear_arith)
        requires
            0 <= size <= 0x8000_0000_0000_0000,
            0 <= weight <= 255,
    ;
    (size * (weight as u128)) / total
}

/// `amount` without its sign.
fn size_of(amount: i64) -> (r: u128)
    ensures
        r == magnitude(amount as int),
        r <= 0x8000_0000_0000_0000,
{
    if amount >= 0 {
        amount as u128
    } else {
        (-(amount as i128)) as u128
    }
}

/// The part of `amount` that falls on `weight` out of a total weight of
/// `total`, rounded toward zero: what a participant gets by weight alone,
/// before what is left over is handed out.
pub fn share(amount: i64, weight: u8, total: u128) -> (r: i64)
    requires
        weight <= total,
    ensures
        r == fair_share(amount as int, weight as int, total as int),
{
    let part = floor_share(size_of(amount), weight, total);
    if amount >= 0 {
        part as i64
    } else {
        (-(part as i128)) as i64
    }
}

/// Fills in the fair share of every participant of `transaction`: the amount
/// times the participant's weight over the sum of all weights, rounded
/// toward zero. What the rounding leaves over goes in single micro-units to
/// the first participants who carry weight, so that the shares come to the
/// amount.
pub fn calculate_fair_shares(transaction: &mut Transaction)
    ensures
        final(transaction)@ == old(transaction)@.shared_out(),
        old(transaction)@.total_weight() > 0 ==> total(final(transaction)@.shares()) == old(
            transaction,
        ).amount,
{
    let ghost before = transaction@;
    let ghost ps = before.participants;
    let amount = transaction.amount;
    let size = size_of(amount);
    let n = transaction.participants.len();
    let mut total: u128 = 0;
    let mut i: usize = 0;
    while i < n
        invariant
            i <= n,
            n == transaction.participants.len(),
            transaction@ == before,
            ps == before.participants,
            total == weights_upto(ps, i as nat),
            total <= 255 * i,
        decreases n - i,
    {
        total = total + transaction.participants[i].weight as u128;
        i += 1;
    }
    let mut floors: u128 = 0;
    let mut i: usize = 0;
    while i < n
        invariant
            i <= n,
            n == transaction.participants.len(),
            transaction@ == before,
            ps == before.participants,
            total == before.total_weight(),
            size <= 0x8000_0000_0000_0000,
            forall|j: int| 0 <= j < n ==> #[trigger] ps[j].weight <= 255,
            floors == floors_upto(ps, size as int, total as int, i as nat),
            floors <= 0x8000_0000_0000_0000 * i,
        decreases n - i,
    {
        proof {
            lemma_weights_upto(ps, n as nat, i as int);
        }
        let part = floor_share(size, transaction.participants[i].weight, total);
        floors = floors + part;
        i += 1;
    }
    proof {
        lemma_left_over(before);
    }
    let left: u128 = size - floors;
    let mut handed: u128 = 0;
    let mut k: usize = 0;
    while k < n
        invariant
            k <= n,
            n == transaction.participants.len(),
            n == ps.len(),
            ps == before.participants,
            transaction.amount == amount,
            before.amount == amount,
            size == magnitude(amount as int),
            size <= 0x8000_0000_0000_0000,
            total == before.total_weight(),
            left == before.left_over(),
            floors == floors_upto(ps, size as int, total as int, n as nat),
            left == size - floors,
            handed == carriers_upto(ps, k as nat),
            handed <= k,
            forall|j: int| 0 <= j < n ==> #[trigger] ps[j].weight <= 255,
            forall|j: int|
                0 <= j < k ==> (#[trigger] transaction.participants[j])@
                    == before.shared_out().participants[j],
            forall|j: int| k <= j < n ==> (#[trigger] transaction.participants[j])@ == ps[j],
        decreases n - k,
    {
        proof {
            lemma_weights_upto(ps, n as nat, k as int);
        }
        let weight = transaction.participants[k].weight;
        let part = floor_share(size, weight, total);
        let extra = weight > 0 && handed < left;
        proof {
            if extra {
                lemma_floor_within(ps, size as int, total as int, n as nat, k as int);
            }
        }
        let whole: u128 = if extra {
            part + 1
        } else {
            part
        };
        let s: i64 = if amount >= 0 {
            whole as i64
        } else {
            (-(whole as i128)) as i64
        };
        assert(s == before.share_at(k as int));
        transaction.participants[k].fair_share = Some(s);
        if weight > 0 {
            handed = handed + 1;
        }
        k += 1;
    }
    assert(transaction@.participants =~= before.shared_out().participants);
    proof {
        if before.total_weight() > 0 {
            lemma_nothing_is_left_over(before);
        }
    }
}

/// Whether any of `participants` has a weight above zero.
pub(crate) fn carries_weight(participants: &Vec<Participant>) -> (r: bool)
    ensures
        r == (weights_upto(views(participants@), participants.len() as nat) > 0),
{
    let mut i: usize = 0;
    while i < participants.len()
        invariant
            i <= participants.len(),
            weights_upto(views(participants@), i as nat) == 0,
        decreases participants.len() - i,
    {
        if participants[i].weight > 0 {
            proof {
                lemma_weights_grow(views(participants@), (i + 1) as nat, participants.len() as nat);
            }
            return true;
        }
        i += 1;
    }
    false
}

} // verus!
