//! Nothing is lost in the books: the shares of a transaction come to its
//! amount, and what the participants have paid, less what the transactions
//! charge to them, adds up to what was paid less what was recorded.

use vstd::prelude::*;

use crate::model::{
    carriers_upto, floors_upto, magnitude, same_names, share_from, shares_upto, snap,
    weights_upto, LedgerView, ParticipantView, TransactionView, UserView,
};
use crate::shares::lemma_nothing_is_left_over;
use crate::seqs::{
    lemma_total_bounds, lemma_total_push, lemma_total_remove, lemma_total_sum,
    lemma_total_update, total,
};

verus! {

/// What `t` charges to each of `names`.
pub open spec fn charges(names: Seq<Seq<char>>, t: TransactionView) -> Seq<int> {
    names.map_values(|n: Seq<char>| t.share_of(n))
}

/// What the first `m` transactions of `l` charge to each registered name.
spec fn column(l: LedgerView, m: nat) -> Seq<int> {
    l.names().map_values(|n: Seq<char>| shares_upto(l.transactions, n, m))
}

/// What each of the first `m` transactions of `l` charges to the registered
/// names together.
spec fn charged_upto(l: LedgerView, m: nat) -> Seq<int> {
    Seq::new(m, |t: int| total(charges(l.names(), l.transactions[t])))
}

proof fn lemma_columns(l: LedgerView, m: nat)
    requires
        m <= l.transactions.len(),
    ensures
        total(column(l, m)) == total(charged_upto(l, m)),
    decreases m,
{
    if m == 0 {
        lemma_total_bounds(column(l, 0), 0, 0);
    } else {
        let k = (m - 1) as nat;
        lemma_columns(l, k);
        let c = charges(l.names(), l.transactions[k as int]);
        lemma_total_sum(column(l, k), c, column(l, m));
        assert(charged_upto(l, m) =~= charged_upto(l, k).push(total(c)));
        lemma_total_push(charged_upto(l, k), total(c));
    }
}

/// The balances add up to what was paid less what the transactions charge
/// to the registered names.
pub proof fn lemma_balances_add_up(l: LedgerView)
    ensures
        total(l.balances()) == total(l.payments()) - total(
            Seq::new(l.transactions.len(), |t: int| total(charges(l.names(), l.transactions[t]))),
        ),
{
    let m = l.transactions.len();
    lemma_columns(l, m);
    lemma_total_sum(l.balances(), column(l, m), l.payments());
    assert(charged_upto(l, m) =~= Seq::new(
        l.transactions.len(),
        |t: int| total(charges(l.names(), l.transactions[t])),
    ));
}

proof fn lemma_share_from_unique(ps: Seq<ParticipantView>, e: int, k: nat)
    requires
        0 <= k <= e < ps.len(),
        forall|i: int, j: int| 0 <= i < j < ps.len() ==> ps[i].name != ps[j].name,
    ensures
        share_from(ps, ps[e].name, k) == ps[e].share(),
    decreases e - k,
{
    if k < e {
        lemma_share_from_unique(ps, e, k + 1);
    }
}

proof fn lemma_share_from_drop_last(ps: Seq<ParticipantView>, name: Seq<char>, k: nat)
    requires
        ps.len() > 0,
        ps.last().name != name,
    ensures
        share_from(ps, name, k) == share_from(ps.drop_last(), name, k),
    decreases ps.len() - k,
{
    if k < ps.len() - 1 {
        if ps[k as int].name != name {
            lemma_share_from_drop_last(ps, name, k + 1);
        }
    } else if k == ps.len() - 1 {
        assert(share_from(ps, name, k + 1) == 0);
    }
}

/// A list that is as long as a list without double entries, and holds
/// nothing but entries of that list, and all of them, has no double entries
/// either.
pub proof fn lemma_same_names_distinct(a: Seq<Seq<char>>, b: Seq<Seq<char>>)
    requires
        same_names(a, b),
        b.no_duplicates(),
    ensures
        a.no_duplicates(),
{
    assert(a.to_set() =~= b.to_set()) by {
        assert forall|x: Seq<char>| a.to_set().contains(x) <==> b.to_set().contains(x) by {
            if a.contains(x) {
                let i = choose|i: int| 0 <= i < a.len() && a[i] == x;
                assert(b.contains(a[i]));
            }
            if b.contains(x) {
                let j = choose|j: int| 0 <= j < b.len() && b[j] == x;
                assert(a.contains(b[j]));
            }
        }
    }
    b.unique_seq_to_set();
    a.lemma_no_dup_set_cardinality();
}

/// Where a transaction names exactly the given names, and these are all
/// different, what it charges to them is the sum of its shares.
proof fn lemma_charges_are_shares(names: Seq<Seq<char>>, t: TransactionView)
    requires
        names.no_duplicates(),
        t.names().no_duplicates(),
        t.names().len() == names.len(),
        forall|i: int| 0 <= i < t.names().len() ==> names.contains(#[trigger] t.names()[i]),
    ensures
        total(charges(names, t)) == total(t.shares()),
    decreases names.len(),
{
    let ps = t.participants;
    if ps.len() == 0 {
        assert(charges(names, t) =~= Seq::<int>::empty());
        assert(t.shares() =~= Seq::<int>::empty());
    } else {
        let e = ps.len() - 1;
        let x = ps[e].name;
        assert(t.names()[e] == x);
        assert(names.contains(x));
        let k = choose|k: int| 0 <= k < names.len() && names[k] == x;
        let names1 = names.remove(k);
        let t1 = TransactionView { amount: t.amount, participants: ps.drop_last() };
        assert(t1.names() =~= t.names().drop_last());
        assert forall|i: int| 0 <= i < t1.names().len() implies names1.contains(
            #[trigger] t1.names()[i],
        ) by {
            let y = t.names()[i];
            assert(t1.names()[i] == y);
            assert(y != t.names()[e]);
            assert(names.contains(y));
            let m = choose|m: int| 0 <= m < names.len() && names[m] == y;
            if m < k {
                assert(names1[m] == y);
            } else {
                assert(names1[m - 1] == y);
            }
        }
        assert(names1.no_duplicates()) by {
            assert forall|i: int, j: int|
                0 <= i < names1.len() && 0 <= j < names1.len() && i != j implies names1[i]
                != names1[j] by {
                let i0 = if i < k {
                    i
                } else {
                    i + 1
                };
                let j0 = if j < k {
                    j
                } else {
                    j + 1
                };
                assert(names1[i] == names[i0] && names1[j] == names[j0]);
            }
        }
        lemma_charges_are_shares(names1, t1);
        // The last entry is charged to its name, and to that name only.
        assert forall|i: int, j: int| 0 <= i < j < ps.len() implies ps[i].name != ps[j].name by {
            assert(t.names()[i] == ps[i].name && t.names()[j] == ps[j].name);
        }
        lemma_share_from_unique(ps, e, 0);
        let c = charges(names, t);
        lemma_total_remove(c, k);
        assert(c[k] == ps[e].share());
        assert(c.remove(k) =~= charges(names1, t1)) by {
            assert forall|i: int| 0 <= i < names1.len() implies c.remove(k)[i] == charges(
                names1,
                t1,
            )[i] by {
                let i0 = if i < k {
                    i
                } else {
                    i + 1
                };
                assert(names1[i] == names[i0]);
                assert(names[i0] != names[k]);
                lemma_share_from_drop_last(ps, names[i0], 0);
            }
        }
        assert(t.shares().drop_last() =~= t1.shares());
    }
}

/// Conservation. In a ledger whose transactions were all recorded among the
/// participants as they are now registered, the balances add up to what was
/// paid less the amounts of the transactions: what the transactions charge
/// is what they come to, to the last micro-unit.
pub proof fn lemma_conservation(l: LedgerView)
    requires
        l.wf(),
        forall|t: int|
            0 <= t < l.transactions.len() ==> l.is_current(#[trigger] l.transactions[t]),
    ensures
        total(l.balances()) == total(l.payments()) - total(l.amounts()),
        forall|t: int| 0 <= t < l.transactions.len() ==> (#[trigger] l.transactions[t]).remainder() == 0,
{
    let m = l.transactions.len();
    let charged = Seq::new(m, |t: int| total(charges(l.names(), l.transactions[t])));
    lemma_balances_add_up(l);
    assert forall|t: int| 0 <= t < m implies (#[trigger] l.transactions[t]).remainder() == 0
        && charged[t] == l.amounts()[t] by {
        let tx = l.transactions[t];
        assert(l.is_current(tx));
        lemma_same_names_distinct(tx.names(), l.names());
        lemma_charges_are_shares(l.names(), tx);
        lemma_nothing_is_left_over(tx);
        assert(tx.participants.len() == tx.names().len());
    }
    assert forall|t: int| 0 <= t < m implies #[trigger] charged[t] == l.amounts()[t] by {
        assert(l.transactions[t].remainder() == 0);
    }
    assert(charged =~= l.amounts());
}

/// Where as much was paid as the transactions come to, the balances cancel
/// out.
pub proof fn lemma_balances_cancel_out(l: LedgerView)
    requires
        l.wf(),
        forall|t: int|
            0 <= t < l.transactions.len() ==> l.is_current(#[trigger] l.transactions[t]),
        total(l.payments()) == total(l.amounts()),
    ensures
        total(l.balances()) == 0,
{
    lemma_conservation(l);
}

/// Putting down as zero what is within the tolerance of zero moves the sum
/// of the balances by no more than the tolerance for each participant.
pub proof fn lemma_snapping_is_small(l: LedgerView, eps: int)
    requires
        0 <= eps,
    ensures
        ({
            let noted = l.with_balances(eps).users.map_values(|u: UserView| u.net_balance);
            -(l.users.len() * eps) <= total(l.balances()) - total(noted) <= l.users.len() * eps
        }),
{
    let noted = l.with_balances(eps).users.map_values(|u: UserView| u.net_balance);
    let moved = Seq::new(l.users.len(), |p: int| l.balance(p) - snap(l.balance(p), eps));
    lemma_total_sum(noted, moved, l.balances());
    lemma_total_bounds(moved, -eps, eps);
    let n = l.users.len() as int;
    assert(n * (-eps) == -(n * eps)) by (nonlinear_arith);
}

proof fn lemma_sums_depend_on_weights(
    a: Seq<ParticipantView>,
    b: Seq<ParticipantView>,
    size: int,
    w: int,
    n: nat,
)
    requires
        n <= a.len(),
        a.len() == b.len(),
        forall|e: int| 0 <= e < a.len() ==> (#[trigger] a[e]).weight == b[e].weight,
    ensures
        weights_upto(a, n) == weights_upto(b, n),
        carriers_upto(a, n) == carriers_upto(b, n),
        floors_upto(a, size, w, n) == floors_upto(b, size, w, n),
    decreases n,
{
    if n > 0 {
        lemma_sums_depend_on_weights(a, b, size, w, (n - 1) as nat);
    }
}

/// A split that was shared out is one that names the same people with the
/// same weights, and sharing it out again changes nothing.
pub proof fn lemma_shared_out(draft: TransactionView)
    ensures
        draft.shared_out().names() == draft.names(),
        draft.shared_out().total_weight() == draft.total_weight(),
        draft.shared_out().shared_out() == draft.shared_out(),
{
    let t = draft.shared_out();
    let n = draft.participants.len();
    assert(t.names() =~= draft.names());
    lemma_sums_depend_on_weights(
        t.participants,
        draft.participants,
        magnitude(draft.amount),
        draft.total_weight() as int,
        n,
    );
    assert forall|e: int| 0 <= e < n implies t.share_at(e) == draft.share_at(e) by {
        lemma_sums_depend_on_weights(
            t.participants,
            draft.participants,
            magnitude(draft.amount),
            draft.total_weight() as int,
            e as nat,
        );
    }
    assert(t.shared_out().participants =~= t.participants);
}

proof fn lemma_equal_weights(names: Seq<Seq<char>>, n: nat)
    requires
        n <= names.len(),
    ensures
        weights_upto(
            names.map_values(
                |x: Seq<char>| ParticipantView { name: x, weight: 1, fair_share: None },
            ),
            n,
        ) == n,
    decreases n,
{
    if n > 0 {
        lemma_equal_weights(names, (n - 1) as nat);
    }
}

/// Recording a payment keeps the books in order: paid and recorded amounts
/// grow by the same, the names stay, and a ledger whose transactions were
/// all recorded among the participants as they are registered stays such a
/// ledger.
pub proof fn lemma_payment_keeps_books(l: LedgerView, payer: Seq<char>, draft: TransactionView)
    requires
        l.wf(),
    ensures
        ({
            let after = l.after_weighted_payment(payer, draft);
            &&& after.wf()
            &&& after.names() == l.names()
            &&& total(after.payments()) - total(after.amounts()) == total(l.payments()) - total(
                l.amounts(),
            )
            &&& (forall|t: int|
                0 <= t < l.transactions.len() ==> l.is_current(#[trigger] l.transactions[t]))
                ==> (forall|t: int|
                0 <= t < after.transactions.len() ==> after.is_current(
                    #[trigger] after.transactions[t],
                ))
        }),
{
    let after = l.after_weighted_payment(payer, draft);
    if l.payment_verdict(payer, draft) is Ok {
        let p = l.position(payer);
        let t = draft.shared_out();
        lemma_shared_out(draft);
        assert(after.names() =~= l.names());
        assert(after.payments() =~= l.payments().update(p, l.paid_by(payer) + draft.amount));
        lemma_total_update(l.payments(), p, l.paid_by(payer) + draft.amount);
        assert(after.amounts() =~= l.amounts().push(draft.amount));
        lemma_total_push(l.amounts(), draft.amount);
        if forall|t: int|
            0 <= t < l.transactions.len() ==> l.is_current(#[trigger] l.transactions[t]) {
            assert forall|k: int| 0 <= k < after.transactions.len() implies after.is_current(
                #[trigger] after.transactions[k],
            ) by {
                if k < l.transactions.len() {
                    assert(after.transactions[k] == l.transactions[k]);
                    assert(l.is_current(l.transactions[k]));
                } else {
                    assert(after.transactions[k] == t);
                }
            }
        }
    }
}

/// What a weighted payment records: the split as it was handed in, amount,
/// names, weights and order, with shares that come to the amount; and the
/// payer has paid that much more.
pub proof fn lemma_recorded_shares_add_up(l: LedgerView, payer: Seq<char>, draft: TransactionView)
    requires
        l.wf(),
        l.payment_verdict(payer, draft) is Ok,
    ensures
        ({
            let after = l.after_weighted_payment(payer, draft);
            let t = after.transactions.last();
            &&& after.transactions == l.transactions.push(t)
            &&& t.amount == draft.amount
            &&& t.names() == draft.names()
            &&& t.total_weight() == draft.total_weight()
            &&& total(t.shares()) == draft.amount
            &&& after.paid_by(payer) == l.paid_by(payer) + draft.amount
        }),
{
    let after = l.after_weighted_payment(payer, draft);
    lemma_shared_out(draft);
    lemma_nothing_is_left_over(draft);
    let p = l.position(payer);
    assert(after.names() =~= l.names());
    assert(after.names()[p] == payer);
}

/// A payment that is split in equal parts is a weighted payment with a
/// weight of one on every registered participant.
pub proof fn lemma_equal_payment_is_weighted(l: LedgerView, payer: Seq<char>, amount: int)
    ensures
        l.users.len() > 0 ==> l.accepts(l.equal_draft(amount)) && l.equal_payment_verdict(
            payer,
            amount,
        ) == l.payment_verdict(payer, l.equal_draft(amount)),
        l.after_equal_payment(payer, amount) == l.after_weighted_payment(
            payer,
            l.equal_draft(amount),
        ),
{
    let d = l.equal_draft(amount);
    assert(d.names() =~= l.names());
    lemma_equal_weights(l.names(), l.names().len());
    if l.users.len() > 0 {
        assert forall|i: int| 0 <= i < d.names().len() implies l.names().contains(
            #[trigger] d.names()[i],
        ) by {
            assert(l.names()[i] == d.names()[i]);
        }
        assert forall|i: int| 0 <= i < l.names().len() implies d.names().contains(
            #[trigger] l.names()[i],
        ) by {
            assert(d.names()[i] == l.names()[i]);
        }
    } else {
        assert(!l.has_user(payer));
    }
}

} // verus!
