//! What holds of the ledger across its operations.

use vstd::prelude::*;

use crate::error::LedgerError;
use crate::model::{gets, pays, same_names, LedgerView, TransactionView, TransferView};
use crate::seqs::{
    lemma_total_bounds, lemma_total_entry, lemma_total_nonneg, lemma_total_sum, total,
};
use crate::settlement::{
    gains, lemma_pairing_amounts, lemma_pairing_len, lemma_pairing_moves, lemma_pairing_range,
    lemma_pairing_settles, lemma_ranking_total, lemma_ranking_upto, outranks, paid, pairing,
    ranking, received, StepView,
};

verus! {

/// A name is registered once, however often it is added: after an attempt to
/// add it the name stands in the register exactly once, and a further
/// attempt changes nothing.
pub proof fn lemma_add_registers_once(l: LedgerView, name: Seq<char>)
    requires
        l.wf(),
    ensures
        l.after_add(name).wf(),
        l.after_add(name).names().to_multiset().count(name) == 1,
        l.after_add(name).add_verdict(name) == Err::<(), LedgerError>(
            LedgerError::DuplicateParticipant,
        ),
        l.after_add(name).after_add(name) == l.after_add(name),
{
    let a = l.after_add(name);
    if l.has_user(name) {
    } else {
        assert(a.names() =~= l.names().push(name));
        assert(a.names()[l.users.len() as int] == name);
    }
    assert(a.has_user(name));
    a.names().lemma_multiset_has_no_duplicates();
    vstd::seq_lib::to_multiset_contains(a.names(), name);
}

/// No operation registers a name twice: whatever is done to a ledger
/// without double names, it stays one.
pub proof fn lemma_names_stay_unique(
    l: LedgerView,
    name: Seq<char>,
    amount: int,
    draft: TransactionView,
    index: int,
    eps: int,
)
    requires
        l.wf(),
    ensures
        l.after_add(name).wf(),
        l.after_remove(name).wf(),
        l.after_equal_payment(name, amount).wf(),
        l.after_weighted_payment(name, draft).wf(),
        l.after_reversal(name, amount).wf(),
        l.after_strike(index).wf(),
        l.settled().wf(),
        l.after_settlement(eps).wf(),
{
    lemma_add_registers_once(l, name);
    lemma_removed_name_is_free(l, name);
    assert(l.after_equal_payment(name, amount).names() =~= l.names());
    assert(l.after_weighted_payment(name, draft).names() =~= l.names());
    assert(l.after_reversal(name, amount).names() =~= l.names());
    assert(l.after_strike(index).names() =~= l.names());
    assert(l.settled().names() =~= l.names());
    assert(l.after_settlement(eps).names() =~= l.names());
}

/// A name that was struck from the register is free to be registered
/// again.
pub proof fn lemma_removed_name_is_free(l: LedgerView, name: Seq<char>)
    requires
        l.wf(),
    ensures
        l.after_remove(name).wf(),
        !l.after_remove(name).has_user(name),
        l.after_remove(name).add_verdict(name) == Ok::<(), LedgerError>(()),
        l.after_remove(name).transactions == l.transactions,
{
    let a = l.after_remove(name);
    if l.has_user(name) {
        let i = l.position(name);
        assert(a.names() =~= l.names().remove(i));
        assert forall|j: int, k: int|
            0 <= j < a.names().len() && 0 <= k < a.names().len() && j != k implies a.names()[j]
            != a.names()[k] by {
            let j0 = if j < i {
                j
            } else {
                j + 1
            };
            let k0 = if k < i {
                k
            } else {
                k + 1
            };
            assert(a.names()[j] == l.names()[j0] && a.names()[k] == l.names()[k0]);
        }
        if a.has_user(name) {
            let j = choose|j: int| 0 <= j < a.names().len() && a.names()[j] == name;
            let j0 = if j < i {
                j
            } else {
                j + 1
            };
            assert(a.names()[j] == l.names()[j0]);
            assert(l.names()[i] == name);
        }
    }
}

/// A weighted split that leaves out a registered name, or names someone who
/// is not registered, is turned down, whoever pays, and the ledger stays as
/// it is.
pub proof fn lemma_wrong_names_are_refused(
    l: LedgerView,
    payer: Seq<char>,
    draft: TransactionView,
    name: Seq<char>,
)
    requires
        l.has_user(name) != draft.names().contains(name),
    ensures
        l.payment_verdict(payer, draft) == Err::<(), LedgerError>(
            LedgerError::InvalidParticipantSet,
        ),
        l.after_weighted_payment(payer, draft) == l,
{
    if same_names(draft.names(), l.names()) {
        if l.has_user(name) {
            let j = choose|j: int| 0 <= j < l.names().len() && l.names()[j] == name;
            assert(draft.names().contains(l.names()[j]));
        } else {
            let i = choose|i: int| 0 <= i < draft.names().len() && draft.names()[i] == name;
            assert(l.names().contains(draft.names()[i]));
        }
    }
}

/// A settlement among fewer than two participants is refused: there is no
/// plan, and the ledger stays as it is.
pub proof fn lemma_settlement_needs_two(l: LedgerView, eps: int)
    requires
        l.users.len() < 2,
    ensures
        l.settlement(eps) == Err::<Seq<TransferView>, LedgerError>(
            LedgerError::InsufficientParticipants,
        ),
        l.after_settlement(eps) == l,
{
}

/// Where no value exceeds the tolerance, nobody is ranked.
proof fn lemma_ranking_of_small_values(vals: Seq<int>, eps: int)
    requires
        forall|p: int| 0 <= p < vals.len() ==> vals[p] <= eps,
    ensures
        ranking(vals, eps) == Seq::<int>::empty(),
{
    lemma_ranking_upto(vals, eps, vals.len());
    let r = ranking(vals, eps);
    if r.len() > 0 {
        assert(vals[r[0]] > eps);
    }
    assert(r =~= Seq::<int>::empty());
}

/// Once everyone is declared square, a settlement has nothing to transfer
/// and finds every balance at zero.
pub proof fn lemma_nothing_to_settle_after_settle_up(l: LedgerView, eps: int)
    requires
        0 <= eps,
    ensures
        l.settled().plan(eps) == Seq::<TransferView>::empty(),
        l.users.len() >= 2 ==> l.settled().settlement(eps) == Ok::<Seq<TransferView>, LedgerError>(
            Seq::empty(),
        ),
        l.settled().after_settlement(eps) == l.settled(),
{
    let s = l.settled();
    assert forall|p: int| 0 <= p < s.users.len() implies s.balance(p) == 0 by {
        assert(s.total_share(s.users[p].name) == 0);
    }
    lemma_ranking_of_small_values(s.balances(), eps);
    lemma_ranking_of_small_values(s.dues(), eps);
    assert(s.credits(eps) =~= Seq::<int>::empty());
    assert(s.debts(eps) =~= Seq::<int>::empty());
    assert(pairing(s.credits(eps), s.debts(eps), eps) =~= Seq::<StepView>::empty());
    assert(s.plan(eps) =~= Seq::<TransferView>::empty());
    assert(s.with_balances(eps).users =~= s.users);
}

/// A ledger that is written out as a document and read back is the same
/// ledger: participants, totals and transactions.
pub proof fn lemma_restore_of_persist(l: LedgerView)
    requires
        l.wf(),
    ensures
        l.persisted().restored() == Ok::<LedgerView, LedgerError>(l),
{
}

/// A settlement changes nothing that a settlement depends on: asked again,
/// it gives the same plan and the same balances.
pub proof fn lemma_settlement_repeats(l: LedgerView, eps: int)
    ensures
        l.after_settlement(eps).settlement(eps) == l.settlement(eps),
        l.after_settlement(eps).after_settlement(eps) == l.after_settlement(eps),
{
    let a = l.after_settlement(eps);
    if l.users.len() >= 2 {
        assert forall|p: int| 0 <= p < l.users.len() implies a.balance(p) == l.balance(p) by {}
        assert(a.balances() =~= l.balances());
        assert(a.dues() =~= l.dues());
        lemma_ranking_upto(l.balances(), eps, l.users.len());
        lemma_ranking_upto(l.dues(), eps, l.users.len());
        assert(a.credits(eps) =~= l.credits(eps));
        assert(a.debts(eps) =~= l.debts(eps));
        lemma_pairing_range(l.credits(eps), l.debts(eps), eps);
        assert(a.plan(eps) =~= l.plan(eps));
        assert(a.with_balances(eps).users =~= a.users);
    }
}

/// A plan pairs people who owe more than the tolerance with people who are
/// owed more than the tolerance, moves more than the tolerance each time,
/// and needs fewer transfers than it has people.
pub proof fn lemma_plan_is_short(l: LedgerView, eps: int)
    requires
        0 <= eps,
    ensures
        l.plan(eps).len() <= l.creditors(eps).len() + l.debtors(eps).len(),
        l.plan(eps).len() > 0 ==> l.plan(eps).len() < l.creditors(eps).len() + l.debtors(
            eps,
        ).len(),
        l.creditors(eps).len() == 0 || l.debtors(eps).len() == 0 ==> l.plan(eps).len() == 0,
        forall|k: int|
            0 <= k < l.plan(eps).len() ==> {
                let t = #[trigger] l.plan(eps)[k];
                &&& t.amount > eps
                &&& exists|p: int|
                    0 <= p < l.users.len() && l.users[p].name == t.debtor && l.balance(p) < -eps
                &&& exists|p: int|
                    0 <= p < l.users.len() && l.users[p].name == t.creditor && l.balance(p) > eps
            },
{
    let cs = l.creditors(eps);
    let ds = l.debtors(eps);
    let credits = l.credits(eps);
    let debts = l.debts(eps);
    lemma_ranking_upto(l.balances(), eps, l.users.len());
    lemma_ranking_upto(l.dues(), eps, l.users.len());
    assert forall|k: int| 0 <= k < credits.len() implies credits[k] > eps by {
        assert(l.balances()[cs[k]] > eps);
    }
    assert forall|k: int| 0 <= k < debts.len() implies debts[k] > eps by {
        assert(l.dues()[ds[k]] > eps);
    }
    lemma_pairing_len(credits, debts, eps);
    lemma_pairing_range(credits, debts, eps);
    lemma_pairing_amounts(credits, debts, eps);
    let steps = pairing(credits, debts, eps);
    assert forall|k: int| 0 <= k < l.plan(eps).len() implies {
        let t = #[trigger] l.plan(eps)[k];
        &&& t.amount > eps
        &&& exists|p: int|
            0 <= p < l.users.len() && l.users[p].name == t.debtor && l.balance(p) < -eps
        &&& exists|p: int|
            0 <= p < l.users.len() && l.users[p].name == t.creditor && l.balance(p) > eps
    } by {
        let s = steps[k];
        let d = ds[s.debtor];
        let c = cs[s.creditor];
        assert(l.dues()[d] > eps);
        assert(l.balances()[c] > eps);
        assert(0 <= d < l.users.len() && l.users[d].name == l.plan(eps)[k].debtor && l.balance(d)
            < -eps);
        assert(0 <= c < l.users.len() && l.users[c].name == l.plan(eps)[k].creditor && l.balance(
            c,
        ) > eps);
    }
}

/// Nobody is creditor and debtor at once, so a plan never needs as many
/// transfers as there are participants, and in a ledger without double
/// names nobody is told to pay themselves.
pub proof fn lemma_plan_spares_one(l: LedgerView, eps: int)
    requires
        0 <= eps,
    ensures
        l.creditors(eps).len() + l.debtors(eps).len() <= l.users.len(),
        l.plan(eps).len() > 0 ==> l.plan(eps).len() < l.users.len(),
        l.wf() ==> forall|k: int|
            0 <= k < l.plan(eps).len() ==> (#[trigger] l.plan(eps)[k]).debtor != l.plan(
                eps,
            )[k].creditor,
{
    let n = l.users.len();
    let cs = l.creditors(eps);
    let ds = l.debtors(eps);
    lemma_ranking_upto(l.balances(), eps, n);
    lemma_ranking_upto(l.dues(), eps, n);
    assert(cs.no_duplicates()) by {
        assert forall|i: int, j: int| 0 <= i < cs.len() && 0 <= j < cs.len() && i != j implies cs[i]
            != cs[j] by {
            if i < j {
                assert(outranks(l.balances(), cs[i], cs[j]));
            } else {
                assert(outranks(l.balances(), cs[j], cs[i]));
            }
        }
    }
    assert(ds.no_duplicates()) by {
        assert forall|i: int, j: int| 0 <= i < ds.len() && 0 <= j < ds.len() && i != j implies ds[i]
            != ds[j] by {
            if i < j {
                assert(outranks(l.dues(), ds[i], ds[j]));
            } else {
                assert(outranks(l.dues(), ds[j], ds[i]));
            }
        }
    }
    cs.unique_seq_to_set();
    ds.unique_seq_to_set();
    let a = cs.to_set();
    let b = ds.to_set();
    vstd::seq_lib::seq_to_set_is_finite(cs);
    vstd::seq_lib::seq_to_set_is_finite(ds);
    assert(a.disjoint(b)) by {
        assert forall|x: int| !(a.contains(x) && b.contains(x)) by {
            if a.contains(x) && b.contains(x) {
                let i = choose|i: int| 0 <= i < cs.len() && cs[i] == x;
                let j = choose|j: int| 0 <= j < ds.len() && ds[j] == x;
                assert(l.balances()[cs[i]] > eps);
                assert(l.dues()[ds[j]] > eps);
            }
        }
    }
    vstd::set_lib::lemma_set_disjoint_lens(a, b);
    vstd::set_lib::lemma_int_range(0, n as int);
    assert((a + b).subset_of(vstd::set_lib::set_int_range(0, n as int))) by {
        assert forall|x: int| (a + b).contains(x) implies vstd::set_lib::set_int_range(
            0,
            n as int,
        ).contains(x) by {
            if a.contains(x) {
                let i = choose|i: int| 0 <= i < cs.len() && cs[i] == x;
                assert(0 <= cs[i] < n);
            } else {
                let j = choose|j: int| 0 <= j < ds.len() && ds[j] == x;
                assert(0 <= ds[j] < n);
            }
        }
    }
    vstd::set_lib::lemma_len_subset(a + b, vstd::set_lib::set_int_range(0, n as int));
    lemma_pairing_len(l.credits(eps), l.debts(eps), eps);
    if l.wf() {
        lemma_pairing_range(l.credits(eps), l.debts(eps), eps);
        let steps = pairing(l.credits(eps), l.debts(eps), eps);
        assert forall|k: int| 0 <= k < l.plan(eps).len() implies (#[trigger] l.plan(eps)[k]).debtor
            != l.plan(eps)[k].creditor by {
            let d = ds[steps[k].debtor];
            let c = cs[steps[k].creditor];
            assert(l.dues()[d] > eps);
            assert(l.balances()[c] > eps);
            assert(d != c);
            assert(l.names()[d] == l.users[d].name && l.names()[c] == l.users[c].name);
        }
    }
}

/// A plan takes from no debtor more than the debt, hands no creditor more
/// than the claim, and settles all creditors or all debtors to within the
/// tolerance. Creditors and debtors are counted by their places in the
/// ranking.
pub proof fn lemma_plan_settles(l: LedgerView, eps: int)
    requires
        0 <= eps,
    ensures
        ({
            let steps = pairing(l.credits(eps), l.debts(eps), eps);
            let cs = l.creditors(eps);
            let ds = l.debtors(eps);
            &&& forall|c: int|
                0 <= c < cs.len() ==> 0 <= #[trigger] received(steps, c) <= l.balance(cs[c])
            &&& forall|d: int|
                0 <= d < ds.len() ==> 0 <= #[trigger] paid(steps, d) <= -l.balance(ds[d])
            &&& ((forall|c: int|
                0 <= c < cs.len() ==> l.balance(cs[c]) - #[trigger] received(steps, c) <= eps)
                || (forall|d: int|
                0 <= d < ds.len() ==> -l.balance(ds[d]) - #[trigger] paid(steps, d) <= eps))
        }),
{
    let credits = l.credits(eps);
    let debts = l.debts(eps);
    let cs = l.creditors(eps);
    let ds = l.debtors(eps);
    lemma_ranking_upto(l.balances(), eps, l.users.len());
    lemma_ranking_upto(l.dues(), eps, l.users.len());
    assert forall|k: int| 0 <= k < credits.len() implies credits[k] >= 0 by {
        assert(l.balances()[cs[k]] > eps);
    }
    assert forall|k: int| 0 <= k < debts.len() implies debts[k] >= 0 by {
        assert(l.dues()[ds[k]] > eps);
    }
    lemma_pairing_settles(credits, debts, eps);
    let steps = pairing(credits, debts, eps);
    assert forall|c: int| 0 <= c < cs.len() implies 0 <= #[trigger] received(steps, c)
        <= l.balance(cs[c]) by {
        assert(credits[c] == l.balance(cs[c]));
    }
    assert forall|d: int| 0 <= d < ds.len() implies 0 <= #[trigger] paid(steps, d) <= -l.balance(
        ds[d],
    ) by {
        assert(debts[d] == -l.balance(ds[d]));
    }
    if forall|c: int| 0 <= c < credits.len() ==> credits[c] - #[trigger] received(steps, c) <= eps {
        assert forall|c: int| 0 <= c < cs.len() implies l.balance(cs[c]) - #[trigger] received(
            steps,
            c,
        ) <= eps by {
            assert(credits[c] == l.balance(cs[c]));
        }
    } else {
        assert forall|d: int| 0 <= d < ds.len() implies -l.balance(ds[d]) - #[trigger] paid(
            steps,
            d,
        ) <= eps by {
            assert(debts[d] == -l.balance(ds[d]));
        }
    }
}

/// What someone pays and gets by name over the steps of a pairing is what
/// the debtor and the creditor at their place in the rankings pay and get.
proof fn lemma_by_name(l: LedgerView, eps: int, steps: Seq<StepView>, p: int)
    requires
        l.wf(),
        0 <= p < l.users.len(),
        forall|k: int|
            0 <= k < steps.len() ==> 0 <= (#[trigger] steps[k]).creditor < l.creditors(eps).len()
                && 0 <= steps[k].debtor < l.debtors(eps).len(),
    ensures
        forall|d: int|
            0 <= d < l.debtors(eps).len() && l.debtors(eps)[d] == p ==> pays(
                l.named(eps, steps),
                l.users[p].name,
            ) == #[trigger] paid(steps, d),
        (forall|d: int| 0 <= d < l.debtors(eps).len() ==> l.debtors(eps)[d] != p) ==> pays(
            l.named(eps, steps),
            l.users[p].name,
        ) == 0,
        forall|c: int|
            0 <= c < l.creditors(eps).len() && l.creditors(eps)[c] == p ==> gets(
                l.named(eps, steps),
                l.users[p].name,
            ) == #[trigger] received(steps, c),
        (forall|c: int| 0 <= c < l.creditors(eps).len() ==> l.creditors(eps)[c] != p) ==> gets(
            l.named(eps, steps),
            l.users[p].name,
        ) == 0,
    decreases steps.len(),
{
    let cs = l.creditors(eps);
    let ds = l.debtors(eps);
    let name = l.users[p].name;
    lemma_ranking_upto(l.balances(), eps, l.users.len());
    lemma_ranking_upto(l.dues(), eps, l.users.len());
    if steps.len() > 0 {
        let rest = steps.drop_first();
        assert forall|k: int| 0 <= k < rest.len() implies 0 <= (#[trigger] rest[k]).creditor
            < cs.len() && 0 <= rest[k].debtor < ds.len() by {
            assert(rest[k] == steps[k + 1]);
        }
        lemma_by_name(l, eps, rest, p);
        assert(l.named(eps, steps).drop_first() =~= l.named(eps, rest));
        let first = steps[0];
        let d0 = ds[first.debtor];
        let c0 = cs[first.creditor];
        assert(l.names()[d0] == l.users[d0].name && l.names()[c0] == l.users[c0].name
            && l.names()[p] == name);
        assert((l.named(eps, steps)[0].debtor == name) == (d0 == p));
        assert((l.named(eps, steps)[0].creditor == name) == (c0 == p));
        assert forall|d: int| 0 <= d < ds.len() && ds[d] == p implies pays(
            l.named(eps, steps),
            name,
        ) == #[trigger] paid(steps, d) by {
            assert(pays(l.named(eps, rest), name) == paid(rest, d));
            if d0 == p && first.debtor != d {
                if first.debtor < d {
                    assert(outranks(l.dues(), ds[first.debtor], ds[d]));
                } else {
                    assert(outranks(l.dues(), ds[d], ds[first.debtor]));
                }
            }
        }
        assert forall|c: int| 0 <= c < cs.len() && cs[c] == p implies gets(
            l.named(eps, steps),
            name,
        ) == #[trigger] received(steps, c) by {
            assert(gets(l.named(eps, rest), name) == received(rest, c));
            if c0 == p && first.creditor != c {
                if first.creditor < c {
                    assert(outranks(l.balances(), cs[first.creditor], cs[c]));
                } else {
                    assert(outranks(l.balances(), cs[c], cs[first.creditor]));
                }
            }
        }
    }
}

/// Carrying out the plan squares the group up. Where the net balances, as
/// the settlement puts them down, cancel out to within the tolerance, what
/// is left of anybody's balance after paying and getting what the plan
/// says is within the tolerance for each participant: creditors are left
/// with a claim of no more than that, debtors with a debt of no more than
/// that, and the others with nothing.
pub proof fn lemma_plan_squares_up(l: LedgerView, eps: int)
    requires
        l.wf(),
        0 <= eps,
        -eps <= total(l.noted(eps)) <= eps,
    ensures
        forall|p: int|
            0 <= p < l.users.len() ==> -(l.users.len() * eps) <= #[trigger] l.left_after_plan(
                eps,
                p,
            ) <= l.users.len() * eps,
        forall|p: int|
            0 <= p < l.users.len() && l.balance(p) > eps ==> 0 <= #[trigger] l.left_after_plan(
                eps,
                p,
            ),
        forall|p: int|
            0 <= p < l.users.len() && l.balance(p) < -eps ==> #[trigger] l.left_after_plan(eps, p)
                <= 0,
        forall|p: int|
            0 <= p < l.users.len() && -eps <= l.balance(p) <= eps ==> #[trigger] l.left_after_plan(
                eps,
                p,
            ) == 0,
{
    let n = l.users.len() as int;
    let cs = l.creditors(eps);
    let ds = l.debtors(eps);
    let credits = l.credits(eps);
    let debts = l.debts(eps);
    let steps = pairing(credits, debts, eps);
    lemma_ranking_upto(l.balances(), eps, l.users.len());
    lemma_ranking_upto(l.dues(), eps, l.users.len());
    lemma_plan_spares_one(l, eps);
    assert forall|k: int| 0 <= k < credits.len() implies credits[k] >= 0 by {
        assert(l.balances()[cs[k]] > eps);
    }
    assert forall|k: int| 0 <= k < debts.len() implies debts[k] >= 0 by {
        assert(l.dues()[ds[k]] > eps);
    }
    lemma_pairing_settles(credits, debts, eps);
    lemma_pairing_moves(credits, debts, eps);
    lemma_pairing_range(credits, debts, eps);
    // What is noted comes to the claims less the debts.
    lemma_ranking_total(l.balances(), eps, l.users.len());
    lemma_ranking_total(l.dues(), eps, l.users.len());
    assert(credits =~= cs.map_values(|p: int| l.balances()[p]));
    assert(debts =~= ds.map_values(|p: int| l.dues()[p]));
    lemma_total_sum(
        l.noted(eps),
        gains(l.dues(), eps, l.users.len()),
        gains(l.balances(), eps, l.users.len()),
    );
    // What is left open on either side.
    let got = Seq::new(credits.len(), |c: int| received(steps, c));
    let gave = Seq::new(debts.len(), |d: int| paid(steps, d));
    let claims = Seq::new(credits.len(), |c: int| credits[c] - received(steps, c));
    let dues = Seq::new(debts.len(), |d: int| debts[d] - paid(steps, d));
    lemma_total_sum(claims, got, credits);
    lemma_total_sum(dues, gave, debts);
    assert(total(claims) - total(dues) == total(l.noted(eps)));
    let bound = n * eps;
    if forall|c: int| 0 <= c < credits.len() ==> credits[c] - #[trigger] received(steps, c) <= eps {
        lemma_total_bounds(claims, 0, eps);
        lemma_total_nonneg(dues);
        assert(total(dues) <= (credits.len() + 1) * eps) by (nonlinear_arith)
            requires
                total(dues) <= credits.len() * eps + eps,
        ;
        assert forall|d: int| 0 <= d < debts.len() implies dues[d] <= bound by {
            lemma_total_entry(dues, d);
            assert((credits.len() + 1) * eps <= n * eps) by (nonlinear_arith)
                requires
                    credits.len() + 1 <= n,
                    0 <= eps,
            ;
        }
        assert forall|c: int| 0 <= c < credits.len() implies claims[c] <= bound by {
            assert(eps <= n * eps) by (nonlinear_arith)
                requires
                    1 <= n,
                    0 <= eps,
            ;
        }
    } else {
        lemma_total_bounds(dues, 0, eps);
        lemma_total_nonneg(claims);
        assert(total(claims) <= (debts.len() + 1) * eps) by (nonlinear_arith)
            requires
                total(claims) <= debts.len() * eps + eps,
        ;
        assert forall|c: int| 0 <= c < credits.len() implies claims[c] <= bound by {
            lemma_total_entry(claims, c);
            assert((debts.len() + 1) * eps <= n * eps) by (nonlinear_arith)
                requires
                    debts.len() + 1 <= n,
                    0 <= eps,
            ;
        }
        assert forall|d: int| 0 <= d < debts.len() implies dues[d] <= bound by {
            assert(eps <= n * eps) by (nonlinear_arith)
                requires
                    1 <= n,
                    0 <= eps,
            ;
        }
    }
    assert forall|p: int| 0 <= p < n implies -bound <= #[trigger] l.left_after_plan(eps, p)
        <= bound && (l.balance(p) > eps ==> 0 <= l.left_after_plan(eps, p)) && (l.balance(p)
        < -eps ==> l.left_after_plan(eps, p) <= 0) && (-eps <= l.balance(p) <= eps
        ==> l.left_after_plan(eps, p) == 0) by {
        lemma_by_name(l, eps, steps, p);
        assert(0 <= bound) by (nonlinear_arith)
            requires
                0 <= n,
                0 <= eps,
                bound == n * eps,
        ;
        if l.balance(p) > eps {
            assert(l.balances()[p] > eps);
            assert(cs.contains(p));
            let c = choose|c: int| 0 <= c < cs.len() && cs[c] == p;
            assert forall|d: int| 0 <= d < ds.len() implies ds[d] != p by {
                assert(l.dues()[ds[d]] > eps);
            }
            assert(gets(l.plan(eps), l.users[p].name) == received(steps, c));
            assert(claims[c] == credits[c] - received(steps, c));
        } else if l.balance(p) < -eps {
            assert(l.dues()[p] > eps);
            assert(ds.contains(p));
            let d = choose|d: int| 0 <= d < ds.len() && ds[d] == p;
            assert forall|c: int| 0 <= c < cs.len() implies cs[c] != p by {
                assert(l.balances()[cs[c]] > eps);
            }
            assert(pays(l.plan(eps), l.users[p].name) == paid(steps, d));
            assert(dues[d] == debts[d] - paid(steps, d));
        } else {
            assert forall|c: int| 0 <= c < cs.len() implies cs[c] != p by {
                assert(l.balances()[cs[c]] > eps);
            }
            assert forall|d: int| 0 <= d < ds.len() implies ds[d] != p by {
                assert(l.dues()[ds[d]] > eps);
            }
        }
    }
}

} // verus!
