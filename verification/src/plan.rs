//! Working out the balances of a ledger and the transfers that settle it.

use vstd::prelude::*;

use crate::error::LedgerError;
use crate::ledger::{Participant, Transaction, Users};
use crate::model::{share_from, shares_upto, snap, LedgerView, TransferView};
use crate::seqs::{indices, ints, nats, views};
use crate::settlement::{
    is_ranking, lemma_pairing_range, lemma_ranking_upto, pair_up, pairing, rank,
};
use crate::text::{push_money, transfer_line};
use crate::units::EPSILON;

verus! {

/// One transfer of a settlement plan: `debtor` pays `amount` to `creditor`.
#[derive(Debug, PartialEq, Eq)]
pub struct Transfer {
    pub debtor: String,
    pub creditor: String,
    pub amount: u128,
}

impl View for Transfer {
    type V = TransferView;

    open spec fn view(&self) -> TransferView {
        TransferView { debtor: self.debtor@, creditor: self.creditor@, amount: self.amount as int }
    }
}

impl Transfer {
    /// The transfer as a sentence, the amount in currency units with two
    /// decimal places.
    pub fn describe(&self) -> (line: String)
        ensures
            line@ == transfer_line(self@),
    {
        let mut line = self.debtor.clone();
        line.append(" should pay ");
        line.append(self.creditor.as_str());
        line.append(" ");
        push_money(&mut line, self.amount);
        line
    }
}

/// What `participants` charge to `name`.
fn share_in(participants: &Vec<Participant>, name: &String) -> (r: i64)
    ensures
        r == share_from(views(participants@), name@, 0),
{
    let ghost ps = views(participants@);
    let mut k: usize = 0;
    while k < participants.len()
        invariant
            k <= participants.len(),
            ps == views(participants@),
            share_from(ps, name@, 0) == share_from(ps, name@, k as nat),
        decreases participants.len() - k,
    {
        if participants[k].name == *name {
            return match participants[k].fair_share {
                Some(s) => s,
                None => 0,
            };
        }
        k += 1;
    }
    0
}

/// What all of `transactions` together charge to `name`.
fn charged(transactions: &Vec<Transaction>, name: &String) -> (r: i128)
    ensures
        r == shares_upto(views(transactions@), name@, transactions.len() as nat),
        -0x8000_0000_0000_0000 * transactions.len() <= r <= 0x7fff_ffff_ffff_ffff
            * transactions.len(),
{
    let ghost txs = views(transactions@);
    let mut acc: i128 = 0;
    let mut k: usize = 0;
    while k < transactions.len()
        invariant
            k <= transactions.len(),
            txs == views(transactions@),
            acc == shares_upto(txs, name@, k as nat),
            -0x8000_0000_0000_0000 * k <= acc <= 0x7fff_ffff_ffff_ffff * k,
        decreases transactions.len() - k,
    {
        let s = share_in(&transactions[k].participants, name);
        assert(k < 0xffff_ffff_ffff_ffff);
        acc = acc + s as i128;
        k += 1;
    }
    acc
}

impl Users {
    /// What each participant has paid less what the transactions charge to
    /// them, in order of registration.
    fn balances(&self) -> (r: Vec<i128>)
        ensures
            r.len() == self@.users.len(),
            ints(r@) == self@.balances(),
            forall|p: int| 0 <= p < r.len() ==> -i128::MAX <= #[trigger] r[p],
    {
        proof {
            self.lemma_view();
        }
        let mut r: Vec<i128> = Vec::new();
        let mut p: usize = 0;
        while p < self.users.len()
            invariant
                p <= self.users.len(),
                r.len() == p,
                self@.users == views(self.users@),
                self@.transactions == views(self.transactions@),
                forall|q: int| 0 <= q < p ==> #[trigger] r[q] == self@.balance(q),
                forall|q: int| 0 <= q < p ==> -i128::MAX <= #[trigger] r[q],
            decreases self.users.len() - p,
        {
            let c = charged(&self.transactions, &self.users[p].name);
            assert(self.transactions.len() <= 0xffff_ffff_ffff_ffff);
            r.push(self.users[p].amount_paid as i128 - c);
            p += 1;
        }
        assert(ints(r@) =~= self@.balances());
        r
    }

    /// Works out every net balance anew and returns the transfers that
    /// settle the ledger, for a tolerance of `eps` micro-units: creditors
    /// and debtors, the largest first, are paired off greedily. A balance
    /// within `eps` of zero is put down as zero and takes no part.
    pub fn compute_settlement_with(&mut self, eps: u64) -> (r: Result<Vec<Transfer>, LedgerError>)
        requires
            old(self).wf(),
        ensures
            final(self).wf(),
            match r {
                Ok(plan) => old(self)@.settlement(eps as int) == Ok::<
                    Seq<TransferView>,
                    LedgerError,
                >(views(plan@)),
                Err(e) => old(self)@.settlement(eps as int) == Err::<
                    Seq<TransferView>,
                    LedgerError,
                >(e),
            },
            final(self)@ == old(self)@.after_settlement(eps as int),
    {
        proof {
            self.lemma_view();
        }
        let n = self.users.len();
        if n < 2 {
            return Err(LedgerError::InsufficientParticipants);
        }
        let ghost before = self@;
        let ghost e = eps as int;
        let balances = self.balances();
        let mut dues: Vec<i128> = Vec::new();
        let mut p: usize = 0;
        while p < n
            invariant
                p <= n,
                n == balances.len(),
                dues.len() == p,
                forall|q: int| 0 <= q < n ==> -i128::MAX <= #[trigger] balances[q],
                forall|q: int| 0 <= q < p ==> #[trigger] dues[q] == -balances[q],
            decreases n - p,
        {
            dues.push(-balances[p]);
            p += 1;
        }
        assert(ints(dues@) =~= before.dues()) by {
            assert forall|q: int| 0 <= q < n implies ints(dues@)[q] == before.dues()[q] by {
                assert(ints(balances@)[q] == before.balance(q));
            }
        }
        let creditors = rank(&balances, eps);
        let debtors = rank(&dues, eps);
        proof {
            lemma_ranking_upto(before.balances(), e, n as nat);
            lemma_ranking_upto(before.dues(), e, n as nat);
        }
        let credits = pick(&balances, &creditors, eps);
        let debts = pick(&dues, &debtors, eps);
        assert(nats(credits@) =~= before.credits(e)) by {
            assert forall|k: int| 0 <= k < credits.len() implies nats(credits@)[k]
                == before.credits(e)[k] by {
                let q = indices(creditors@)[k];
                assert(ints(balances@)[q] == before.balance(q));
            }
        }
        assert(nats(debts@) =~= before.debts(e)) by {
            assert forall|k: int| 0 <= k < debts.len() implies nats(debts@)[k] == before.debts(
                e,
            )[k] by {
                let q = indices(debtors@)[k];
                assert(ints(dues@)[q] == -before.balance(q));
            }
        }
        let steps = pair_up(&credits, &debts, eps);
        proof {
            lemma_pairing_range(nats(credits@), nats(debts@), e);
        }
        assert forall|m: int| 0 <= m < steps.len() implies (#[trigger] steps[m]).creditor
            < creditors.len() && steps[m].debtor < debtors.len() by {
            assert(steps[m]@ == pairing(nats(credits@), nats(debts@), e)[m]);
        }
        let mut plan: Vec<Transfer> = Vec::new();
        let mut k: usize = 0;
        while k < steps.len()
            invariant
                k <= steps.len(),
                plan.len() == k,
                n == self.users.len(),
                before.users == views(self.users@),
                indices(creditors@) == before.creditors(e),
                indices(debtors@) == before.debtors(e),
                is_ranking(before.balances(), e, n as nat, indices(creditors@)),
                is_ranking(before.dues(), e, n as nat, indices(debtors@)),
                views(steps@) == pairing(before.credits(e), before.debts(e), e),
                before.credits(e).len() == creditors.len(),
                before.debts(e).len() == debtors.len(),
                forall|m: int|
                    0 <= m < steps.len() ==> (#[trigger] steps[m]).creditor < creditors.len()
                        && steps[m].debtor < debtors.len(),
                forall|m: int| 0 <= m < k ==> (#[trigger] plan[m])@ == before.plan(e)[m],
            decreases steps.len() - k,
        {
            let step = steps[k];
            assert(step@ == views(steps@)[k as int]);
            let c = creditors[step.creditor];
            let d = debtors[step.debtor];
            assert(indices(creditors@)[step.creditor as int] == c);
            assert(indices(debtors@)[step.debtor as int] == d);
            plan.push(
                Transfer {
                    debtor: self.users[d].name.clone(),
                    creditor: self.users[c].name.clone(),
                    amount: step.amount,
                },
            );
            k += 1;
        }
        assert(views(plan@) =~= before.plan(e));
        let mut p: usize = 0;
        while p < n
            invariant
                p <= n,
                n == self.users.len(),
                n == balances.len(),
                n == before.users.len(),
                e == eps as int,
                ints(balances@) == before.balances(),
                self.transactions == old(self).transactions,
                forall|q: int|
                    0 <= q < p ==> (#[trigger] self.users[q])@ == before.with_balances(e).users[q],
                forall|q: int| p <= q < n ==> (#[trigger] self.users[q])@ == before.users[q],
            decreases n - p,
        {
            let b = balances[p];
            assert(ints(balances@)[p as int] == before.balance(p as int));
            let snapped: i128 = if -(eps as i128) <= b && b <= eps as i128 {
                0
            } else {
                b
            };
            self.users[p].net_balance = snapped;
            p += 1;
        }
        proof {
            self.lemma_view();
            assert(self@.users =~= before.with_balances(e).users);
            assert(self@.names() =~= before.names());
        }
        Ok(plan)
    }

    /// Works out every net balance anew and returns the transfers that
    /// settle the ledger, for the usual tolerance.
    pub fn compute_settlement(&mut self) -> (r: Result<Vec<Transfer>, LedgerError>)
        requires
            old(self).wf(),
        ensures
            final(self).wf(),
            match r {
                Ok(plan) => old(self)@.settlement(EPSILON as int) == Ok::<
                    Seq<TransferView>,
                    LedgerError,
                >(views(plan@)),
                Err(e) => old(self)@.settlement(EPSILON as int) == Err::<
                    Seq<TransferView>,
                    LedgerError,
                >(e),
            },
            final(self)@ == old(self)@.after_settlement(EPSILON as int),
    {
        self.compute_settlement_with(EPSILON)
    }

    /// Works out every net balance anew and returns the transfers that
    /// settle the ledger, one sentence for each.
    pub fn calculate_total_payments(&mut self) -> (r: Result<Vec<String>, LedgerError>)
        requires
            old(self).wf(),
        ensures
            final(self).wf(),
            match r {
                Ok(lines) => old(self)@.settlement(EPSILON as int) is Ok && views(lines@) == old(
                    self,
                )@.plan(EPSILON as int).map_values(|t: TransferView| transfer_line(t)),
                Err(e) => old(self)@.settlement(EPSILON as int) == Err::<
                    Seq<TransferView>,
                    LedgerError,
                >(e),
            },
            final(self)@ == old(self)@.after_settlement(EPSILON as int),
    {
        match self.compute_settlement() {
            Err(e) => Err(e),
            Ok(plan) => {
                let mut lines: Vec<String> = Vec::new();
                let mut k: usize = 0;
                while k < plan.len()
                    invariant
                        k <= plan.len(),
                        lines.len() == k,
                        forall|m: int|
                            0 <= m < k ==> (#[trigger] lines[m])@ == transfer_line(plan[m]@),
                    decreases plan.len() - k,
                {
                    lines.push(plan[k].describe());
                    k += 1;
                }
                assert(views(lines@) =~= views(plan@).map_values(
                    |t: TransferView| transfer_line(t),
                ));
                Ok(lines)
            },
        }
    }
}

/// The keys at the ranked places, which are all above zero, as magnitudes.
fn pick(keys: &Vec<i128>, order: &Vec<usize>, eps: u64) -> (r: Vec<u128>)
    requires
        is_ranking(ints(keys@), eps as int, keys.len() as nat, indices(order@)),
    ensures
        r.len() == order.len(),
        forall|k: int| 0 <= k < r.len() ==> #[trigger] r[k] == keys[order[k] as int],
{
    let mut r: Vec<u128> = Vec::new();
    let mut k: usize = 0;
    while k < order.len()
        invariant
            k <= order.len(),
            r.len() == k,
            is_ranking(ints(keys@), eps as int, keys.len() as nat, indices(order@)),
            forall|m: int| 0 <= m < k ==> #[trigger] r[m] == keys[order[m] as int],
        decreases order.len() - k,
    {
        assert(indices(order@)[k as int] == order[k as int]);
        let q = order[k];
        assert(ints(keys@)[q as int] == keys[q as int]);
        r.push(keys[q] as u128);
        k += 1;
    }
    r
}

} // verus!
