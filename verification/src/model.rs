//! The ledger as a mathematical value, and what each operation makes of it.
//!
//! Amounts are whole numbers of micro-units. Names are sequences of
//! characters and are compared exactly.

use vstd::prelude::*;

use crate::error::LedgerError;
use crate::seqs::total;
use crate::settlement::{pairing, ranking, StepView};

verus! {

/// The part of `amount` that falls on a weight of `weight` out of
/// `total_weight`, rounded toward zero. Nothing is shared out where the total
/// weight is zero.
pub open spec fn fair_share(amount: int, weight: int, total_weight: int) -> int {
    if total_weight <= 0 {
        0
    } else if amount >= 0 {
        (amount * weight) / total_weight
    } else {
        -(((-amount) * weight) / total_weight)
    }
}

/// `x` without its sign.
pub open spec fn magnitude(x: int) -> int {
    if x >= 0 {
        x
    } else {
        -x
    }
}

/// `b`, or zero where `b` is within `eps` of zero.
pub open spec fn snap(b: int, eps: int) -> int {
    if -eps <= b <= eps {
        0
    } else {
        b
    }
}

/// The two lists are equally long, and every name of the one occurs in the
/// other. Where one of them holds no name twice, neither does the other.
pub open spec fn same_names(a: Seq<Seq<char>>, b: Seq<Seq<char>>) -> bool {
    &&& a.len() == b.len()
    &&& forall|i: int| 0 <= i < a.len() ==> b.contains(#[trigger] a[i])
    &&& forall|j: int| 0 <= j < b.len() ==> a.contains(#[trigger] b[j])
}

pub struct ParticipantView {
    pub name: Seq<char>,
    pub weight: nat,
    pub fair_share: Option<int>,
}

impl ParticipantView {
    /// The share that this entry carries; none counts as zero.
    pub open spec fn share(self) -> int {
        match self.fair_share {
            Some(s) => s,
            None => 0,
        }
    }
}

/// The sum of the first `n` weights.
pub open spec fn weights_upto(ps: Seq<ParticipantView>, n: nat) -> nat
    decreases n,
{
    if n == 0 {
        0
    } else {
        weights_upto(ps, (n - 1) as nat) + ps[n - 1].weight
    }
}

/// How many of the first `n` participants carry weight.
pub open spec fn carriers_upto(ps: Seq<ParticipantView>, n: nat) -> nat
    decreases n,
{
    if n == 0 {
        0
    } else {
        carriers_upto(ps, (n - 1) as nat) + if ps[n - 1].weight > 0 {
            1nat
        } else {
            0nat
        }
    }
}

/// What the first `n` participants get of `size` by their weights alone,
/// each part rounded down.
pub open spec fn floors_upto(ps: Seq<ParticipantView>, size: int, total_weight: int, n: nat) -> int
    decreases n,
{
    if n == 0 {
        0
    } else {
        floors_upto(ps, size, total_weight, (n - 1) as nat) + fair_share(
            size,
            ps[n - 1].weight as int,
            total_weight,
        )
    }
}

/// The share of the first entry at or after `k` that is called `name`; zero
/// where there is none.
pub open spec fn share_from(ps: Seq<ParticipantView>, name: Seq<char>, k: nat) -> int
    decreases ps.len() - k,
{
    if k >= ps.len() {
        0
    } else if ps[k as int].name == name {
        ps[k as int].share()
    } else {
        share_from(ps, name, k + 1)
    }
}

pub struct TransactionView {
    pub amount: int,
    pub participants: Seq<ParticipantView>,
}

impl TransactionView {
    /// The names of the participants, in order.
    pub open spec fn names(self) -> Seq<Seq<char>> {
        self.participants.map_values(|p: ParticipantView| p.name)
    }

    pub open spec fn total_weight(self) -> nat {
        weights_upto(self.participants, self.participants.len())
    }

    /// What is left of the amount, sign apart, when every participant gets
    /// the part that falls on their weight, rounded toward zero: less than
    /// one micro-unit for each participant who carries weight.
    pub open spec fn left_over(self) -> int {
        magnitude(self.amount) - floors_upto(
            self.participants,
            magnitude(self.amount),
            self.total_weight() as int,
            self.participants.len(),
        )
    }

    /// Whether the participant at place `e` gets one micro-unit of what is
    /// left over: those who carry weight do, in order, as far as it goes.
    pub open spec fn gets_extra(self, e: int) -> bool {
        self.participants[e].weight > 0 && carriers_upto(self.participants, e as nat)
            < self.left_over()
    }

    /// The share of the participant at place `e`: the amount times the
    /// weight over the sum of the weights, rounded toward zero, and one
    /// micro-unit further from zero for those who get of what is left over.
    pub open spec fn share_at(self, e: int) -> int {
        let part = fair_share(
            self.amount,
            self.participants[e].weight as int,
            self.total_weight() as int,
        );
        if !self.gets_extra(e) {
            part
        } else if self.amount >= 0 {
            part + 1
        } else {
            part - 1
        }
    }

    /// The transaction with every participant's fair share filled in. Where
    /// some weight is on the participants, the shares come to the amount.
    pub open spec fn shared_out(self) -> TransactionView {
        TransactionView {
            amount: self.amount,
            participants: Seq::new(
                self.participants.len(),
                |e: int|
                    ParticipantView {
                        name: self.participants[e].name,
                        weight: self.participants[e].weight,
                        fair_share: Some(self.share_at(e)),
                    },
            ),
        }
    }

    /// The shares of the participants, in order.
    pub open spec fn shares(self) -> Seq<int> {
        self.participants.map_values(|p: ParticipantView| p.share())
    }

    /// What the shares fall short of the amount.
    pub open spec fn remainder(self) -> int {
        self.amount - total(self.shares())
    }

    /// What this transaction charges to `name`: the share of the first entry
    /// of that name, and zero where the transaction does not mention it.
    pub open spec fn share_of(self, name: Seq<char>) -> int {
        share_from(self.participants, name, 0)
    }
}

/// What the first `n` transactions charge to `name`.
pub open spec fn shares_upto(txs: Seq<TransactionView>, name: Seq<char>, n: nat) -> int
    decreases n,
{
    if n == 0 {
        0
    } else {
        shares_upto(txs, name, (n - 1) as nat) + txs[n - 1].share_of(name)
    }
}

pub struct UserView {
    pub name: Seq<char>,
    pub amount_paid: int,
    pub net_balance: int,
}

/// One transfer of a settlement plan.
pub struct TransferView {
    pub debtor: Seq<char>,
    pub creditor: Seq<char>,
    pub amount: int,
}

/// What `name` pays over all of `plan`.
pub open spec fn pays(plan: Seq<TransferView>, name: Seq<char>) -> int
    decreases plan.len(),
{
    if plan.len() == 0 {
        0
    } else {
        (if plan[0].debtor == name {
            plan[0].amount
        } else {
            0
        }) + pays(plan.drop_first(), name)
    }
}

/// What `name` gets over all of `plan`.
pub open spec fn gets(plan: Seq<TransferView>, name: Seq<char>) -> int
    decreases plan.len(),
{
    if plan.len() == 0 {
        0
    } else {
        (if plan[0].creditor == name {
            plan[0].amount
        } else {
            0
        }) + gets(plan.drop_first(), name)
    }
}

/// The ledger as a mathematical value.
pub struct LedgerView {
    pub users: Seq<UserView>,
    pub transactions: Seq<TransactionView>,
}

impl LedgerView {
    /// The registered names, in order of registration.
    pub open spec fn names(self) -> Seq<Seq<char>> {
        self.users.map_values(|u: UserView| u.name)
    }

    /// No name is registered twice.
    pub open spec fn wf(self) -> bool {
        self.names().no_duplicates()
    }

    pub open spec fn has_user(self, name: Seq<char>) -> bool {
        self.names().contains(name)
    }

    /// Where `name` is registered.
    pub open spec fn position(self, name: Seq<char>) -> int {
        self.names().index_of(name)
    }

    /// What `name` has paid so far.
    pub open spec fn paid_by(self, name: Seq<char>) -> int {
        self.users[self.position(name)].amount_paid
    }

    /// The ledger with `name` registered last, all totals at zero.
    pub open spec fn with_user(self, name: Seq<char>) -> LedgerView {
        LedgerView {
            users: self.users.push(UserView { name, amount_paid: 0, net_balance: 0 }),
            transactions: self.transactions,
        }
    }

    /// Whether `name` can be registered.
    pub open spec fn add_verdict(self, name: Seq<char>) -> Result<(), LedgerError> {
        if self.has_user(name) {
            Err(LedgerError::DuplicateParticipant)
        } else {
            Ok(())
        }
    }

    /// The ledger after an attempt to register `name`.
    pub open spec fn after_add(self, name: Seq<char>) -> LedgerView {
        if self.has_user(name) {
            self
        } else {
            self.with_user(name)
        }
    }

    /// The ledger without the participant called `name`. The transactions
    /// stay as they are, also those that mention the name.
    pub open spec fn without_user(self, name: Seq<char>) -> LedgerView {
        LedgerView {
            users: self.users.remove(self.position(name)),
            transactions: self.transactions,
        }
    }

    /// Whether `name` can be struck from the register.
    pub open spec fn remove_verdict(self, name: Seq<char>) -> Result<(), LedgerError> {
        if self.has_user(name) {
            Ok(())
        } else {
            Err(LedgerError::ParticipantNotFound)
        }
    }

    /// The ledger after an attempt to strike `name` from the register.
    pub open spec fn after_remove(self, name: Seq<char>) -> LedgerView {
        if self.has_user(name) {
            self.without_user(name)
        } else {
            self
        }
    }

    /// The ledger in which `name` has paid `paid` in all.
    pub open spec fn with_paid(self, name: Seq<char>, paid: int) -> LedgerView {
        let p = self.position(name);
        LedgerView {
            users: self.users.update(
                p,
                UserView {
                    name: self.users[p].name,
                    amount_paid: paid,
                    net_balance: self.users[p].net_balance,
                },
            ),
            transactions: self.transactions,
        }
    }

    /// The ledger with `t` recorded last.
    pub open spec fn with_transaction(self, t: TransactionView) -> LedgerView {
        LedgerView { users: self.users, transactions: self.transactions.push(t) }
    }

    /// The split of `amount` among all registered participants, each with
    /// weight one, before the shares are worked out.
    pub open spec fn equal_draft(self, amount: int) -> TransactionView {
        TransactionView {
            amount,
            participants: self.names().map_values(
                |n: Seq<char>| ParticipantView { name: n, weight: 1, fair_share: None },
            ),
        }
    }

    /// A weighted split can be recorded: it names exactly the registered
    /// participants, and some weight is on them.
    pub open spec fn accepts(self, draft: TransactionView) -> bool {
        same_names(draft.names(), self.names()) && draft.total_weight() > 0
    }

    /// The ledger after `payer` has fronted the amount of `draft`, which is
    /// recorded with its shares worked out.
    pub open spec fn after_payment(self, payer: Seq<char>, draft: TransactionView) -> LedgerView {
        self.with_paid(payer, self.paid_by(payer) + draft.amount).with_transaction(
            draft.shared_out(),
        )
    }

    /// Whether a payment of `amount` by `payer` can be recorded, and if not,
    /// why not.
    pub open spec fn payer_verdict(self, payer: Seq<char>, amount: int) -> Result<(), LedgerError> {
        if !self.has_user(payer) {
            Err(LedgerError::ParticipantNotFound)
        } else if !(i64::MIN <= self.paid_by(payer) + amount <= i64::MAX) {
            Err(LedgerError::AmountOutOfRange)
        } else {
            Ok(())
        }
    }

    /// Whether an equal split of `amount` fronted by `payer` can be recorded.
    pub open spec fn equal_payment_verdict(self, payer: Seq<char>, amount: int) -> Result<
        (),
        LedgerError,
    > {
        self.payer_verdict(payer, amount)
    }

    /// The ledger after an attempt to record an equal split of `amount`
    /// fronted by `payer`.
    pub open spec fn after_equal_payment(self, payer: Seq<char>, amount: int) -> LedgerView {
        if self.equal_payment_verdict(payer, amount) is Ok {
            self.after_payment(payer, self.equal_draft(amount))
        } else {
            self
        }
    }

    /// Whether the weighted split `draft` fronted by `payer` can be recorded:
    /// the split is looked at first, then the payer, then the new total.
    pub open spec fn payment_verdict(self, payer: Seq<char>, draft: TransactionView) -> Result<
        (),
        LedgerError,
    > {
        if !self.accepts(draft) {
            Err(LedgerError::InvalidParticipantSet)
        } else {
            self.payer_verdict(payer, draft.amount)
        }
    }

    /// The ledger after an attempt to record the weighted split `draft`
    /// fronted by `payer`.
    pub open spec fn after_weighted_payment(
        self,
        payer: Seq<char>,
        draft: TransactionView,
    ) -> LedgerView {
        if self.payment_verdict(payer, draft) is Ok {
            self.after_payment(payer, draft)
        } else {
            self
        }
    }

    /// Whether `amount` can be taken back from what `name` has paid; `Ok(true)`
    /// says that the total is floored at zero.
    pub open spec fn reversal_verdict(self, name: Seq<char>, amount: int) -> Result<
        bool,
        LedgerError,
    > {
        if !self.has_user(name) {
            Err(LedgerError::ParticipantNotFound)
        } else if self.paid_by(name) - amount > i64::MAX {
            Err(LedgerError::AmountOutOfRange)
        } else {
            Ok(self.paid_by(name) - amount < 0)
        }
    }

    /// What is left of the payments of `name` after `amount` is taken back:
    /// never less than nothing.
    pub open spec fn paid_after_reversal(self, name: Seq<char>, amount: int) -> int {
        if self.paid_by(name) - amount < 0 {
            0
        } else {
            self.paid_by(name) - amount
        }
    }

    /// The ledger after an attempt to take `amount` back from what `name`
    /// has paid.
    pub open spec fn after_reversal(self, name: Seq<char>, amount: int) -> LedgerView {
        if self.reversal_verdict(name, amount) is Ok {
            self.with_paid(name, self.paid_after_reversal(name, amount))
        } else {
            self
        }
    }

    /// The ledger without the transaction at place `index`.
    pub open spec fn without_transaction(self, index: int) -> LedgerView {
        LedgerView { users: self.users, transactions: self.transactions.remove(index) }
    }

    /// Whether there is a transaction at place `index` to strike.
    pub open spec fn strike_verdict(self, index: int) -> Result<(), LedgerError> {
        if 0 <= index < self.transactions.len() {
            Ok(())
        } else {
            Err(LedgerError::IndexOutOfRange)
        }
    }

    /// The ledger after an attempt to strike the transaction at place
    /// `index`.
    pub open spec fn after_strike(self, index: int) -> LedgerView {
        if 0 <= index < self.transactions.len() {
            self.without_transaction(index)
        } else {
            self
        }
    }

    /// Everyone is square: all totals at zero and no transaction left.
    pub open spec fn settled(self) -> LedgerView {
        LedgerView {
            users: self.users.map_values(
                |u: UserView| UserView { name: u.name, amount_paid: 0, net_balance: 0 },
            ),
            transactions: Seq::empty(),
        }
    }

    /// A transaction that was recorded among the participants as they are
    /// now registered: it names exactly them, and its shares are those that
    /// sharing out by its weights gives.
    pub open spec fn is_current(self, t: TransactionView) -> bool {
        self.accepts(t) && t == t.shared_out()
    }

    /// What each participant has paid, in order of registration.
    pub open spec fn payments(self) -> Seq<int> {
        self.users.map_values(|u: UserView| u.amount_paid)
    }

    /// The amounts of the transactions, in order.
    pub open spec fn amounts(self) -> Seq<int> {
        self.transactions.map_values(|t: TransactionView| t.amount)
    }

    /// What all transactions together charge to `name`.
    pub open spec fn total_share(self, name: Seq<char>) -> int {
        shares_upto(self.transactions, name, self.transactions.len())
    }

    /// What the participant at place `p` has paid, less what the transactions
    /// charge to them: positive where they are owed money.
    pub open spec fn balance(self, p: int) -> int {
        self.users[p].amount_paid - self.total_share(self.users[p].name)
    }

    pub open spec fn balances(self) -> Seq<int> {
        Seq::new(self.users.len(), |p: int| self.balance(p))
    }

    /// What the participants owe, where they owe: the balances with the sign
    /// turned.
    pub open spec fn dues(self) -> Seq<int> {
        Seq::new(self.users.len(), |p: int| -self.balance(p))
    }

    /// The places of those who are owed more than `eps`, the largest claim
    /// first.
    pub open spec fn creditors(self, eps: int) -> Seq<int> {
        ranking(self.balances(), eps)
    }

    /// The places of those who owe more than `eps`, the largest debt first.
    pub open spec fn debtors(self, eps: int) -> Seq<int> {
        ranking(self.dues(), eps)
    }

    pub open spec fn credits(self, eps: int) -> Seq<int> {
        self.creditors(eps).map_values(|p: int| self.balance(p))
    }

    pub open spec fn debts(self, eps: int) -> Seq<int> {
        self.debtors(eps).map_values(|p: int| -self.balance(p))
    }

    /// The steps of a pairing with debtor and creditor by name.
    pub open spec fn named(self, eps: int, steps: Seq<StepView>) -> Seq<TransferView> {
        steps.map_values(
            |s: StepView|
                TransferView {
                    debtor: self.users[self.debtors(eps)[s.debtor]].name,
                    creditor: self.users[self.creditors(eps)[s.creditor]].name,
                    amount: s.amount,
                },
        )
    }

    /// The transfers that settle the ledger: the greedy pairing of the
    /// creditors with the debtors, by name.
    pub open spec fn plan(self, eps: int) -> Seq<TransferView> {
        self.named(eps, pairing(self.credits(eps), self.debts(eps), eps))
    }

    /// The net balances as a settlement puts them down, in order of
    /// registration.
    pub open spec fn noted(self, eps: int) -> Seq<int> {
        Seq::new(self.users.len(), |p: int| snap(self.balance(p), eps))
    }

    /// What is left of the net balance of the participant at place `p` once
    /// the plan is carried out: the balance as the settlement puts it down,
    /// with what they pay and without what they get.
    pub open spec fn left_after_plan(self, eps: int, p: int) -> int {
        snap(self.balance(p), eps) + pays(self.plan(eps), self.users[p].name) - gets(
            self.plan(eps),
            self.users[p].name,
        )
    }

    /// What a settlement hands back: the plan, or an error where fewer than
    /// two participants are registered.
    pub open spec fn settlement(self, eps: int) -> Result<Seq<TransferView>, LedgerError> {
        if self.users.len() < 2 {
            Err(LedgerError::InsufficientParticipants)
        } else {
            Ok(self.plan(eps))
        }
    }

    /// The ledger after a settlement was asked for.
    pub open spec fn after_settlement(self, eps: int) -> LedgerView {
        if self.users.len() < 2 {
            self
        } else {
            self.with_balances(eps)
        }
    }

    /// The ledger with every net balance worked out anew; a balance within
    /// `eps` of zero is put down as zero.
    pub open spec fn with_balances(self, eps: int) -> LedgerView {
        LedgerView {
            users: Seq::new(
                self.users.len(),
                |p: int|
                    UserView {
                        name: self.users[p].name,
                        amount_paid: self.users[p].amount_paid,
                        net_balance: snap(self.balance(p), eps),
                    },
            ),
            transactions: self.transactions,
        }
    }
}

} // verus!
