//! The ledger: registered participants and the transactions recorded so far.

use vstd::prelude::*;

use crate::error::LedgerError;
use crate::model::{same_names, LedgerView, ParticipantView, TransactionView, UserView};
use crate::seqs::views;
use crate::shares::{calculate_fair_shares, carries_weight};

verus! {

/// One share of a transaction: who takes part, with what weight, and the part
/// of the amount that falls on them once the transaction is recorded.
#[derive(Debug)]
pub struct Participant {
    pub name: String,
    pub weight: u8,
    pub fair_share: Option<i64>,
}

impl View for Participant {
    type V = ParticipantView;

    open spec fn view(&self) -> ParticipantView {
        ParticipantView {
            name: self.name@,
            weight: self.weight as nat,
            fair_share: match self.fair_share {
                Some(s) => Some(s as int),
                None => None,
            },
        }
    }
}

/// An amount fronted by one participant and split among several.
#[derive(Debug)]
pub struct Transaction {
    pub amount: i64,
    pub participants: Vec<Participant>,
}

impl View for Transaction {
    type V = TransactionView;

    open spec fn view(&self) -> TransactionView {
        TransactionView { amount: self.amount as int, participants: views(self.participants@) }
    }
}

/// A registered participant with the running totals kept for them.
#[derive(Debug)]
pub struct User {
    pub name: String,
    pub amount_paid: i64,
    pub net_balance: i128,
}

impl View for User {
    type V = UserView;

    open spec fn view(&self) -> UserView {
        UserView {
            name: self.name@,
            amount_paid: self.amount_paid as int,
            net_balance: self.net_balance as int,
        }
    }
}

/// The participants of a group and the transactions among them.
#[derive(Debug)]
pub struct Users {
    pub(crate) users: Vec<User>,
    pub(crate) transactions: Vec<Transaction>,
}

impl View for Users {
    type V = LedgerView;

    closed spec fn view(&self) -> LedgerView {
        LedgerView { users: views(self.users@), transactions: views(self.transactions@) }
    }
}

impl Transaction {
    pub fn new(amount: i64, participants: Vec<Participant>) -> (t: Self)
        ensures
            t.amount == amount,
            t.participants == participants,
    {
        Transaction { amount, participants }
    }
}

impl Participant {
    pub fn new(name: &str, weight: u8) -> (p: Self)
        ensures
            p@ == (ParticipantView { name: name@, weight: weight as nat, fair_share: None }),
    {
        Participant { name: name.to_owned(), weight, fair_share: None }
    }
}

/// The place of the user called `name`, if there is one.
pub(crate) fn find_user(users: &Vec<User>, name: &String) -> (r: Option<usize>)
    ensures
        match r {
            Some(i) => i < users.len() && users[i as int].name@ == name@,
            None => forall|j: int| 0 <= j < users.len() ==> users[j].name@ != name@,
        },
{
    let mut i: usize = 0;
    while i < users.len()
        invariant
            i <= users.len(),
            forall|j: int| 0 <= j < i ==> users[j].name@ != name@,
        decreases users.len() - i,
    {
        if users[i].name == *name {
            return Some(i);
        }
        i += 1;
    }
    None
}

/// Whether one of `participants` is called `name`.
fn mentions(participants: &Vec<Participant>, name: &String) -> (r: bool)
    ensures
        r == exists|j: int| 0 <= j < participants.len() && participants[j].name@ == name@,
{
    let mut i: usize = 0;
    while i < participants.len()
        invariant
            i <= participants.len(),
            forall|j: int| 0 <= j < i ==> participants[j].name@ != name@,
        decreases participants.len() - i,
    {
        if participants[i].name == *name {
            return true;
        }
        i += 1;
    }
    false
}

/// Whether `participants` and `users` are equally many and name each other.
fn names_agree(participants: &Vec<Participant>, users: &Vec<User>) -> (r: bool)
    ensures
        r == same_names(
            views(participants@).map_values(|p: ParticipantView| p.name),
            views(users@).map_values(|u: UserView| u.name),
        ),
{
    let ghost a = views(participants@).map_values(|p: ParticipantView| p.name);
    let ghost b = views(users@).map_values(|u: UserView| u.name);
    if participants.len() != users.len() {
        return false;
    }
    let mut i: usize = 0;
    while i < participants.len()
        invariant
            i <= participants.len(),
            a == views(participants@).map_values(|p: ParticipantView| p.name),
            b == views(users@).map_values(|u: UserView| u.name),
            forall|k: int| 0 <= k < i ==> b.contains(#[trigger] a[k]),
        decreases participants.len() - i,
    {
        match find_user(users, &participants[i].name) {
            Some(j) => {
                assert(b[j as int] == a[i as int]);
            },
            None => {
                assert(!b.contains(a[i as int])) by {
                    if b.contains(a[i as int]) {
                        let j = choose|j: int| 0 <= j < b.len() && b[j] == a[i as int];
                        assert(users[j].name@ == b[j]);
                    }
                }
                return false;
            },
        }
        i += 1;
    }
    let mut j: usize = 0;
    while j < users.len()
        invariant
            j <= users.len(),
            a == views(participants@).map_values(|p: ParticipantView| p.name),
            b == views(users@).map_values(|u: UserView| u.name),
            a.len() == b.len(),
            forall|k: int| 0 <= k < a.len() ==> b.contains(#[trigger] a[k]),
            forall|k: int| 0 <= k < j ==> a.contains(#[trigger] b[k]),
        decreases users.len() - j,
    {
        if mentions(participants, &users[j].name) {
            let ghost m = choose|m: int|
                0 <= m < participants.len() && participants[m].name@ == users[j as int].name@;
            assert(a[m] == b[j as int]);
        } else {
            assert(!a.contains(b[j as int])) by {
                if a.contains(b[j as int]) {
                    let m = choose|m: int| 0 <= m < a.len() && a[m] == b[j as int];
                    assert(participants[m].name@ == a[m]);
                }
            }
            return false;
        }
        j += 1;
    }
    true
}

impl Users {
    /// Whether the ledger keeps its promise that names are unique.
    pub open spec fn wf(&self) -> bool {
        self@.wf()
    }

    /// The view, spelled out for the other modules of the crate.
    pub(crate) proof fn lemma_view(&self)
        ensures
            self@.users == views(self.users@),
            self@.transactions == views(self.transactions@),
    {
    }

    pub fn new() -> (l: Self)
        ensures
            l.wf(),
            l@.users.len() == 0,
            l@.transactions.len() == 0,
    {
        Users { users: Vec::new(), transactions: Vec::new() }
    }

    /// Registers `name` with all totals at zero, unless it is registered already.
    pub fn add_user(&mut self, name: String) -> (r: Result<(), LedgerError>)
        requires
            old(self).wf(),
        ensures
            final(self).wf(),
            r == old(self)@.add_verdict(name@),
            final(self)@ == old(self)@.after_add(name@),
            final(self)@.names().to_multiset().count(name@) == 1,
    {
        match find_user(&self.users, &name) {
            Some(i) => {
                proof {
                    assert(self@.names()[i as int] == name@);
                    self@.names().lemma_multiset_has_no_duplicates();
                    vstd::seq_lib::to_multiset_contains(self@.names(), name@);
                }
                Err(LedgerError::DuplicateParticipant)
            },
            None => {
                let ghost before = self@;
                let ghost n = name@;
                self.users.push(User { name, amount_paid: 0, net_balance: 0 });
                proof {
                    assert(self@.users =~= before.with_user(n).users);
                    assert(self@.names() =~= before.names().push(n));
                    assert(self@.names().no_duplicates());
                    assert(self@.names()[before.users.len() as int] == n);
                    self@.names().lemma_multiset_has_no_duplicates();
                    vstd::seq_lib::to_multiset_contains(self@.names(), n);
                }
                Ok(())
            },
        }
    }

    /// The registered names, in order of registration.
    pub fn list_users(&self) -> (names: Vec<String>)
        ensures
            views(names@) == self@.names(),
    {
        let mut names: Vec<String> = Vec::new();
        let mut i: usize = 0;
        while i < self.users.len()
            invariant
                i <= self.users.len(),
                names.len() == i,
                forall|j: int| 0 <= j < i ==> names[j]@ == self.users[j].name@,
            decreases self.users.len() - i,
        {
            names.push(self.users[i].name.clone());
            i += 1;
        }
        proof {
            assert(views(names@) =~= self@.names());
        }
        names
    }

    /// What `name` has paid so far, if `name` is registered.
    pub fn amount_paid(&self, name: &str) -> (r: Option<i64>)
        requires
            self.wf(),
        ensures
            match r {
                Some(paid) => self@.has_user(name@) && paid == self@.paid_by(name@),
                None => !self@.has_user(name@),
            },
    {
        let key = name.to_owned();
        match find_user(&self.users, &key) {
            Some(i) => {
                proof {
                    lemma_position(self@, i as int);
                }
                Some(self.users[i].amount_paid)
            },
            None => {
                proof {
                    lemma_absent(self@, name@);
                }
                None
            },
        }
    }

    /// The net balance of `name` as the last settlement found it, if `name`
    /// is registered: positive where `name` is owed money.
    pub fn net_balance(&self, name: &str) -> (r: Option<i128>)
        requires
            self.wf(),
        ensures
            match r {
                Some(b) => self@.has_user(name@) && b == self@.users[self@.position(
                    name@,
                )].net_balance,
                None => !self@.has_user(name@),
            },
    {
        let key = name.to_owned();
        match find_user(&self.users, &key) {
            Some(i) => {
                proof {
                    lemma_position(self@, i as int);
                }
                Some(self.users[i].net_balance)
            },
            None => {
                proof {
                    lemma_absent(self@, name@);
                }
                None
            },
        }
    }

    /// The transactions in the order in which they were recorded.
    pub fn transactions(&self) -> (r: &Vec<Transaction>)
        ensures
            views(r@) == self@.transactions,
    {
        &self.transactions
    }

    /// Strikes `name` from the register. Transactions that mention the name
    /// stay as they are.
    pub fn remove_user(&mut self, name: String) -> (r: Result<(), LedgerError>)
        requires
            old(self).wf(),
        ensures
            final(self).wf(),
            r == old(self)@.remove_verdict(name@),
            final(self)@ == old(self)@.after_remove(name@),
            !final(self)@.has_user(name@),
    {
        match find_user(&self.users, &name) {
            None => {
                proof {
                    lemma_absent(self@, name@);
                }
                Err(LedgerError::ParticipantNotFound)
            },
            Some(i) => {
                let ghost before = self@;
                proof {
                    lemma_position(before, i as int);
                }
                self.users.remove(i);
                proof {
                    assert(self@.users =~= before.users.remove(i as int));
                    assert(self@.names() =~= before.names().remove(i as int));
                    assert forall|j: int| 0 <= j < self@.users.len() implies self@.users[j].name
                        != name@ by {
                        let k = if j < i {
                            j
                        } else {
                            j + 1
                        };
                        assert(self@.users[j] == before.users[k]);
                        assert(before.names()[k] != before.names()[i as int]);
                    }
                    lemma_absent(self@, name@);
                }
                Ok(())
            },
        }
    }

    /// The split of `amount` among all registered participants, each with
    /// weight one, before the shares are worked out.
    fn equal_draft(&self, amount: i64) -> (t: Transaction)
        ensures
            t@ == self@.equal_draft(amount as int),
    {
        let mut participants: Vec<Participant> = Vec::new();
        let mut i: usize = 0;
        while i < self.users.len()
            invariant
                i <= self.users.len(),
                participants.len() == i,
                forall|j: int|
                    0 <= j < i ==> (#[trigger] participants[j])@ == (ParticipantView {
                        name: self.users[j].name@,
                        weight: 1,
                        fair_share: None,
                    }),
            decreases self.users.len() - i,
        {
            participants.push(
                Participant { name: self.users[i].name.clone(), weight: 1, fair_share: None },
            );
            i += 1;
        }
        let t = Transaction { amount, participants };
        assert(t@.participants =~= self@.equal_draft(amount as int).participants);
        t
    }

    /// Adds `amount` to what the user at place `i` has paid and records `t`.
    fn book(&mut self, i: usize, paid: i64, t: Transaction)
        requires
            old(self).wf(),
            i < old(self)@.users.len(),
        ensures
            final(self).wf(),
            final(self)@ == old(self)@.with_paid(old(self)@.users[i as int].name, paid as int)
                .with_transaction(t@),
    {
        let ghost before = self@;
        proof {
            lemma_position(before, i as int);
        }
        self.users[i].amount_paid = paid;
        self.transactions.push(t);
        proof {
            let after = before.with_paid(before.users[i as int].name, paid as int).with_transaction(
                t@,
            );
            assert(self@.users =~= after.users);
            assert(self@.transactions =~= after.transactions);
            assert(self@.names() =~= before.names());
        }
    }

    /// Records that `user` has fronted `amount` for the whole group, to be
    /// split in equal parts.
    pub fn record_payment(&mut self, user: &str, amount: i64) -> (r: Result<(), LedgerError>)
        requires
            old(self).wf(),
        ensures
            final(self).wf(),
            r == old(self)@.equal_payment_verdict(user@, amount as int),
            final(self)@ == old(self)@.after_equal_payment(user@, amount as int),
    {
        let key = user.to_owned();
        match find_user(&self.users, &key) {
            None => {
                proof {
                    lemma_absent(self@, user@);
                }
                Err(LedgerError::ParticipantNotFound)
            },
            Some(i) => {
                proof {
                    lemma_position(self@, i as int);
                }
                match self.users[i].amount_paid.checked_add(amount) {
                    None => Err(LedgerError::AmountOutOfRange),
                    Some(paid) => {
                        let mut t = self.equal_draft(amount);
                        calculate_fair_shares(&mut t);
                        self.book(i, paid, t);
                        Ok(())
                    },
                }
            },
        }
    }

    /// Records that `user` has fronted the amount of `transaction`, to be
    /// split by the weights that it gives. The transaction has to name
    /// exactly the registered participants.
    pub fn record_weighted_payment(&mut self, user: &str, transaction: Transaction) -> (r: Result<
        (),
        LedgerError,
    >)
        requires
            old(self).wf(),
        ensures
            final(self).wf(),
            r == old(self)@.payment_verdict(user@, transaction@),
            final(self)@ == old(self)@.after_weighted_payment(user@, transaction@),
    {
        let mut transaction = transaction;
        if !names_agree(&transaction.participants, &self.users) || !carries_weight(
            &transaction.participants,
        ) {
            return Err(LedgerError::InvalidParticipantSet);
        }
        calculate_fair_shares(&mut transaction);
        let key = user.to_owned();
        match find_user(&self.users, &key) {
            None => {
                proof {
                    lemma_absent(self@, user@);
                }
                Err(LedgerError::ParticipantNotFound)
            },
            Some(i) => {
                proof {
                    lemma_position(self@, i as int);
                }
                match self.users[i].amount_paid.checked_add(transaction.amount) {
                    None => Err(LedgerError::AmountOutOfRange),
                    Some(paid) => {
                        self.book(i, paid, transaction);
                        Ok(())
                    },
                }
            },
        }
    }

    /// Takes `amount` back from what `user` has paid. The total never goes
    /// below zero: where it would, it is put to zero, and `true` is returned.
    pub fn remove_payment(&mut self, user: &str, amount: i64) -> (r: Result<bool, LedgerError>)
        requires
            old(self).wf(),
        ensures
            final(self).wf(),
            r == old(self)@.reversal_verdict(user@, amount as int),
            final(self)@ == old(self)@.after_reversal(user@, amount as int),
    {
        let key = user.to_owned();
        match find_user(&self.users, &key) {
            None => {
                proof {
                    lemma_absent(self@, user@);
                }
                Err(LedgerError::ParticipantNotFound)
            },
            Some(i) => {
                let ghost before = self@;
                proof {
                    lemma_position(before, i as int);
                }
                let left: i128 = self.users[i].amount_paid as i128 - amount as i128;
                if left > i64::MAX as i128 {
                    return Err(LedgerError::AmountOutOfRange);
                }
                let floored = left < 0;
                let paid: i64 = if floored {
                    0
                } else {
                    left as i64
                };
                self.users[i].amount_paid = paid;
                proof {
                    let after = before.with_paid(user@, paid as int);
                    assert(self@.users =~= after.users);
                    assert(self@.names() =~= before.names());
                }
                Ok(floored)
            },
        }
    }

    /// Strikes the transaction at place `index`. What the participants have
    /// paid stays as it is.
    pub fn remove_transaction_by_index(&mut self, index: usize) -> (r: Result<(), LedgerError>)
        requires
            old(self).wf(),
        ensures
            final(self).wf(),
            r == old(self)@.strike_verdict(index as int),
            final(self)@ == old(self)@.after_strike(index as int),
    {
        if index >= self.transactions.len() {
            return Err(LedgerError::IndexOutOfRange);
        }
        let ghost before = self@;
        self.transactions.remove(index);
        assert(self@.transactions =~= before.transactions.remove(index as int));
        Ok(())
    }

    /// Declares everyone square: all totals go to zero and the transactions
    /// are forgotten. The participants stay.
    pub fn settle_up(&mut self)
        requires
            old(self).wf(),
        ensures
            final(self).wf(),
            final(self)@ == old(self)@.settled(),
    {
        let ghost before = self@;
        let n = self.users.len();
        let mut i: usize = 0;
        while i < n
            invariant
                i <= n,
                n == self.users.len(),
                n == before.users.len(),
                self.transactions == old(self).transactions,
                forall|j: int|
                    0 <= j < i ==> (#[trigger] self.users[j])@ == before.settled().users[j],
                forall|j: int| i <= j < n ==> (#[trigger] self.users[j])@ == before.users[j],
            decreases n - i,
        {
            self.users[i].net_balance = 0;
            self.users[i].amount_paid = 0;
            i += 1;
        }
        self.transactions.clear();
        proof {
            assert(self@.users =~= before.settled().users);
            assert(self@.transactions =~= before.settled().transactions);
            assert(self@.names() =~= before.names());
        }
    }
}

/// In a ledger without double names, a name is registered where it stands.
pub proof fn lemma_position(l: LedgerView, i: int)
    requires
        l.wf(),
        0 <= i < l.users.len(),
    ensures
        l.has_user(l.users[i].name),
        l.position(l.users[i].name) == i,
{
    assert(l.names()[i] == l.users[i].name);
}

proof fn lemma_absent(l: LedgerView, name: Seq<char>)
    requires
        forall|j: int| 0 <= j < l.users.len() ==> l.users[j].name != name,
    ensures
        !l.has_user(name),
{
    if l.has_user(name) {
        let j = choose|j: int| 0 <= j < l.names().len() && l.names()[j] == name;
        assert(l.users[j].name == name);
    }
}

} // verus!
