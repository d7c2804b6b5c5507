//! The ledger as a plain document that can be stored and read back.

use vstd::prelude::*;

use crate::error::LedgerError;
use crate::ledger::{Participant, Transaction, User, Users};
use crate::model::LedgerView;
use crate::seqs::views;

verus! {

/// Everything a ledger holds, as plain values: the participants with their
/// totals, in order of registration, and the transactions in the order in
/// which they were recorded.
#[derive(Debug)]
pub struct Document {
    pub users: Vec<User>,
    pub transactions: Vec<Transaction>,
}

impl View for Document {
    type V = LedgerView;

    open spec fn view(&self) -> LedgerView {
        LedgerView { users: views(self.users@), transactions: views(self.transactions@) }
    }
}

impl LedgerView {
    /// The ledger written out as a document: the same participants, totals
    /// and transactions, in the same order.
    pub open spec fn persisted(self) -> LedgerView {
        self
    }

    /// What reading a document back gives: the ledger that it describes, or
    /// an error where it registers a name twice.
    pub open spec fn restored(self) -> Result<LedgerView, LedgerError> {
        if self.wf() {
            Ok(self)
        } else {
            Err(LedgerError::SerializationError)
        }
    }
}

fn copy_users(users: &Vec<User>) -> (r: Vec<User>)
    ensures
        views(r@) == views(users@),
{
    let mut r: Vec<User> = Vec::new();
    let mut i: usize = 0;
    while i < users.len()
        invariant
            i <= users.len(),
            r.len() == i,
            forall|j: int| 0 <= j < i ==> (#[trigger] r[j])@ == users[j]@,
        decreases users.len() - i,
    {
        let u = &users[i];
        r.push(User { name: u.name.clone(), amount_paid: u.amount_paid, net_balance: u.net_balance });
        i += 1;
    }
    assert(views(r@) =~= views(users@));
    r
}

fn copy_participants(participants: &Vec<Participant>) -> (r: Vec<Participant>)
    ensures
        views(r@) == views(participants@),
{
    let mut r: Vec<Participant> = Vec::new();
    let mut i: usize = 0;
    while i < participants.len()
        invariant
            i <= participants.len(),
            r.len() == i,
            forall|j: int| 0 <= j < i ==> (#[trigger] r[j])@ == participants[j]@,
        decreases participants.len() - i,
    {
        let p = &participants[i];
        r.push(Participant { name: p.name.clone(), weight: p.weight, fair_share: p.fair_share });
        i += 1;
    }
    assert(views(r@) =~= views(participants@));
    r
}

fn copy_transactions(transactions: &Vec<Transaction>) -> (r: Vec<Transaction>)
    ensures
        views(r@) == views(transactions@),
{
    let mut r: Vec<Transaction> = Vec::new();
    let mut i: usize = 0;
    while i < transactions.len()
        invariant
            i <= transactions.len(),
            r.len() == i,
            forall|j: int| 0 <= j < i ==> (#[trigger] r[j])@ == transactions[j]@,
        decreases transactions.len() - i,
    {
        let t = &transactions[i];
        r.push(Transaction { amount: t.amount, participants: copy_participants(&t.participants) });
        i += 1;
    }
    assert(views(r@) =~= views(transactions@));
    r
}

/// Whether no two of `users` have the same name.
fn distinct_names(users: &Vec<User>) -> (r: bool)
    ensures
        r == (LedgerView { users: views(users@), transactions: Seq::empty() }).wf(),
{
    let ghost l = LedgerView { users: views(users@), transactions: Seq::empty() };
    let mut i: usize = 0;
    while i < users.len()
        invariant
            i <= users.len(),
            l == (LedgerView { users: views(users@), transactions: Seq::empty() }),
            forall|a: int, b: int| 0 <= a < b < i ==> users[a].name@ != users[b].name@,
        decreases users.len() - i,
    {
        let mut j: usize = 0;
        while j < i
            invariant
                j <= i,
                i < users.len(),
                l == (LedgerView { users: views(users@), transactions: Seq::empty() }),
                forall|a: int| 0 <= a < j ==> users[a].name@ != users[i as int].name@,
            decreases i - j,
        {
            if users[j].name == users[i].name {
                assert(l.names()[j as int] == l.names()[i as int]);
                return false;
            }
            j += 1;
        }
        i += 1;
    }
    assert forall|a: int, b: int|
        0 <= a < l.names().len() && 0 <= b < l.names().len() && a != b implies l.names()[a]
        != l.names()[b] by {
        if a < b {
            assert(users[a].name@ != users[b].name@);
        } else {
            assert(users[b].name@ != users[a].name@);
        }
    }
    true
}

impl Users {
    /// The ledger as a document.
    pub fn persist(&self) -> (document: Document)
        ensures
            document@ == self@.persisted(),
    {
        proof {
            self.lemma_view();
        }
        Document {
            users: copy_users(&self.users),
            transactions: copy_transactions(&self.transactions),
        }
    }

    /// The ledger that `document` describes. A document that registers a
    /// name twice describes none.
    pub fn restore(document: Document) -> (r: Result<Users, LedgerError>)
        ensures
            match r {
                Ok(l) => l.wf() && document@.restored() == Ok::<LedgerView, LedgerError>(l@),
                Err(e) => document@.restored() == Err::<LedgerView, LedgerError>(e),
            },
    {
        if !distinct_names(&document.users) {
            assert(!document@.wf());
            return Err(LedgerError::SerializationError);
        }
        assert(document@.wf());
        let l = Users { users: document.users, transactions: document.transactions };
        proof {
            l.lemma_view();
        }
        Ok(l)
    }
}

} // verus!
