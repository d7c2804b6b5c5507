use dangi_dongi::{Document, LedgerError, Participant, Transaction, User, Users};

const UNIT: i64 = 1_000_000;

fn sample() -> Users {
    let mut users = Users::new();
    for name in ["A", "B", "C"] {
        assert_eq!(users.add_user(name.to_string()), Ok(()));
    }
    assert_eq!(users.record_payment("A", 60 * UNIT), Ok(()));
    let draft = Transaction::new(
        30 * UNIT,
        vec![Participant::new("A", 2), Participant::new("B", 1), Participant::new("C", 1)],
    );
    assert_eq!(users.record_weighted_payment("C", draft), Ok(()));
    assert!(users.compute_settlement().is_ok());
    users
}

fn flat(doc: &Document) -> (Vec<(String, i64, i128)>, Vec<(i64, Vec<(String, u8, Option<i64>)>)>) {
    (
        doc.users.iter().map(|u| (u.name.clone(), u.amount_paid, u.net_balance)).collect(),
        doc.transactions
            .iter()
            .map(|t| {
                (
                    t.amount,
                    t.participants.iter().map(|p| (p.name.clone(), p.weight, p.fair_share)).collect(),
                )
            })
            .collect(),
    )
}

#[test]
fn persist_copies_everything() {
    let users = sample();
    let (us, ts) = flat(&users.persist());
    assert_eq!(
        us,
        vec![
            ("A".to_string(), 60 * UNIT, 25 * UNIT as i128),
            ("B".to_string(), 0, -27_500_000),
            ("C".to_string(), 30 * UNIT, 2_500_000),
        ]
    );
    assert_eq!(ts.len(), 2);
    assert_eq!(ts[0].0, 60 * UNIT);
    assert_eq!(
        ts[1],
        (
            30 * UNIT,
            vec![
                ("A".to_string(), 2, Some(15 * UNIT)),
                ("B".to_string(), 1, Some(7_500_000)),
                ("C".to_string(), 1, Some(7_500_000)),
            ]
        )
    );
}

#[test]
fn restore_of_persist_is_the_same_ledger() {
    let users = sample();
    let before = flat(&users.persist());
    let restored = Users::restore(users.persist()).unwrap();
    assert_eq!(flat(&restored.persist()), before);
    assert_eq!(restored.list_users(), users.list_users());
}

#[test]
fn restored_ledger_goes_on_working() {
    let mut restored = Users::restore(sample().persist()).unwrap();
    assert_eq!(restored.add_user("A".to_string()), Err(LedgerError::DuplicateParticipant));
    assert_eq!(
        restored.calculate_total_payments(),
        Ok(vec!["B should pay A 25.00".to_string(), "B should pay C 2.50".to_string()])
    );
}

#[test]
fn restore_of_an_empty_document() {
    let restored = Users::restore(Document { users: vec![], transactions: vec![] }).unwrap();
    assert!(restored.list_users().is_empty());
}

#[test]
fn restore_refuses_a_name_registered_twice() {
    let user = |name: &str| User { name: name.to_string(), amount_paid: 0, net_balance: 0 };
    let doc = Document { users: vec![user("A"), user("B"), user("A")], transactions: vec![] };
    assert_eq!(Users::restore(doc).err(), Some(LedgerError::SerializationError));
    let doc = Document { users: vec![user("A"), user("A")], transactions: vec![] };
    assert_eq!(Users::restore(doc).err(), Some(LedgerError::SerializationError));
}

#[test]
fn restore_takes_transactions_as_they_are() {
    let user = |name: &str| User { name: name.to_string(), amount_paid: 0, net_balance: 7 };
    let mut p = Participant::new("Z", 3);
    p.fair_share = Some(5 * UNIT);
    let doc = Document {
        users: vec![user("A"), user("B")],
        transactions: vec![Transaction::new(9 * UNIT, vec![p, Participant::new("A", 1)])],
    };
    let mut restored = Users::restore(doc).unwrap();
    let (us, ts) = flat(&restored.persist());
    assert_eq!(us, vec![("A".to_string(), 0, 7), ("B".to_string(), 0, 7)]);
    assert_eq!(
        ts,
        vec![(9 * UNIT, vec![("Z".to_string(), 3, Some(5 * UNIT)), ("A".to_string(), 1, None)])]
    );
    // An entry without a share charges nothing, and so does a name that is
    // not registered.
    assert_eq!(restored.compute_settlement(), Ok(vec![]));
    let (us, _) = flat(&restored.persist());
    assert_eq!(us, vec![("A".to_string(), 0, 0), ("B".to_string(), 0, 0)]);
}
