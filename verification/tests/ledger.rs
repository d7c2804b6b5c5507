use dangi_dongi::{LedgerError, Participant, Transaction, Users};

const UNIT: i64 = 1_000_000;

fn group(names: &[&str]) -> Users {
    let mut users = Users::new();
    for name in names {
        assert_eq!(users.add_user(name.to_string()), Ok(()));
    }
    users
}

fn paid(users: &Users, name: &str) -> i64 {
    let doc = users.persist();
    doc.users.iter().find(|u| u.name == name).map(|u| u.amount_paid).unwrap()
}

fn shares_of_last(users: &Users) -> Vec<(String, u8, Option<i64>)> {
    let doc = users.persist();
    let last = doc.transactions.last().unwrap();
    last.participants.iter().map(|p| (p.name.clone(), p.weight, p.fair_share)).collect()
}

#[test]
fn new_ledger_is_empty() {
    let users = Users::new();
    assert!(users.list_users().is_empty());
    let doc = users.persist();
    assert!(doc.users.is_empty());
    assert!(doc.transactions.is_empty());
}

#[test]
fn add_user_registers_with_zero_totals() {
    let users = group(&["A"]);
    let doc = users.persist();
    assert_eq!(doc.users.len(), 1);
    assert_eq!(doc.users[0].name, "A");
    assert_eq!(doc.users[0].amount_paid, 0);
    assert_eq!(doc.users[0].net_balance, 0);
}

#[test]
fn add_user_twice_keeps_the_name_once() {
    let mut users = group(&["A", "B"]);
    assert_eq!(users.add_user("A".to_string()), Err(LedgerError::DuplicateParticipant));
    assert_eq!(users.add_user("A".to_string()), Err(LedgerError::DuplicateParticipant));
    let names = users.list_users();
    assert_eq!(names, vec!["A".to_string(), "B".to_string()]);
    assert_eq!(names.iter().filter(|n| n.as_str() == "A").count(), 1);
}

#[test]
fn add_user_rejected_leaves_totals_alone() {
    let mut users = group(&["A", "B"]);
    assert_eq!(users.record_payment("A", 10 * UNIT), Ok(()));
    assert_eq!(users.add_user("A".to_string()), Err(LedgerError::DuplicateParticipant));
    assert_eq!(paid(&users, "A"), 10 * UNIT);
    assert_eq!(users.persist().transactions.len(), 1);
}

#[test]
fn names_are_case_sensitive() {
    let mut users = group(&["alice"]);
    assert_eq!(users.add_user("Alice".to_string()), Ok(()));
    assert_eq!(users.list_users(), vec!["alice".to_string(), "Alice".to_string()]);
}

#[test]
fn list_users_keeps_order_of_registration() {
    let users = group(&["C", "A", "B"]);
    assert_eq!(users.list_users(), vec!["C".to_string(), "A".to_string(), "B".to_string()]);
}

#[test]
fn remove_user_strikes_the_name() {
    let mut users = group(&["A", "B", "C"]);
    assert_eq!(users.remove_user("B".to_string()), Ok(()));
    assert_eq!(users.list_users(), vec!["A".to_string(), "C".to_string()]);
}

#[test]
fn remove_user_unknown_is_reported() {
    let mut users = group(&["A"]);
    assert_eq!(users.remove_user("Z".to_string()), Err(LedgerError::ParticipantNotFound));
    assert_eq!(users.list_users(), vec!["A".to_string()]);
}

#[test]
fn removed_name_can_be_registered_again() {
    let mut users = group(&["A", "B"]);
    assert_eq!(users.record_payment("A", 10 * UNIT), Ok(()));
    assert_eq!(users.remove_user("A".to_string()), Ok(()));
    assert_eq!(users.add_user("A".to_string()), Ok(()));
    assert_eq!(users.list_users(), vec!["B".to_string(), "A".to_string()]);
    assert_eq!(paid(&users, "A"), 0);
}

#[test]
fn remove_user_keeps_the_transactions() {
    let mut users = group(&["A", "B"]);
    assert_eq!(users.record_payment("A", 10 * UNIT), Ok(()));
    assert_eq!(users.remove_user("B".to_string()), Ok(()));
    let doc = users.persist();
    assert_eq!(doc.transactions.len(), 1);
    assert_eq!(doc.transactions[0].participants.len(), 2);
    assert_eq!(doc.transactions[0].participants[1].name, "B");
}

#[test]
fn record_payment_splits_in_equal_parts() {
    let mut users = group(&["A", "B", "C"]);
    assert_eq!(users.record_payment("A", 60 * UNIT), Ok(()));
    assert_eq!(paid(&users, "A"), 60 * UNIT);
    assert_eq!(paid(&users, "B"), 0);
    assert_eq!(
        shares_of_last(&users),
        vec![
            ("A".to_string(), 1, Some(20 * UNIT)),
            ("B".to_string(), 1, Some(20 * UNIT)),
            ("C".to_string(), 1, Some(20 * UNIT)),
        ]
    );
    assert_eq!(users.persist().transactions[0].amount, 60 * UNIT);
}

#[test]
fn record_payment_shares_out_to_the_last_micro_unit() {
    let mut users = group(&["A", "B", "C"]);
    assert_eq!(users.record_payment("A", 100 * UNIT), Ok(()));
    let shares: Vec<Option<i64>> = shares_of_last(&users).into_iter().map(|s| s.2).collect();
    assert_eq!(shares, vec![Some(33_333_334), Some(33_333_333), Some(33_333_333)]);
}

#[test]
fn record_payment_of_two_hundredths_among_three() {
    let mut users = group(&["A", "B", "C"]);
    assert_eq!(users.record_payment("A", 20_000), Ok(()));
    let shares: Vec<i64> = shares_of_last(&users).into_iter().map(|s| s.2.unwrap()).collect();
    assert_eq!(shares, vec![6_667, 6_667, 6_666]);
    assert_eq!(shares.iter().sum::<i64>(), 20_000);
}

#[test]
fn record_payment_of_a_negative_amount() {
    let mut users = group(&["A", "B", "C"]);
    assert_eq!(users.record_payment("A", -100), Ok(()));
    assert_eq!(paid(&users, "A"), -100);
    let shares: Vec<Option<i64>> = shares_of_last(&users).into_iter().map(|s| s.2).collect();
    assert_eq!(shares, vec![Some(-34), Some(-33), Some(-33)]);
}

#[test]
fn record_payment_adds_up() {
    let mut users = group(&["A", "B"]);
    assert_eq!(users.record_payment("A", 10 * UNIT), Ok(()));
    assert_eq!(users.record_payment("A", 5 * UNIT), Ok(()));
    assert_eq!(users.record_payment("B", 7 * UNIT), Ok(()));
    assert_eq!(paid(&users, "A"), 15 * UNIT);
    assert_eq!(paid(&users, "B"), 7 * UNIT);
    assert_eq!(users.persist().transactions.len(), 3);
}

#[test]
fn record_payment_unknown_payer_changes_nothing() {
    let mut users = group(&["A", "B"]);
    assert_eq!(users.record_payment("Z", 10 * UNIT), Err(LedgerError::ParticipantNotFound));
    assert_eq!(paid(&users, "A"), 0);
    assert!(users.persist().transactions.is_empty());
}

#[test]
fn record_payment_on_empty_ledger() {
    let mut users = Users::new();
    assert_eq!(users.record_payment("A", 10), Err(LedgerError::ParticipantNotFound));
}

#[test]
fn record_payment_out_of_range_changes_nothing() {
    let mut users = group(&["A", "B"]);
    assert_eq!(users.record_payment("A", i64::MAX), Ok(()));
    assert_eq!(users.record_payment("A", 1), Err(LedgerError::AmountOutOfRange));
    assert_eq!(paid(&users, "A"), i64::MAX);
    assert_eq!(users.persist().transactions.len(), 1);
}

#[test]
fn weighted_payment_two_one_one() {
    let mut users = group(&["A", "B", "C"]);
    let draft = Transaction::new(
        40 * UNIT,
        vec![Participant::new("A", 2), Participant::new("B", 1), Participant::new("C", 1)],
    );
    assert_eq!(users.record_weighted_payment("A", draft), Ok(()));
    assert_eq!(
        shares_of_last(&users),
        vec![
            ("A".to_string(), 2, Some(20 * UNIT)),
            ("B".to_string(), 1, Some(10 * UNIT)),
            ("C".to_string(), 1, Some(10 * UNIT)),
        ]
    );
    assert_eq!(paid(&users, "A"), 40 * UNIT);
}

#[test]
fn weighted_payment_in_another_order() {
    let mut users = group(&["A", "B", "C"]);
    let draft = Transaction::new(
        40 * UNIT,
        vec![Participant::new("C", 1), Participant::new("A", 2), Participant::new("B", 1)],
    );
    assert_eq!(users.record_weighted_payment("B", draft), Ok(()));
    assert_eq!(
        shares_of_last(&users),
        vec![
            ("C".to_string(), 1, Some(10 * UNIT)),
            ("A".to_string(), 2, Some(20 * UNIT)),
            ("B".to_string(), 1, Some(10 * UNIT)),
        ]
    );
    assert_eq!(paid(&users, "B"), 40 * UNIT);
}

#[test]
fn weighted_payment_with_a_weight_of_zero() {
    let mut users = group(&["A", "B", "C"]);
    let draft = Transaction::new(
        50 * UNIT,
        vec![Participant::new("A", 0), Participant::new("B", 3), Participant::new("C", 2)],
    );
    assert_eq!(users.record_weighted_payment("A", draft), Ok(()));
    let shares: Vec<Option<i64>> = shares_of_last(&users).into_iter().map(|s| s.2).collect();
    assert_eq!(shares, vec![Some(0), Some(30 * UNIT), Some(20 * UNIT)]);
}

#[test]
fn weighted_payment_that_omits_a_name() {
    let mut users = group(&["A", "B", "C"]);
    let draft =
        Transaction::new(40 * UNIT, vec![Participant::new("A", 2), Participant::new("B", 1)]);
    assert_eq!(users.record_weighted_payment("A", draft), Err(LedgerError::InvalidParticipantSet));
    assert_eq!(paid(&users, "A"), 0);
    assert!(users.persist().transactions.is_empty());
}

#[test]
fn weighted_payment_that_adds_a_name() {
    let mut users = group(&["A", "B"]);
    let draft = Transaction::new(
        40 * UNIT,
        vec![Participant::new("A", 2), Participant::new("B", 1), Participant::new("C", 1)],
    );
    assert_eq!(users.record_weighted_payment("A", draft), Err(LedgerError::InvalidParticipantSet));
    assert_eq!(paid(&users, "A"), 0);
    assert!(users.persist().transactions.is_empty());
}

#[test]
fn weighted_payment_that_swaps_a_name() {
    let mut users = group(&["A", "B", "C"]);
    let draft = Transaction::new(
        40 * UNIT,
        vec![Participant::new("A", 2), Participant::new("B", 1), Participant::new("D", 1)],
    );
    assert_eq!(users.record_weighted_payment("A", draft), Err(LedgerError::InvalidParticipantSet));
    assert!(users.persist().transactions.is_empty());
}

#[test]
fn weighted_payment_that_names_someone_twice() {
    let mut users = group(&["A", "B", "C"]);
    let draft = Transaction::new(
        40 * UNIT,
        vec![Participant::new("A", 2), Participant::new("A", 1), Participant::new("B", 1)],
    );
    assert_eq!(users.record_weighted_payment("A", draft), Err(LedgerError::InvalidParticipantSet));
    assert!(users.persist().transactions.is_empty());
}

#[test]
fn weighted_payment_without_any_weight() {
    let mut users = group(&["A", "B"]);
    let draft =
        Transaction::new(40 * UNIT, vec![Participant::new("A", 0), Participant::new("B", 0)]);
    assert_eq!(users.record_weighted_payment("A", draft), Err(LedgerError::InvalidParticipantSet));
    assert_eq!(paid(&users, "A"), 0);
}

#[test]
fn weighted_payment_unknown_payer() {
    let mut users = group(&["A", "B"]);
    let draft =
        Transaction::new(40 * UNIT, vec![Participant::new("A", 1), Participant::new("B", 1)]);
    assert_eq!(users.record_weighted_payment("Z", draft), Err(LedgerError::ParticipantNotFound));
    assert!(users.persist().transactions.is_empty());
}

#[test]
fn weighted_payment_checks_the_split_before_the_payer() {
    let mut users = group(&["A", "B"]);
    let draft = Transaction::new(40 * UNIT, vec![Participant::new("A", 1)]);
    assert_eq!(users.record_weighted_payment("Z", draft), Err(LedgerError::InvalidParticipantSet));
}

#[test]
fn weighted_payment_out_of_range() {
    let mut users = group(&["A", "B"]);
    assert_eq!(users.record_payment("A", i64::MAX), Ok(()));
    let draft = Transaction::new(1, vec![Participant::new("A", 1), Participant::new("B", 1)]);
    assert_eq!(users.record_weighted_payment("A", draft), Err(LedgerError::AmountOutOfRange));
    assert_eq!(users.persist().transactions.len(), 1);
}

#[test]
fn weighted_payment_overwrites_shares_of_the_draft() {
    let mut users = group(&["A", "B"]);
    let mut a = Participant::new("A", 1);
    a.fair_share = Some(999);
    let draft = Transaction::new(10 * UNIT, vec![a, Participant::new("B", 1)]);
    assert_eq!(users.record_weighted_payment("A", draft), Ok(()));
    let shares: Vec<Option<i64>> = shares_of_last(&users).into_iter().map(|s| s.2).collect();
    assert_eq!(shares, vec![Some(5 * UNIT), Some(5 * UNIT)]);
}

#[test]
fn remove_payment_takes_the_amount_back() {
    let mut users = group(&["A", "B"]);
    assert_eq!(users.record_payment("A", 10 * UNIT), Ok(()));
    assert_eq!(users.remove_payment("A", 4 * UNIT), Ok(false));
    assert_eq!(paid(&users, "A"), 6 * UNIT);
    assert_eq!(users.persist().transactions.len(), 1);
}

#[test]
fn remove_payment_down_to_zero_is_no_correction() {
    let mut users = group(&["A", "B"]);
    assert_eq!(users.record_payment("A", 10 * UNIT), Ok(()));
    assert_eq!(users.remove_payment("A", 10 * UNIT), Ok(false));
    assert_eq!(paid(&users, "A"), 0);
}

#[test]
fn remove_payment_never_goes_below_zero() {
    let mut users = group(&["A", "B"]);
    assert_eq!(users.record_payment("A", 10 * UNIT), Ok(()));
    assert_eq!(users.remove_payment("A", 11 * UNIT), Ok(true));
    assert_eq!(paid(&users, "A"), 0);
}

#[test]
fn remove_payment_unknown_payer() {
    let mut users = group(&["A", "B"]);
    assert_eq!(users.remove_payment("Z", 1), Err(LedgerError::ParticipantNotFound));
}

#[test]
fn remove_payment_out_of_range() {
    let mut users = group(&["A", "B"]);
    assert_eq!(users.record_payment("A", 10), Ok(()));
    assert_eq!(users.remove_payment("A", i64::MIN), Err(LedgerError::AmountOutOfRange));
    assert_eq!(paid(&users, "A"), 10);
    assert_eq!(users.remove_payment("A", -5), Ok(false));
    assert_eq!(paid(&users, "A"), 15);
}

#[test]
fn remove_transaction_by_place() {
    let mut users = group(&["A", "B"]);
    assert_eq!(users.record_payment("A", 10 * UNIT), Ok(()));
    assert_eq!(users.record_payment("B", 20 * UNIT), Ok(()));
    assert_eq!(users.record_payment("A", 30 * UNIT), Ok(()));
    assert_eq!(users.remove_transaction_by_index(1), Ok(()));
    let doc = users.persist();
    let amounts: Vec<i64> = doc.transactions.iter().map(|t| t.amount).collect();
    assert_eq!(amounts, vec![10 * UNIT, 30 * UNIT]);
    assert_eq!(paid(&users, "B"), 20 * UNIT);
}

#[test]
fn remove_transaction_out_of_range() {
    let mut users = group(&["A", "B"]);
    assert_eq!(users.record_payment("A", 10 * UNIT), Ok(()));
    assert_eq!(users.remove_transaction_by_index(1), Err(LedgerError::IndexOutOfRange));
    assert_eq!(users.remove_transaction_by_index(usize::MAX), Err(LedgerError::IndexOutOfRange));
    assert_eq!(users.persist().transactions.len(), 1);
}

#[test]
fn remove_transaction_on_empty_ledger() {
    let mut users = Users::new();
    assert_eq!(users.remove_transaction_by_index(0), Err(LedgerError::IndexOutOfRange));
}

#[test]
fn settle_up_resets_totals_and_forgets_transactions() {
    let mut users = group(&["A", "B", "C"]);
    assert_eq!(users.record_payment("A", 60 * UNIT), Ok(()));
    assert!(users.compute_settlement().is_ok());
    users.settle_up();
    let doc = users.persist();
    assert!(doc.transactions.is_empty());
    assert_eq!(doc.users.len(), 3);
    for u in &doc.users {
        assert_eq!(u.amount_paid, 0);
        assert_eq!(u.net_balance, 0);
    }
    assert_eq!(users.list_users(), vec!["A".to_string(), "B".to_string(), "C".to_string()]);
}

#[test]
fn amount_paid_and_net_balance_by_name() {
    let mut users = group(&["A", "B"]);
    assert_eq!(users.amount_paid("A"), Some(0));
    assert_eq!(users.net_balance("A"), Some(0));
    assert_eq!(users.amount_paid("Z"), None);
    assert_eq!(users.net_balance("Z"), None);
    assert_eq!(users.record_payment("B", 10 * UNIT), Ok(()));
    assert_eq!(users.amount_paid("A"), Some(0));
    assert_eq!(users.amount_paid("B"), Some(10 * UNIT));
    assert_eq!(users.net_balance("B"), Some(0));
    assert!(users.compute_settlement().is_ok());
    assert_eq!(users.net_balance("A"), Some(-5_000_000));
    assert_eq!(users.net_balance("B"), Some(5_000_000));
}

#[test]
fn transactions_in_order_of_recording() {
    let mut users = group(&["A", "B"]);
    assert!(users.transactions().is_empty());
    assert_eq!(users.record_payment("A", 10 * UNIT), Ok(()));
    assert_eq!(users.record_payment("B", 20 * UNIT), Ok(()));
    let amounts: Vec<i64> = users.transactions().iter().map(|t| t.amount).collect();
    assert_eq!(amounts, vec![10 * UNIT, 20 * UNIT]);
    assert_eq!(users.transactions()[1].participants[0].fair_share, Some(10 * UNIT));
}

#[test]
fn equal_payment_is_a_weighted_payment_with_weights_of_one() {
    let mut equal = group(&["A", "B", "C"]);
    let mut weighted = group(&["A", "B", "C"]);
    assert_eq!(equal.record_payment("B", 100 * UNIT), Ok(()));
    let draft = Transaction::new(
        100 * UNIT,
        vec![Participant::new("A", 1), Participant::new("B", 1), Participant::new("C", 1)],
    );
    assert_eq!(weighted.record_weighted_payment("B", draft), Ok(()));
    assert_eq!(shares_of_last(&equal), shares_of_last(&weighted));
    assert_eq!(paid(&equal, "B"), paid(&weighted, "B"));
}
