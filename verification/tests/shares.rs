use dangi_dongi::shares::{calculate_fair_shares, share};
use dangi_dongi::{Participant, Transaction, UNIT};

fn shares_of(t: &Transaction) -> Vec<Option<i64>> {
    t.participants.iter().map(|p| p.fair_share).collect()
}

#[test]
fn unit_is_a_million_micro_units() {
    assert_eq!(UNIT, 1_000_000);
}

#[test]
fn share_is_amount_times_weight_over_total() {
    assert_eq!(share(40 * UNIT, 2, 4), 20 * UNIT);
    assert_eq!(share(40 * UNIT, 1, 4), 10 * UNIT);
    assert_eq!(share(90, 1, 3), 30);
    assert_eq!(share(7, 7, 7), 7);
}

#[test]
fn share_by_weight_alone_is_rounded_toward_zero() {
    assert_eq!(share(100, 1, 3), 33);
    assert_eq!(share(100, 2, 3), 66);
    assert_eq!(share(-100, 1, 3), -33);
    assert_eq!(share(-100, 2, 3), -66);
    assert_eq!(share(2, 1, 3), 0);
    assert_eq!(share(-2, 1, 3), 0);
}

#[test]
fn share_of_no_weight_is_nothing() {
    assert_eq!(share(100, 0, 3), 0);
    assert_eq!(share(100, 0, 0), 0);
    assert_eq!(share(-100, 0, 0), 0);
}

#[test]
fn share_at_the_limits() {
    assert_eq!(share(i64::MAX, 255, 255), i64::MAX);
    assert_eq!(share(i64::MIN, 255, 255), i64::MIN);
    assert_eq!(share(i64::MAX, 1, 2), i64::MAX / 2);
    assert_eq!(share(i64::MIN, 1, 2), i64::MIN / 2);
    assert_eq!(share(i64::MAX, 255, u128::MAX), 0);
    assert_eq!(share(i64::MIN, 255, u128::MAX), 0);
    assert_eq!(share(i64::MAX, 255, 1u128 << 80), 0);
    // The largest amount times 128 is 128 short of two to the seventieth.
    assert_eq!(share(i64::MAX, 128, 1u128 << 70), 0);
    assert_eq!(share(i64::MAX, 128, (1u128 << 70) - 128), 1);
}

#[test]
fn fair_shares_of_two_one_one() {
    let mut t = Transaction::new(
        40 * UNIT,
        vec![Participant::new("A", 2), Participant::new("B", 1), Participant::new("C", 1)],
    );
    assert_eq!(shares_of(&t), vec![None, None, None]);
    calculate_fair_shares(&mut t);
    assert_eq!(shares_of(&t), vec![Some(20 * UNIT), Some(10 * UNIT), Some(10 * UNIT)]);
    assert_eq!(t.amount, 40 * UNIT);
    let names: Vec<&str> = t.participants.iter().map(|p| p.name.as_str()).collect();
    assert_eq!(names, vec!["A", "B", "C"]);
    let weights: Vec<u8> = t.participants.iter().map(|p| p.weight).collect();
    assert_eq!(weights, vec![2, 1, 1]);
}

#[test]
fn fair_shares_come_to_the_amount() {
    let mut t = Transaction::new(
        100,
        vec![
            Participant::new("A", 1),
            Participant::new("B", 1),
            Participant::new("C", 1),
            Participant::new("D", 4),
        ],
    );
    calculate_fair_shares(&mut t);
    // By weight alone 14, 14, 14 and 57: one is left over and goes to the first.
    assert_eq!(shares_of(&t), vec![Some(15), Some(14), Some(14), Some(57)]);
    let sum: i64 = shares_of(&t).into_iter().map(|s| s.unwrap()).sum();
    assert_eq!(sum, 100);
}

#[test]
fn fair_shares_hand_what_is_left_over_to_the_first_in_order() {
    let mut t = Transaction::new(
        20,
        vec![
            Participant::new("A", 1),
            Participant::new("B", 1),
            Participant::new("C", 1),
            Participant::new("D", 1),
            Participant::new("E", 1),
            Participant::new("F", 1),
            Participant::new("G", 1),
        ],
    );
    calculate_fair_shares(&mut t);
    let shares: Vec<i64> = shares_of(&t).into_iter().map(|s| s.unwrap()).collect();
    assert_eq!(shares, vec![3, 3, 3, 3, 3, 3, 2]);
}

#[test]
fn fair_shares_leave_out_those_without_weight() {
    let mut t = Transaction::new(
        100,
        vec![
            Participant::new("A", 0),
            Participant::new("B", 1),
            Participant::new("C", 0),
            Participant::new("D", 1),
            Participant::new("E", 1),
        ],
    );
    calculate_fair_shares(&mut t);
    assert_eq!(shares_of(&t), vec![Some(0), Some(34), Some(0), Some(33), Some(33)]);
}

#[test]
fn fair_shares_of_a_negative_amount() {
    let mut t =
        Transaction::new(-100, vec![Participant::new("A", 1), Participant::new("B", 2)]);
    calculate_fair_shares(&mut t);
    assert_eq!(shares_of(&t), vec![Some(-34), Some(-66)]);
}

#[test]
fn fair_shares_of_the_whole_amount_on_one() {
    let mut t = Transaction::new(
        i64::MIN,
        vec![Participant::new("A", 0), Participant::new("B", 7), Participant::new("C", 0)],
    );
    calculate_fair_shares(&mut t);
    assert_eq!(shares_of(&t), vec![Some(0), Some(i64::MIN), Some(0)]);
    t.amount = i64::MAX;
    calculate_fair_shares(&mut t);
    assert_eq!(shares_of(&t), vec![Some(0), Some(i64::MAX), Some(0)]);
}

#[test]
fn fair_shares_without_weight_are_nothing() {
    let mut t = Transaction::new(100, vec![Participant::new("A", 0), Participant::new("B", 0)]);
    calculate_fair_shares(&mut t);
    assert_eq!(shares_of(&t), vec![Some(0), Some(0)]);
}

#[test]
fn fair_shares_of_nobody() {
    let mut t = Transaction::new(100, vec![]);
    calculate_fair_shares(&mut t);
    assert!(t.participants.is_empty());
    assert_eq!(t.amount, 100);
}

#[test]
fn fair_shares_of_many_heavy_participants() {
    let participants = (0..1000).map(|i| Participant::new(&format!("p{}", i), 255)).collect();
    let mut t = Transaction::new(i64::MAX, participants);
    calculate_fair_shares(&mut t);
    // The largest amount ends in 807, so 807 micro-units are left over.
    let shares: Vec<i64> = shares_of(&t).into_iter().map(|s| s.unwrap()).collect();
    assert!(shares[..807].iter().all(|s| *s == i64::MAX / 1000 + 1));
    assert!(shares[807..].iter().all(|s| *s == i64::MAX / 1000));
    assert_eq!(shares.iter().map(|s| *s as i128).sum::<i128>(), i64::MAX as i128);
}
