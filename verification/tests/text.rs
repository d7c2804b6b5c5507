use dangi_dongi::text::{push_decimal, push_money};
use dangi_dongi::Transfer;

fn decimal(n: u128) -> String {
    let mut s = String::new();
    push_decimal(&mut s, n);
    s
}

fn money(units: u128) -> String {
    let mut s = String::new();
    push_money(&mut s, units);
    s
}

#[test]
fn decimal_digits() {
    assert_eq!(decimal(0), "0");
    assert_eq!(decimal(7), "7");
    assert_eq!(decimal(10), "10");
    assert_eq!(decimal(1234567890), "1234567890");
    assert_eq!(decimal(u128::MAX), "340282366920938463463374607431768211455");
}

#[test]
fn decimal_is_appended() {
    let mut s = String::from("n=");
    push_decimal(&mut s, 42);
    assert_eq!(s, "n=42");
}

#[test]
fn money_has_two_decimal_places() {
    assert_eq!(money(0), "0.00");
    assert_eq!(money(30_000_000), "30.00");
    assert_eq!(money(7_500_000), "7.50");
    assert_eq!(money(1_230_000), "1.23");
    assert_eq!(money(50_000), "0.05");
    assert_eq!(money(123_456_780_000), "123456.78");
}

#[test]
fn money_rounds_to_the_nearest_hundredth() {
    assert_eq!(money(4_999), "0.00");
    assert_eq!(money(5_000), "0.01");
    assert_eq!(money(14_999), "0.01");
    assert_eq!(money(15_000), "0.02");
    assert_eq!(money(33_333_333), "33.33");
    assert_eq!(money(66_666_667), "66.67");
    assert_eq!(money(999_995_000), "1000.00");
    assert_eq!(money(1), "0.00");
}

#[test]
fn money_of_the_largest_amount() {
    assert_eq!(money(u128::MAX), "340282366920938463463374607431768.21");
}

#[test]
fn transfer_in_words() {
    let t = Transfer { debtor: "Bob".to_string(), creditor: "Alice".to_string(), amount: 12_345_678 };
    assert_eq!(t.describe(), "Bob should pay Alice 12.35");
}

#[test]
fn transfer_in_words_keeps_names_as_they_are() {
    let t = Transfer { debtor: "".to_string(), creditor: "a b".to_string(), amount: 0 };
    assert_eq!(t.describe(), " should pay a b 0.00");
}
