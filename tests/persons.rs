use rateio::input::{build_persons, parse_key_val, InputError, ParseError};
use rateio::money::Money;
use rateio::person::Person;

#[test]
fn named_person_is_rounded_to_cents() {
    let p = Person::named("Ana", Money(10555));
    assert_eq!(p.money_spent(), Money(10560));
    assert_eq!(p.identifier(), "Ana");
    assert_eq!(p.size(), 1);
}

#[test]
fn unnamed_group_has_label_and_spends_nothing() {
    let p = Person::unnamed(3);
    assert_eq!(p.identifier(), "Outras 3 pessoas");
    assert_eq!(p.money_spent(), Money(0));
    assert_eq!(p.size(), 3);
    assert_eq!(Person::unnamed(12).identifier(), "Outras 12 pessoas");
}

#[test]
fn identity_ignores_the_amount() {
    assert!(Person::named("A", Money(1000)) == Person::named("A", Money(2000)));
    assert!(Person::named("A", Money(1000)) != Person::named("B", Money(1000)));
    assert!(Person::unnamed(1) == Person::unnamed(4));
    assert!(Person::unnamed(1) != Person::named("A", Money(0)));
}

#[test]
fn parse_key_val_reads_name_and_amount() {
    let (name, amount) = parse_key_val("Ana Clara=100").unwrap();
    assert_eq!(name, "Ana Clara");
    assert_eq!(amount, Money(100000));
    let (name, amount) = parse_key_val("Maria=30.50").unwrap();
    assert_eq!(name, "Maria");
    assert_eq!(amount, Money(30500));
}

#[test]
fn parse_key_val_splits_at_the_first_equals_sign() {
    assert_eq!(
        parse_key_val("a=b=1"),
        Err(ParseError::InvalidNumber("b=1".to_string()))
    );
}

#[test]
fn parse_key_val_errors() {
    assert_eq!(parse_key_val("Rafael"), Err(ParseError::MissingSeparator));
    assert_eq!(
        parse_key_val("Rafael=abc"),
        Err(ParseError::InvalidNumber("abc".to_string()))
    );
}

#[test]
fn build_persons_sums_each_name_and_adds_the_rest() {
    let cs = vec![
        ("A".to_string(), Money(10000)),
        ("B".to_string(), Money(20000)),
        ("A".to_string(), Money(5004)),
    ];
    let ps = build_persons(&cs, Some(5)).unwrap();
    assert_eq!(ps.len(), 3);
    assert_eq!(ps[0].identifier(), "A");
    assert_eq!(ps[0].money_spent(), Money(15000));
    assert_eq!(ps[1].identifier(), "B");
    assert_eq!(ps[1].money_spent(), Money(20000));
    assert_eq!(ps[2].size(), 3);
    assert_eq!(ps[2].money_spent(), Money(0));
}

#[test]
fn build_persons_without_a_total_counts_contributions() {
    let cs = vec![("A".to_string(), Money(1000)), ("B".to_string(), Money(0))];
    let ps = build_persons(&cs, None).unwrap();
    assert_eq!(ps.len(), 2);
}

#[test]
fn build_persons_errors() {
    let cs = vec![("A".to_string(), Money(1000)), ("B".to_string(), Money(2000))];
    assert_eq!(
        build_persons(&cs, Some(1)),
        Err(InputError::TooManyNamed { named: 2, total: 1 })
    );
    let one = vec![("A".to_string(), Money(1000))];
    assert_eq!(build_persons(&one, None), Err(InputError::TooFewPeople));
    let big = vec![
        ("A".to_string(), Money(u64::MAX - 100)),
        ("A".to_string(), Money(1000)),
    ];
    assert_eq!(build_persons(&big, Some(3)), Err(InputError::AmountTooLarge));
    assert_eq!(
        build_persons(&one, Some(usize::MAX)),
        Err(InputError::GroupTooLarge)
    );
}
