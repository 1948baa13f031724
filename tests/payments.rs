use std::collections::HashSet;

use rateio::money::Money;
use rateio::payment::{Payment, Payments};
use rateio::person::Person;
use rateio::settle::settle_balances;
use rateio::solver::{gen_payments, within_limits};

fn money(text: &str) -> Money {
    Money::parse(text).unwrap()
}

fn as_set(payments: Vec<Payment>) -> HashSet<(String, String, u64)> {
    payments
        .iter()
        .map(|p| (p.from.identifier(), p.to.identifier(), p.value.0))
        .collect()
}

fn four_people(a: u32, b: u32, c: u32) -> Vec<Person> {
    vec![
        Person::named("A", Money::from(a)),
        Person::named("B", Money::from(b)),
        Person::named("C", Money::from(c)),
        Person::unnamed(1),
    ]
}

#[test]
fn simplify_bidirectional_edges() {
    let persons = four_people(10, 20, 10);

    let mut initial_payments: Payments = gen_payments(&persons);

    let final_payments = vec![
        Payment::new(&persons[0], &persons[1], money("2.5")),
        Payment::new(&persons[2], &persons[1], money("2.5")),
        Payment::new(&persons[3], &persons[0], money("2.5")),
        Payment::new(&persons[3], &persons[2], money("2.5")),
        Payment::new(&persons[3], &persons[1], Money::from(5u32)),
    ];

    initial_payments.simplify_bidirectional_edges();
    let left = as_set(initial_payments.to_vec());
    let right = as_set(final_payments);

    assert_eq!(left, right);
    assert!(initial_payments.validate());
}

#[test]
fn simplify_transitive_edges() {
    let persons = four_people(14, 20, 8);

    let mut initial_payments: Payments = gen_payments(&persons);

    let final_payments = vec![
        Payment::new(&persons[2], &persons[1], money("2.5")),
        Payment::new(&persons[3], &persons[1], Money::from(7u32)),
        Payment::new(&persons[3], &persons[0], money("3.5")),
    ];

    initial_payments.simplify_bidirectional_edges();
    initial_payments.simplify_transitive_edges();
    let left = as_set(initial_payments.to_vec());
    let right = as_set(final_payments);

    assert_eq!(left, right);
    assert!(initial_payments.validate());
}

#[test]
fn construction_owes_each_spender_its_per_head_part() {
    let persons = four_people(10, 20, 10);
    let graph = gen_payments(&persons);
    let all = as_set(graph.to_vec());
    assert_eq!(all.len(), 9);
    assert!(all.contains(&("B".to_string(), "A".to_string(), 2500)));
    assert!(all.contains(&("A".to_string(), "B".to_string(), 5000)));
    assert!(all.contains(&("Outras 1 pessoas".to_string(), "B".to_string(), 5000)));
    assert!(graph.validate());
    let ids: Vec<String> = graph.get_persons().iter().map(|p| p.identifier()).collect();
    assert_eq!(ids, vec!["A", "B", "C", "Outras 1 pessoas"]);
}

#[test]
fn construction_multiplies_by_group_size() {
    let persons = vec![Person::named("A", Money::from(30u32)), Person::unnamed(2)];
    let graph = gen_payments(&persons);
    let all = as_set(graph.to_vec());
    let expected: HashSet<(String, String, u64)> =
        [("Outras 2 pessoas".to_string(), "A".to_string(), 20000)].into_iter().collect();
    assert_eq!(all, expected);
}

#[test]
fn cancellation_keeps_only_the_difference() {
    let a = Person::named("A", Money(0));
    let b = Person::named("B", Money(0));
    let mut graph = Payments::new(&[
        Payment::new(&a, &b, Money::from(10u32)),
        Payment::new(&b, &a, Money::from(7u32)),
    ]);
    graph.simplify_bidirectional_edges();
    let expected: HashSet<(String, String, u64)> =
        [("A".to_string(), "B".to_string(), 3000)].into_iter().collect();
    assert_eq!(as_set(graph.to_vec()), expected);
}

#[test]
fn cancellation_of_equal_debts_removes_both() {
    let a = Person::named("A", Money(0));
    let b = Person::named("B", Money(0));
    let mut graph = Payments::new(&[
        Payment::new(&a, &b, Money::from(4u32)),
        Payment::new(&b, &a, Money::from(4u32)),
    ]);
    graph.simplify_bidirectional_edges();
    assert!(graph.to_vec().is_empty());
}

#[test]
fn transitive_collapse_moves_the_debt_onto_a_shortcut() {
    let a = Person::named("A", Money(0));
    let b = Person::named("B", Money(0));
    let c = Person::named("C", Money(0));
    let mut graph = Payments::new(&[
        Payment::new(&a, &b, Money::from(5u32)),
        Payment::new(&b, &c, Money::from(5u32)),
    ]);
    graph.simplify_transitive_edges();
    let expected: HashSet<(String, String, u64)> =
        [("A".to_string(), "C".to_string(), 5000)].into_iter().collect();
    assert_eq!(as_set(graph.to_vec()), expected);
}

#[test]
fn new_merges_transfers_between_the_same_pair() {
    let a = Person::named("A", Money(0));
    let b = Person::named("B", Money(0));
    let graph = Payments::new(&[
        Payment::new(&a, &b, Money(1000)),
        Payment::new(&a, &b, Money(2500)),
        Payment::new(&a, &a, Money(700)),
        Payment::new(&b, &a, Money(0)),
    ]);
    let expected: HashSet<(String, String, u64)> =
        [("A".to_string(), "B".to_string(), 3500)].into_iter().collect();
    assert_eq!(as_set(graph.to_vec()), expected);
    assert_eq!(graph.get_persons().len(), 2);
}

#[test]
fn zero_sum_example() {
    let persons = four_people(10, 20, 10);
    let mut graph = gen_payments(&persons);
    graph.simplify_bidirectional_edges();
    let all = graph.to_vec();
    let anonymous_paid: u64 = all
        .iter()
        .filter(|p| p.from.identifier() == "Outras 1 pessoas")
        .map(|p| p.value.0)
        .sum();
    assert_eq!(anonymous_paid, 10000);
    assert!(all.iter().any(|p| p.from.identifier() == "A" && p.to.identifier() == "B"));
    assert!(all.iter().any(|p| p.from.identifier() == "C" && p.to.identifier() == "B"));
    let b_in: u64 = all.iter().filter(|p| p.to.identifier() == "B").map(|p| p.value.0).sum();
    let b_out: u64 = all.iter().filter(|p| p.from.identifier() == "B").map(|p| p.value.0).sum();
    // B spent 20 and ends at the fair share of 10.
    assert_eq!(20000 + b_out - b_in, 10000);
    assert!(graph.validate());

    let mut optimized = gen_payments(&persons);
    optimized.optimize();
    let all = optimized.to_vec();
    let anonymous_paid: u64 = all
        .iter()
        .filter(|p| p.from.identifier() == "Outras 1 pessoas")
        .map(|p| p.value.0)
        .sum();
    assert_eq!(anonymous_paid, 10000);
    assert!(optimized.validate());
}

#[test]
fn optimization_is_idempotent() {
    let persons = four_people(14, 20, 8);
    let mut graph = gen_payments(&persons);
    graph.optimize();
    let once = as_set(graph.to_vec());
    graph.optimize();
    assert_eq!(as_set(graph.to_vec()), once);
    assert!(graph.validate());
}

#[test]
fn optimization_keeps_everyone_within_tolerance() {
    let persons = vec![
        Person::named("A", money("33.33")),
        Person::named("B", money("0.01")),
        Person::named("C", money("100")),
        Person::named("D", money("7.77")),
        Person::unnamed(3),
    ];
    assert!(within_limits(&persons));
    let mut graph = gen_payments(&persons);
    assert!(graph.validate());
    let before = graph.to_vec().len();
    graph.optimize();
    assert!(graph.validate());
    let after = graph.to_vec();
    assert!(after.len() <= before);
    assert!(after.len() <= 4);
    for p in &after {
        assert!(p.value.0 >= 10);
    }
}

#[test]
fn net_out_keeps_everyone_within_tolerance() {
    let persons = four_people(14, 20, 8);
    let mut graph = gen_payments(&persons);
    graph.net_out();
    assert!(graph.validate());
    let all = graph.to_vec();
    for p in &all {
        assert!(!all.iter().any(|q| q.from.identifier() == p.to.identifier()));
    }
}

#[test]
fn validate_rejects_a_lopsided_graph() {
    let a = Person::named("A", Money::from(10u32));
    let b = Person::named("B", Money(0));
    let graph = Payments::new(&[Payment::new(&b, &a, Money::from(9u32))]);
    assert!(!graph.validate());
    let fair = Payments::new(&[Payment::new(&b, &a, Money::from(5u32))]);
    assert!(fair.validate());
}

#[test]
fn greedy_settlement_uses_fewer_transfers_than_participants() {
    let balances: Vec<i128> = vec![-30000, -10000, 15000, 25000];
    let ts = settle_balances(&balances);
    assert!(ts.len() <= 3);
    let mut rest = balances.clone();
    for &(d, c, amount) in &ts {
        assert!(balances[d] < 0 && balances[c] > 0);
        rest[d] += amount as i128;
        rest[c] -= amount as i128;
    }
    assert!(rest.iter().all(|r| *r == 0));
    assert_eq!(ts[0], (0, 3, 25000));
}

#[test]
fn greedy_settlement_leaves_no_dust() {
    assert!(settle_balances(&[-5, 5]).is_empty());
    assert!(settle_balances(&[-10, 3, 7]).is_empty());
    let ts = settle_balances(&[-10005, 10008]);
    assert_eq!(ts, vec![(0, 1, 10010)]);
    let ts = settle_balances(&[-3333, -3333, 6666]);
    assert_eq!(ts.len(), 2);
    for &(_, _, amount) in &ts {
        assert!(amount >= 10 && amount % 10 == 0);
    }
}

#[test]
fn within_limits_refuses_empty_blocs_and_huge_sums() {
    assert!(within_limits(&four_people(1, 2, 3)));
    assert!(!within_limits(&[Person::Unnamed { size: 0 }]));
    assert!(!within_limits(&[
        Person::named("A", Money(u64::MAX - 10)),
        Person::unnamed(10)
    ]));
}

#[test]
fn payments_compare_by_identity_and_amount() {
    let a = Person::named("A", Money(1000));
    let b = Person::named("B", Money(0));
    assert_eq!(Payment::new(&a, &b, Money(5)), Payment::new(&a, &b, Money(5)));
    assert_ne!(Payment::new(&a, &b, Money(5)), Payment::new(&b, &a, Money(5)));
    assert_ne!(Payment::new(&a, &b, Money(5)), Payment::new(&a, &b, Money(6)));
}

#[test]
fn flows_give_each_participants_totals() {
    let persons = four_people(10, 20, 10);
    let mut graph = gen_payments(&persons);
    graph.simplify_bidirectional_edges();
    let (owed, owing) = graph.flows();
    assert_eq!(owed, vec![2500, 10000, 2500, 0]);
    assert_eq!(owing, vec![2500, 0, 2500, 10000]);
}

#[test]
fn greedy_settlement_pairs_largest_debtor_with_largest_creditor() {
    let ts = settle_balances(&[-2000, -5000, 3000, 4000]);
    assert_eq!(ts[0], (1, 3, 4000));
    assert_eq!(ts[1], (0, 2, 2000));
    assert_eq!(ts[2], (1, 2, 1000));
    // equal positions: the lowest index goes first
    let ts = settle_balances(&[-1000, -1000, 2000]);
    assert_eq!(ts, vec![(0, 2, 1000), (1, 2, 1000)]);
}

#[test]
fn transitive_collapse_leaves_a_graph_without_chains_alone() {
    let a = Person::named("A", Money(0));
    let b = Person::named("B", Money(0));
    let c = Person::named("C", Money(0));
    let mut graph = Payments::new(&[
        Payment::new(&a, &b, Money(5000)),
        Payment::new(&c, &b, Money(3000)),
    ]);
    let before = as_set(graph.to_vec());
    graph.simplify_transitive_edges();
    assert_eq!(as_set(graph.to_vec()), before);
}

#[test]
fn optimization_resettles_a_graph_that_is_already_settled() {
    let d1 = Person::named("D1", Money(0));
    let d2 = Person::named("D2", Money(0));
    let c1 = Person::named("C1", Money::from(10u32));
    let c2 = Person::named("C2", Money::from(10u32));
    let mut graph = Payments::new(&[
        Payment::new(&d1, &c1, money("2.5")),
        Payment::new(&d1, &c2, money("2.5")),
        Payment::new(&d2, &c1, money("2.5")),
        Payment::new(&d2, &c2, money("2.5")),
    ]);
    assert!(graph.validate());
    graph.optimize();
    let expected: HashSet<(String, String, u64)> = [
        ("D1".to_string(), "C1".to_string(), 5000),
        ("D2".to_string(), "C2".to_string(), 5000),
    ]
    .into_iter()
    .collect();
    assert_eq!(as_set(graph.to_vec()), expected);
    assert!(graph.validate());
}

#[test]
fn optimization_drops_dust_below_a_cent() {
    let persons = vec![Person::named("A", money("0.01")), Person::named("B", Money(0))];
    let mut graph = gen_payments(&persons);
    assert_eq!(graph.to_vec().len(), 1);
    graph.optimize();
    assert!(graph.to_vec().is_empty());
    assert!(graph.validate());
}

#[test]
fn named_rounds_halves_to_even_cents() {
    assert_eq!(Person::named("A", money("10.545")).money_spent(), Money(10540));
    assert_eq!(Person::named("A", money("10.555")).money_spent(), Money(10560));
    assert_eq!(Person::named("A", money("10.546")).money_spent(), Money(10550));
}
