use autonomi::address::{address, ContentAddress};
use autonomi::error::Error;
use autonomi::quote::{estimate_total_cost, plan_write, select_after, select_quote, Quote};
use autonomi::tokens::AttoTokens;

fn quote(node: u64, a: ContentAddress, price: u128, expiry: u64) -> Quote {
    Quote { node, address: a, price: AttoTokens::from_atto(price), expiry }
}

#[test]
fn the_cheapest_live_quote_is_taken() {
    let a = address(b"a");
    let quotes = vec![quote(1, a, 30, 100), quote(2, a, 10, 100), quote(3, a, 20, 100)];
    assert_eq!(select_quote(&quotes, &a, 0), Some(quotes[1]));
}

#[test]
fn equal_prices_go_to_the_lower_node() {
    let a = address(b"a");
    let quotes = vec![quote(9, a, 10, 100), quote(4, a, 10, 100), quote(6, a, 10, 100)];
    assert_eq!(select_quote(&quotes, &a, 0), Some(quotes[1]));
}

#[test]
fn expired_quotes_and_quotes_for_other_addresses_are_passed_over() {
    let a = address(b"a");
    let b = address(b"b");
    let quotes = vec![quote(1, a, 1, 50), quote(2, b, 2, 100), quote(3, a, 5, 51)];
    assert_eq!(select_quote(&quotes, &a, 49), Some(quotes[0]));
    // A quote no longer stands at the time of its expiry.
    assert_eq!(select_quote(&quotes, &a, 50), Some(quotes[2]));
    assert_eq!(select_quote(&quotes, &a, 51), None);
    assert_eq!(select_quote(&quotes, &b, 51), Some(quotes[1]));
    assert_eq!(select_quote(&Vec::new(), &a, 0), None);
}

#[test]
fn of_two_identical_quotes_the_first_is_taken() {
    let a = address(b"a");
    let quotes = vec![quote(1, a, 7, 100), quote(1, a, 7, 100)];
    assert_eq!(select_after(&quotes, &a, 0, None), Some(0));
}

#[test]
fn the_next_best_quotes_come_in_order_of_preference() {
    let a = address(b"a");
    let quotes = vec![
        quote(5, a, 20, 100),
        quote(2, a, 10, 100),
        quote(7, a, 10, 100),
        quote(1, a, 30, 5),
        quote(3, a, 20, 100),
    ];
    let mut order = Vec::new();
    let mut last = None;
    while let Some(i) = select_after(&quotes, &a, 10, last) {
        order.push(i);
        last = Some(quotes[i]);
    }
    assert_eq!(order, vec![1, 2, 4, 0]);
}

#[test]
fn each_distinct_absent_address_is_charged_once() {
    let a = address(b"a");
    let b = address(b"b");
    let c = address(b"c");
    let quotes =
        vec![quote(1, a, 3, 100), quote(2, a, 2, 100), quote(1, b, 5, 100), quote(1, c, 7, 100)];
    assert_eq!(estimate_total_cost(&vec![a, b, c], &vec![], &quotes, 0), Ok(AttoTokens::from_atto(14)));
    assert_eq!(
        estimate_total_cost(&vec![a, b, a, c, b, a], &vec![], &quotes, 0),
        Ok(AttoTokens::from_atto(14))
    );
    assert_eq!(estimate_total_cost(&vec![a, b, c], &vec![b], &quotes, 0), Ok(AttoTokens::from_atto(9)));
    assert_eq!(estimate_total_cost(&vec![a, b, c], &vec![c, a, b], &quotes, 0), Ok(AttoTokens::zero()));
    assert_eq!(estimate_total_cost(&vec![], &vec![], &quotes, 0), Ok(AttoTokens::zero()));
}

#[test]
fn cost_grows_with_the_chunks() {
    let a = address(b"a");
    let b = address(b"b");
    let quotes = vec![quote(1, a, 3, 100), quote(1, b, 5, 100)];
    let first = estimate_total_cost(&vec![a], &vec![], &quotes, 0).unwrap();
    let both = estimate_total_cost(&vec![a, b], &vec![], &quotes, 0).unwrap();
    assert_eq!(first, AttoTokens::from_atto(3));
    assert_eq!(both, AttoTokens::from_atto(8));
    assert!(first.as_atto() <= both.as_atto());
}

#[test]
fn a_needed_chunk_without_a_quote_is_a_payment_error() {
    let a = address(b"a");
    let b = address(b"b");
    let quotes = vec![quote(1, a, 3, 100)];
    assert_eq!(estimate_total_cost(&vec![a, b], &vec![], &quotes, 0), Err(Error::Payment));
    assert_eq!(estimate_total_cost(&vec![a, b], &vec![b], &quotes, 0), Ok(AttoTokens::from_atto(3)));
    assert_eq!(estimate_total_cost(&vec![a], &vec![], &quotes, 100), Err(Error::Payment));
}

#[test]
fn a_sum_beyond_what_an_amount_holds_is_a_payment_error() {
    let a = address(b"a");
    let b = address(b"b");
    let quotes = vec![quote(1, a, u128::MAX, 100), quote(1, b, 1, 100)];
    assert_eq!(estimate_total_cost(&vec![a], &vec![], &quotes, 0), Ok(AttoTokens::from_atto(u128::MAX)));
    assert_eq!(estimate_total_cost(&vec![a, b], &vec![], &quotes, 0), Err(Error::Payment));
}

#[test]
fn a_plan_has_a_quote_for_each_needed_position() {
    let a = address(b"a");
    let b = address(b"b");
    let c = address(b"c");
    let quotes = vec![quote(1, a, 3, 100), quote(2, a, 2, 100), quote(1, b, 5, 100), quote(1, c, 7, 100)];
    let plan = plan_write(&vec![a, b, a, c], &vec![b], &quotes, 0).unwrap();
    assert_eq!(plan.slots, vec![Some(quotes[1]), None, None, Some(quotes[3])]);
    assert_eq!(plan.total, AttoTokens::from_atto(9));
}

#[test]
fn amounts_are_written_in_decimal() {
    assert_eq!(AttoTokens::zero().to_string(), "0");
    assert_eq!(AttoTokens::from_atto(7).to_string(), "7");
    assert_eq!(AttoTokens::from_atto(10).to_string(), "10");
    assert_eq!(AttoTokens::from_atto(1_000_000_000_000_000_000).to_string(), "1000000000000000000");
    assert_eq!(
        AttoTokens::from_atto(u128::MAX).to_string(),
        "340282366920938463463374607431768211455"
    );
}

#[test]
fn amounts_add_up_to_the_limit() {
    let a = AttoTokens::from_atto(u128::MAX - 1);
    assert_eq!(a.checked_add(AttoTokens::from_atto(1)), Some(AttoTokens::from_atto(u128::MAX)));
    assert_eq!(a.checked_add(AttoTokens::from_atto(2)), None);
    assert_eq!(AttoTokens::from_atto(2).checked_add(AttoTokens::from_atto(3)).unwrap().as_atto(), 5);
}
