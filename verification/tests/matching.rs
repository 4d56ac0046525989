use solana_dex::matching::live_orders;
use solana_dex::priority::{has_better_price, priority_order};
use solana_dex::{
    initialize, match_orders, place_order, Asset, DexState, ErrorCode, Order, OrderSide, Party,
    Pubkey, Transfer,
};

fn key(tag: u8) -> Pubkey {
    Pubkey::new([tag; 32])
}

fn order(id: u64, owner: u8, side: OrderSide, amount: u64, price: u64, fulfilled: u64) -> Order {
    Order { id, owner: key(owner), side, amount, price, fulfilled }
}

fn quote_to(receiver: u8, amount: u64) -> Transfer {
    Transfer { asset: Asset::Quote, from: Party::Custody, to: Party::User(key(receiver)), amount }
}

fn base_to(receiver: u8, amount: u64) -> Transfer {
    Transfer { asset: Asset::Base, from: Party::Custody, to: Party::User(key(receiver)), amount }
}

fn book_of(orders: Vec<Order>) -> DexState {
    let order_count = orders.iter().map(|o| o.id + 1).max().unwrap_or(0);
    DexState { authority: key(0), order_count, orders }
}

#[test]
fn empty_book_matches_nothing() {
    let mut book = initialize(key(0));
    assert_eq!(match_orders(&mut book), Ok(vec![]));
    assert!(book.orders.is_empty());
    assert_eq!(book.order_count, 0);
}

#[test]
fn one_sided_book_matches_nothing() {
    let mut book = initialize(key(0));
    place_order(&mut book, key(1), OrderSide::Buy, 10, 5).unwrap();
    place_order(&mut book, key(2), OrderSide::Buy, 10, 6).unwrap();
    let before = book.clone();
    assert_eq!(match_orders(&mut book), Ok(vec![]));
    assert_eq!(book, before);
}

#[test]
fn equal_prices_cross() {
    let mut book = initialize(key(0));
    place_order(&mut book, key(1), OrderSide::Buy, 10, 5).unwrap();
    place_order(&mut book, key(2), OrderSide::Sell, 10, 5).unwrap();
    assert_eq!(match_orders(&mut book), Ok(vec![quote_to(2, 10), base_to(1, 10)]));
    assert!(book.orders.is_empty());
}

#[test]
fn highest_bid_is_served_first() {
    let mut book = initialize(key(0));
    place_order(&mut book, key(1), OrderSide::Buy, 5, 10).unwrap();
    place_order(&mut book, key(2), OrderSide::Buy, 5, 12).unwrap();
    place_order(&mut book, key(3), OrderSide::Sell, 7, 9).unwrap();

    let legs = match_orders(&mut book).unwrap();

    assert_eq!(legs, vec![quote_to(3, 5), base_to(2, 5), quote_to(3, 2), base_to(1, 2)]);
    assert_eq!(book.orders, vec![order(0, 1, OrderSide::Buy, 5, 10, 2)]);
}

#[test]
fn lowest_ask_is_served_first() {
    let mut book = initialize(key(0));
    place_order(&mut book, key(1), OrderSide::Sell, 4, 9).unwrap();
    place_order(&mut book, key(2), OrderSide::Sell, 4, 8).unwrap();
    place_order(&mut book, key(3), OrderSide::Buy, 5, 9).unwrap();

    let legs = match_orders(&mut book).unwrap();

    assert_eq!(legs, vec![quote_to(2, 4), base_to(3, 4), quote_to(1, 1), base_to(3, 1)]);
    assert_eq!(book.orders, vec![order(0, 1, OrderSide::Sell, 4, 9, 1)]);
}

#[test]
fn older_order_wins_at_equal_price() {
    let mut book = initialize(key(0));
    place_order(&mut book, key(1), OrderSide::Buy, 5, 10).unwrap();
    place_order(&mut book, key(2), OrderSide::Buy, 5, 10).unwrap();
    place_order(&mut book, key(3), OrderSide::Sell, 6, 10).unwrap();

    let legs = match_orders(&mut book).unwrap();

    assert_eq!(legs, vec![quote_to(3, 5), base_to(1, 5), quote_to(3, 1), base_to(2, 1)]);
    assert_eq!(book.orders, vec![order(1, 2, OrderSide::Buy, 5, 10, 1)]);
}

#[test]
fn older_ask_wins_at_equal_price() {
    let mut book = initialize(key(0));
    place_order(&mut book, key(1), OrderSide::Sell, 5, 7).unwrap();
    place_order(&mut book, key(2), OrderSide::Sell, 5, 7).unwrap();
    place_order(&mut book, key(3), OrderSide::Buy, 6, 7).unwrap();

    let legs = match_orders(&mut book).unwrap();

    assert_eq!(legs, vec![quote_to(1, 5), base_to(3, 5), quote_to(2, 1), base_to(3, 1)]);
    assert_eq!(book.orders, vec![order(1, 2, OrderSide::Sell, 5, 7, 1)]);
}

#[test]
fn exhausted_bid_trades_no_further_in_the_pass() {
    let mut book = initialize(key(0));
    place_order(&mut book, key(1), OrderSide::Buy, 5, 10).unwrap();
    place_order(&mut book, key(2), OrderSide::Sell, 5, 8).unwrap();
    place_order(&mut book, key(3), OrderSide::Sell, 5, 9).unwrap();

    let legs = match_orders(&mut book).unwrap();

    assert_eq!(legs, vec![quote_to(2, 5), base_to(1, 5)]);
    assert_eq!(book.orders, vec![order(2, 3, OrderSide::Sell, 5, 9, 0)]);
}

#[test]
fn only_crossing_pairs_trade() {
    let mut book = initialize(key(0));
    place_order(&mut book, key(1), OrderSide::Buy, 10, 5).unwrap();
    place_order(&mut book, key(2), OrderSide::Buy, 10, 8).unwrap();
    place_order(&mut book, key(3), OrderSide::Sell, 30, 7).unwrap();

    let legs = match_orders(&mut book).unwrap();

    assert_eq!(legs, vec![quote_to(3, 10), base_to(2, 10)]);
    assert_eq!(
        book.orders,
        vec![order(0, 1, OrderSide::Buy, 10, 5, 0), order(2, 3, OrderSide::Sell, 30, 7, 10)]
    );
}

#[test]
fn several_bids_and_asks() {
    let mut book = initialize(key(0));
    place_order(&mut book, key(1), OrderSide::Buy, 10, 100).unwrap();
    place_order(&mut book, key(2), OrderSide::Sell, 4, 90).unwrap();
    place_order(&mut book, key(3), OrderSide::Buy, 6, 95).unwrap();
    place_order(&mut book, key(4), OrderSide::Sell, 8, 96).unwrap();
    place_order(&mut book, key(5), OrderSide::Sell, 3, 94).unwrap();

    let legs = match_orders(&mut book).unwrap();

    // asks by price: 90 (id 1), 94 (id 4), 96 (id 3); bids: 100 (id 0), 95 (id 2)
    assert_eq!(
        legs,
        vec![
            quote_to(2, 4),
            base_to(1, 4),
            quote_to(5, 3),
            base_to(1, 3),
            quote_to(4, 3),
            base_to(1, 3),
        ]
    );
    assert_eq!(
        book.orders,
        vec![order(2, 3, OrderSide::Buy, 6, 95, 0), order(3, 4, OrderSide::Sell, 8, 96, 3)]
    );
}

#[test]
fn second_pass_changes_nothing() {
    let mut book = initialize(key(0));
    place_order(&mut book, key(1), OrderSide::Buy, 100, 10).unwrap();
    place_order(&mut book, key(2), OrderSide::Sell, 60, 9).unwrap();
    place_order(&mut book, key(3), OrderSide::Sell, 10, 11).unwrap();
    assert_eq!(match_orders(&mut book).unwrap().len(), 2);
    let after_first = book.clone();

    assert_eq!(match_orders(&mut book), Ok(vec![]));
    assert_eq!(book, after_first);
    assert_eq!(match_orders(&mut book), Ok(vec![]));
    assert_eq!(book, after_first);
}

#[test]
fn fills_accumulate_over_passes_and_never_recede() {
    let mut book = initialize(key(0));
    place_order(&mut book, key(1), OrderSide::Buy, 100, 10).unwrap();
    place_order(&mut book, key(2), OrderSide::Sell, 60, 9).unwrap();
    match_orders(&mut book).unwrap();
    assert_eq!(book.orders[0].fulfilled, 60);

    place_order(&mut book, key(3), OrderSide::Sell, 25, 10).unwrap();
    let legs = match_orders(&mut book).unwrap();
    assert_eq!(legs, vec![quote_to(3, 25), base_to(1, 25)]);
    assert_eq!(book.orders, vec![order(0, 1, OrderSide::Buy, 100, 10, 85)]);

    place_order(&mut book, key(4), OrderSide::Sell, 40, 1).unwrap();
    let legs = match_orders(&mut book).unwrap();
    assert_eq!(legs, vec![quote_to(4, 15), base_to(1, 15)]);
    assert_eq!(book.orders, vec![order(3, 4, OrderSide::Sell, 40, 1, 15)]);
}

#[test]
fn largest_amounts_do_not_overflow() {
    let mut book = initialize(key(0));
    place_order(&mut book, key(1), OrderSide::Buy, u64::MAX, u64::MAX).unwrap();
    place_order(&mut book, key(2), OrderSide::Sell, u64::MAX, 1).unwrap();
    place_order(&mut book, key(3), OrderSide::Sell, u64::MAX, 2).unwrap();

    let legs = match_orders(&mut book).unwrap();

    assert_eq!(legs, vec![quote_to(2, u64::MAX), base_to(1, u64::MAX)]);
    assert_eq!(book.orders, vec![order(2, 3, OrderSide::Sell, u64::MAX, 2, 0)]);
}

#[test]
fn overdrawn_order_in_a_crossing_pair_fails_the_pass() {
    let mut book = book_of(vec![
        order(0, 1, OrderSide::Buy, 10, 9, 0),
        order(1, 2, OrderSide::Sell, 10, 5, 0),
        order(2, 3, OrderSide::Sell, 10, 8, 11),
    ]);
    let before = book.clone();
    assert_eq!(match_orders(&mut book), Err(ErrorCode::ArithmeticOverflow));
    assert_eq!(book, before);

    let mut book = book_of(vec![
        order(0, 1, OrderSide::Buy, 10, 9, 12),
        order(1, 2, OrderSide::Sell, 10, 5, 0),
    ]);
    let before = book.clone();
    assert_eq!(match_orders(&mut book), Err(ErrorCode::ArithmeticOverflow));
    assert_eq!(book, before);
}

#[test]
fn overdrawn_order_outside_every_crossing_pair_is_left_alone() {
    let mut book = book_of(vec![
        order(0, 1, OrderSide::Buy, 10, 9, 0),
        order(1, 2, OrderSide::Sell, 4, 5, 0),
        order(2, 3, OrderSide::Sell, 10, 20, 11),
    ]);
    assert_eq!(match_orders(&mut book), Ok(vec![quote_to(2, 4), base_to(1, 4)]));
    assert_eq!(
        book.orders,
        vec![order(0, 1, OrderSide::Buy, 10, 9, 4), order(2, 3, OrderSide::Sell, 10, 20, 11)]
    );
}

#[test]
fn filled_orders_are_pruned_even_without_a_trade() {
    let mut book = book_of(vec![
        order(0, 1, OrderSide::Buy, 10, 9, 10),
        order(1, 2, OrderSide::Buy, 10, 9, 3),
    ]);
    assert_eq!(match_orders(&mut book), Ok(vec![]));
    assert_eq!(book.orders, vec![order(1, 2, OrderSide::Buy, 10, 9, 3)]);
}

#[test]
fn live_orders_keeps_order_and_drops_filled() {
    let orders = vec![
        order(0, 1, OrderSide::Buy, 10, 9, 10),
        order(1, 2, OrderSide::Sell, 10, 9, 3),
        order(2, 3, OrderSide::Buy, 1, 1, 1),
        order(3, 4, OrderSide::Buy, 5, 1, 0),
    ];
    assert_eq!(
        live_orders(&orders),
        vec![order(1, 2, OrderSide::Sell, 10, 9, 3), order(3, 4, OrderSide::Buy, 5, 1, 0)]
    );
    assert_eq!(live_orders(&Vec::new()), vec![]);
}

#[test]
fn priority_order_lists_best_price_first_and_older_first_on_ties() {
    let orders = vec![
        order(0, 1, OrderSide::Buy, 1, 10, 0),
        order(1, 1, OrderSide::Sell, 1, 5, 0),
        order(2, 1, OrderSide::Buy, 1, 12, 0),
        order(3, 1, OrderSide::Buy, 1, 10, 0),
        order(4, 1, OrderSide::Sell, 1, 3, 0),
        order(5, 1, OrderSide::Sell, 1, 5, 0),
        order(6, 1, OrderSide::Buy, 1, 11, 0),
    ];
    assert_eq!(priority_order(&orders, OrderSide::Buy), vec![2, 6, 0, 3]);
    assert_eq!(priority_order(&orders, OrderSide::Sell), vec![4, 1, 5]);
    assert_eq!(priority_order(&Vec::new(), OrderSide::Buy), Vec::<usize>::new());
}

#[test]
fn better_price_is_higher_for_bids_and_lower_for_asks() {
    let cheap = order(0, 1, OrderSide::Buy, 1, 5, 0);
    let dear = order(1, 1, OrderSide::Buy, 1, 6, 0);
    assert!(has_better_price(&dear, &cheap, OrderSide::Buy));
    assert!(!has_better_price(&cheap, &dear, OrderSide::Buy));
    assert!(!has_better_price(&cheap, &cheap, OrderSide::Buy));
    assert!(has_better_price(&cheap, &dear, OrderSide::Sell));
    assert!(!has_better_price(&dear, &cheap, OrderSide::Sell));
    assert!(!has_better_price(&dear, &dear, OrderSide::Sell));
}
