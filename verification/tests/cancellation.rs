use solana_dex::{
    cancel_order, initialize, match_orders, place_order, Asset, DexState, ErrorCode, Order,
    OrderSide, Party, Pubkey, Transfer,
};

fn key(tag: u8) -> Pubkey {
    Pubkey::new([tag; 32])
}

#[test]
fn stranger_cannot_cancel() {
    let mut book = initialize(key(0));
    place_order(&mut book, key(1), OrderSide::Buy, 30, 2).unwrap();
    let before = book.clone();

    assert_eq!(cancel_order(&mut book, key(2), 0), Err(ErrorCode::OrderNotFound));
    assert_eq!(book, before);
    assert_eq!(cancel_order(&mut book, key(0), 0), Err(ErrorCode::OrderNotFound));
    assert_eq!(book, before);
}

#[test]
fn keys_that_differ_in_one_byte_are_different_identities() {
    let mut owner = [7u8; 32];
    let mut other = owner;
    other[31] = 8;
    let mut book = initialize(key(0));
    place_order(&mut book, Pubkey::new(owner), OrderSide::Buy, 30, 2).unwrap();

    assert_eq!(cancel_order(&mut book, Pubkey::new(other), 0), Err(ErrorCode::OrderNotFound));
    other[31] = 7;
    other[0] = 6;
    assert_eq!(cancel_order(&mut book, Pubkey::new(other), 0), Err(ErrorCode::OrderNotFound));
    owner[0] = 7;
    assert!(cancel_order(&mut book, Pubkey::new(owner), 0).is_ok());
}

#[test]
fn unknown_id_is_not_found() {
    let mut book = initialize(key(0));
    assert_eq!(cancel_order(&mut book, key(1), 0), Err(ErrorCode::OrderNotFound));
    place_order(&mut book, key(1), OrderSide::Buy, 30, 2).unwrap();
    assert_eq!(cancel_order(&mut book, key(1), 1), Err(ErrorCode::OrderNotFound));
    assert_eq!(book.orders.len(), 1);
}

#[test]
fn cancellation_keeps_the_other_orders_in_place() {
    let mut book = initialize(key(0));
    for n in 0..4u8 {
        place_order(&mut book, key(n), OrderSide::Sell, 10 + n as u64, 100).unwrap();
    }
    let refund = cancel_order(&mut book, key(1), 1).unwrap();
    assert_eq!(refund.amount, 11);
    let ids: Vec<u64> = book.orders.iter().map(|order| order.id).collect();
    assert_eq!(ids, vec![0, 2, 3]);
    assert_eq!(book.order_count, 4);
}

#[test]
fn only_the_unfilled_part_is_refunded() {
    let mut book = initialize(key(0));
    place_order(&mut book, key(1), OrderSide::Buy, 100, 10).unwrap();
    place_order(&mut book, key(2), OrderSide::Sell, 60, 9).unwrap();
    match_orders(&mut book).unwrap();

    let refund = cancel_order(&mut book, key(1), 0).unwrap();

    assert_eq!(
        refund,
        Transfer { asset: Asset::Quote, from: Party::Custody, to: Party::User(key(1)), amount: 40 }
    );
    assert!(book.orders.is_empty());
}

#[test]
fn overdrawn_order_cannot_be_cancelled() {
    let mut book = DexState {
        authority: key(0),
        order_count: 1,
        orders: vec![Order {
            id: 0,
            owner: key(1),
            side: OrderSide::Buy,
            amount: 10,
            price: 1,
            fulfilled: 11,
        }],
    };
    let before = book.clone();
    assert_eq!(cancel_order(&mut book, key(1), 0), Err(ErrorCode::ArithmeticOverflow));
    assert_eq!(book, before);
}

#[test]
fn filled_order_awaiting_pruning_refunds_nothing() {
    let mut book = DexState {
        authority: key(0),
        order_count: 1,
        orders: vec![Order {
            id: 0,
            owner: key(1),
            side: OrderSide::Sell,
            amount: 10,
            price: 1,
            fulfilled: 10,
        }],
    };
    let refund = cancel_order(&mut book, key(1), 0).unwrap();
    assert_eq!(refund.amount, 0);
    assert_eq!(refund.asset, Asset::Base);
    assert!(book.orders.is_empty());
}
