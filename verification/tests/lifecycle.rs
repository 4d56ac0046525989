use solana_dex::{
    cancel_order, initialize, match_orders, place_order, Asset, DexState, ErrorCode, Order,
    OrderSide, Party, Pubkey, Transfer,
};

fn key(tag: u8) -> Pubkey {
    Pubkey::new([tag; 32])
}

fn book_with_one_bid() -> DexState {
    let mut book = initialize(key(0));
    place_order(&mut book, key(1), OrderSide::Buy, 100, 10).unwrap();
    book
}

#[test]
fn first_order_on_an_empty_book() {
    let mut book = initialize(key(0));
    assert!(book.orders.is_empty());
    assert_eq!(book.order_count, 0);
    assert_eq!(book.authority, key(0));

    let (id, deposit) = place_order(&mut book, key(1), OrderSide::Buy, 100, 10).unwrap();

    assert_eq!(id, 0);
    assert_eq!(
        book.orders,
        vec![Order {
            id: 0,
            owner: key(1),
            side: OrderSide::Buy,
            amount: 100,
            price: 10,
            fulfilled: 0
        }]
    );
    assert_eq!(book.order_count, 1);
    assert_eq!(
        deposit,
        Transfer { asset: Asset::Quote, from: Party::User(key(1)), to: Party::Custody, amount: 100 }
    );
}

#[test]
fn crossing_ask_fills_the_bid_and_is_pruned() {
    let mut book = book_with_one_bid();
    let (id, deposit) = place_order(&mut book, key(2), OrderSide::Sell, 60, 9).unwrap();
    assert_eq!(id, 1);
    assert_eq!(
        deposit,
        Transfer { asset: Asset::Base, from: Party::User(key(2)), to: Party::Custody, amount: 60 }
    );

    let legs = match_orders(&mut book).unwrap();

    assert_eq!(book.orders.len(), 1);
    let bid = book.orders[0];
    assert_eq!(bid.id, 0);
    assert_eq!(bid.fulfilled, 60);
    assert_eq!(bid.remaining(), Ok(40));
    assert_eq!(bid.amount, 100);
    assert!(book.orders.iter().all(|order| order.id != 1));
    assert_eq!(
        legs,
        vec![
            Transfer {
                asset: Asset::Quote,
                from: Party::Custody,
                to: Party::User(key(2)),
                amount: 60
            },
            Transfer {
                asset: Asset::Base,
                from: Party::Custody,
                to: Party::User(key(1)),
                amount: 60
            },
        ]
    );
    assert_eq!(book.order_count, 2);
}

#[test]
fn bid_below_ask_does_not_match() {
    let mut book = initialize(key(0));
    place_order(&mut book, key(1), OrderSide::Buy, 50, 5).unwrap();
    place_order(&mut book, key(2), OrderSide::Sell, 50, 6).unwrap();
    let before = book.clone();

    let legs = match_orders(&mut book).unwrap();

    assert!(legs.is_empty());
    assert_eq!(book, before);
    assert_eq!(book.orders.len(), 2);
    assert_eq!(book.orders[0].fulfilled, 0);
    assert_eq!(book.orders[1].fulfilled, 0);
}

#[test]
fn cancelled_order_is_refunded_and_gone_for_good() {
    let mut book = initialize(key(0));
    for n in 0..5u64 {
        let (id, _) = place_order(&mut book, key(9), OrderSide::Buy, 1 + n, 1).unwrap();
        assert_eq!(id, n);
    }
    let (id, _) = place_order(&mut book, key(1), OrderSide::Sell, 30, 4).unwrap();
    assert_eq!(id, 5);

    let refund = cancel_order(&mut book, key(1), 5).unwrap();

    assert_eq!(
        refund,
        Transfer { asset: Asset::Base, from: Party::Custody, to: Party::User(key(1)), amount: 30 }
    );
    assert!(book.orders.iter().all(|order| order.id != 5));
    assert_eq!(book.orders.len(), 5);
    assert_eq!(cancel_order(&mut book, key(1), 5), Err(ErrorCode::OrderNotFound));
    assert_eq!(book.orders.len(), 5);

    let (next, _) = place_order(&mut book, key(1), OrderSide::Sell, 30, 4).unwrap();
    assert_eq!(next, 6);
}

#[test]
fn filling_past_the_amount_is_refused() {
    let mut order = Order::new(0, key(1), OrderSide::Buy, 10, 3);
    assert_eq!(order.fill(10), Ok(()));
    assert_eq!(order.fulfilled, 10);
    assert!(order.is_filled());

    assert_eq!(order.fill(1), Err(ErrorCode::ArithmeticOverflow));
    assert_eq!(order.fulfilled, 10);
    assert_eq!(order.fill(10), Err(ErrorCode::ArithmeticOverflow));
    assert_eq!(order.fulfilled, 10);
}

#[test]
fn second_match_of_the_same_quantity_is_refused() {
    let mut order = Order::new(3, key(1), OrderSide::Sell, 10, 3);
    assert_eq!(order.fill(6), Ok(()));
    assert_eq!(order.fill(6), Err(ErrorCode::ArithmeticOverflow));
    assert_eq!(order.fulfilled, 6);
    assert_eq!(order.remaining(), Ok(4));
    assert_eq!(order.fill(4), Ok(()));
    assert_eq!(order.fulfilled, 10);
}
