use exchange::order::{Order, OrderEntry, OrderId, Price, Quantity, Revision, Side};
use exchange::order_book::{OrderBook, OrderBookLevel, OrderModificationError};

fn rest(book: &mut OrderBook, price: i64, quantity: i64, side: Side) -> Order {
    let o = Order::from_entry(OrderEntry::new(price, quantity, side));
    assert!(book.match_order(o).is_none());
    o
}

fn side_quantities(book: &OrderBook, side: Side) -> Vec<(i64, Vec<i64>)> {
    book.side_snapshot(side)
        .into_iter()
        .map(|(p, q)| (p.0, q.iter().map(|o| o.quantity.0).collect()))
        .collect()
}

#[test]
fn top_of_book_returns_best_level() {
    let inputs = vec![
        (vec![], (None, None)),
        (vec![OrderEntry::new(15, 6, Side::Buy)], (Some(OrderBookLevel::new(15, 6)), None)),
        (
            vec![OrderEntry::new(15, 6, Side::Buy), OrderEntry::new(20, 6, Side::Sell)],
            (Some(OrderBookLevel::new(15, 6)), Some(OrderBookLevel::new(20, 6))),
        ),
        (
            vec![
                OrderEntry::new(15, 6, Side::Buy),
                OrderEntry::new(17, 6, Side::Buy),
                OrderEntry::new(20, 6, Side::Sell),
                OrderEntry::new(18, 4, Side::Sell),
            ],
            (Some(OrderBookLevel::new(17, 6)), Some(OrderBookLevel::new(18, 4))),
        ),
    ];

    for (orders, (real_best_bid, real_best_ask)) in inputs {
        let mut book = OrderBook::default();
        for o in orders {
            book.match_order(Order::from_entry(o));
        }
        let (best_bid, best_ask) = book.best_of_book();
        assert_eq!(best_bid, real_best_bid, "failed Best of Book for {real_best_bid:?} {real_best_ask:?}");
        assert_eq!(best_ask, real_best_ask);
    }
}

#[test]
fn buy_order_full_matching() {
    let test_cases = vec![
        (
            vec![OrderEntry::new(20, 6, Side::Sell), OrderEntry::new(18, 4, Side::Sell)],
            OrderEntry::new(21, 4, Side::Buy),
            vec![18],
            1,
        ),
        (
            vec![OrderEntry::new(20, 6, Side::Sell), OrderEntry::new(18, 4, Side::Sell)],
            OrderEntry::new(21, 5, Side::Buy),
            vec![18, 20],
            1,
        ),
        (
            vec![OrderEntry::new(18, 4, Side::Sell), OrderEntry::new(18, 6, Side::Sell)],
            OrderEntry::new(21, 5, Side::Buy),
            vec![18, 18],
            1,
        ),
    ];

    for (initial_orders, incoming_order, expected_prices, orders_left) in test_cases {
        let mut book = OrderBook::default();
        for order in initial_orders {
            book.match_order(Order::from_entry(order));
        }
        let trades = book.match_order(Order::from_entry(incoming_order)).expect("Expected some trades");
        assert_eq!(trades.len(), expected_prices.len(), "Number of trades does not match");
        for (trade, expected) in trades.iter().zip(expected_prices.iter()) {
            assert_eq!(trade.price, Price(*expected), "Trade price mismatch");
        }
        assert_eq!(book.ask_levels(), orders_left, "Orders are missing")
    }
}

#[test]
fn buy_order_no_matching_stays_in_book() {
    let mut book = OrderBook::default();
    let incoming_order = OrderEntry::new(10, 10, Side::Buy);
    let trades = book.match_order(Order::from_entry(incoming_order));
    assert!(trades.is_none());
    assert_eq!(book.bid_levels(), 1)
}

#[test]
fn sell_order_full_matching() {
    let test_cases = vec![
        (
            vec![OrderEntry::new(18, 4, Side::Buy), OrderEntry::new(20, 6, Side::Buy)],
            OrderEntry::new(17, 4, Side::Sell),
            vec![20],
            2,
        ),
        (
            vec![OrderEntry::new(18, 4, Side::Buy), OrderEntry::new(20, 6, Side::Buy)],
            OrderEntry::new(19, 5, Side::Sell),
            vec![20],
            2,
        ),
        (
            vec![OrderEntry::new(18, 4, Side::Buy), OrderEntry::new(18, 6, Side::Buy)],
            OrderEntry::new(17, 10, Side::Sell),
            vec![18, 18],
            0,
        ),
    ];

    for (initial_orders, incoming_order, expected_prices, orders_left) in test_cases {
        let mut book = OrderBook::default();
        for order in initial_orders {
            book.match_order(Order::from_entry(order));
        }
        let trades = book.match_order(Order::from_entry(incoming_order)).expect("Expected some trades");
        assert_eq!(trades.len(), expected_prices.len(), "Number of trades does not match");
        for (trade, expected) in trades.iter().zip(expected_prices.iter()) {
            assert_eq!(trade.price, Price(*expected), "Trade price mismatch");
        }
        assert_eq!(book.bid_levels(), orders_left, "Orders are missing");
    }
}

#[test]
fn sell_order_no_matching_stays_in_book() {
    let mut book = OrderBook::default();
    let incoming_order = OrderEntry::new(30, 10, Side::Sell);
    let trades = book.match_order(Order::from_entry(incoming_order));
    assert!(trades.is_none());
    assert_eq!(book.ask_levels(), 1, "Sell order should remain in book");
}

#[test]
fn match_results_in_maker_revision_update() {
    let mut book = OrderBook::default();
    let maker = rest(&mut book, 100, 5, Side::Sell);
    book.match_order(Order::from_entry(OrderEntry::new(100, 4, Side::Buy)));
    let o = book.get_order(maker.id, Revision(1)).expect("Order has not updated revision!");
    assert_eq!(o.quantity, Quantity(1));
    assert!(book.get_order(maker.id, Revision(0)).is_none());
}

#[test]
fn full_cross_at_maker_price() {
    let mut book = OrderBook::new();
    rest(&mut book, 18, 4, Side::Sell);
    rest(&mut book, 20, 6, Side::Sell);
    let taker = Order::from_entry(OrderEntry::new(21, 4, Side::Buy));
    let trades = book.match_order(taker).unwrap();
    assert_eq!(trades.len(), 1);
    assert_eq!((trades[0].price, trades[0].quantity), (Price(18), Quantity(4)));
    assert_eq!(trades[0].taker_id, taker.id);
    assert_eq!(side_quantities(&book, Side::Sell), vec![(20, vec![6])]);
    assert!(book.side_snapshot(Side::Buy).is_empty());
}

#[test]
fn walk_the_book() {
    let mut book = OrderBook::new();
    rest(&mut book, 18, 4, Side::Sell);
    rest(&mut book, 20, 6, Side::Sell);
    let trades = book.match_order(Order::from_entry(OrderEntry::new(21, 5, Side::Buy))).unwrap();
    let got: Vec<(i64, i64)> = trades.iter().map(|t| (t.price.0, t.quantity.0)).collect();
    assert_eq!(got, vec![(18, 4), (20, 1)]);
    assert_eq!(side_quantities(&book, Side::Sell), vec![(20, vec![5])]);
}

#[test]
fn fifo_within_a_level() {
    let mut book = OrderBook::new();
    let first = rest(&mut book, 18, 4, Side::Sell);
    let second = rest(&mut book, 18, 6, Side::Sell);
    let trades = book.match_order(Order::from_entry(OrderEntry::new(21, 5, Side::Buy))).unwrap();
    let got: Vec<(i64, i64)> = trades.iter().map(|t| (t.price.0, t.quantity.0)).collect();
    assert_eq!(got, vec![(18, 4), (18, 1)]);
    assert_eq!(trades[0].maker_id, first.id);
    assert_eq!(trades[1].maker_id, second.id);
    let snap = book.side_snapshot(Side::Sell);
    assert_eq!(snap.len(), 1);
    assert_eq!(snap[0].1[0].id, second.id);
    assert_eq!(snap[0].1[0].quantity, Quantity(5));
    assert_eq!(snap[0].1[0].revision, Revision(1));
}

#[test]
fn sell_sweeps_highest_bid_first() {
    let mut book = OrderBook::new();
    rest(&mut book, 18, 4, Side::Buy);
    rest(&mut book, 20, 6, Side::Buy);
    let trades = book.match_order(Order::from_entry(OrderEntry::new(17, 4, Side::Sell))).unwrap();
    let got: Vec<(i64, i64)> = trades.iter().map(|t| (t.price.0, t.quantity.0)).collect();
    assert_eq!(got, vec![(20, 4)]);
    assert_eq!(side_quantities(&book, Side::Buy), vec![(18, vec![4]), (20, vec![2])]);
}

#[test]
fn resting_buy_without_cross() {
    let mut book = OrderBook::new();
    assert!(book.match_order(Order::from_entry(OrderEntry::new(10, 10, Side::Buy))).is_none());
    assert_eq!(side_quantities(&book, Side::Buy), vec![(10, vec![10])]);
}

#[test]
fn fifo_two_buys_one_lot() {
    let mut book = OrderBook::new();
    let a = rest(&mut book, 50, 3, Side::Buy);
    let b = rest(&mut book, 50, 3, Side::Buy);
    let trades = book.match_order(Order::from_entry(OrderEntry::new(50, 1, Side::Sell))).unwrap();
    assert_eq!(trades.len(), 1);
    assert_eq!(trades[0].maker_id, a.id);
    let snap = book.side_snapshot(Side::Buy);
    assert_eq!(snap[0].1[0].id, a.id);
    assert_eq!(snap[0].1[0].quantity, Quantity(2));
    assert_eq!(snap[0].1[1].id, b.id);
}

#[test]
fn quantity_is_conserved() {
    let mut book = OrderBook::new();
    rest(&mut book, 10, 3, Side::Sell);
    rest(&mut book, 11, 4, Side::Sell);
    let taker = Order::from_entry(OrderEntry::new(11, 10, Side::Buy));
    let trades = book.match_order(taker).unwrap();
    let traded: i64 = trades.iter().map(|t| t.quantity.0).sum();
    assert_eq!(traded, 7);
    let residual = book.get_order(taker.id, Revision(0)).unwrap();
    assert_eq!(traded + residual.quantity.0, 10);
    assert_eq!(side_quantities(&book, Side::Buy), vec![(11, vec![3])]);
    assert!(book.side_snapshot(Side::Sell).is_empty());
}

#[test]
fn modify_to_same_price_goes_to_tail() {
    let mut book = OrderBook::new();
    let a = rest(&mut book, 30, 2, Side::Sell);
    let b = rest(&mut book, 30, 5, Side::Sell);
    let r = book.modify_order(a.id, a.revision, Some(Price(30)), None).unwrap();
    assert!(r.is_none());
    let snap = book.side_snapshot(Side::Sell);
    assert_eq!(snap.len(), 1);
    assert_eq!(snap[0].1[0].id, b.id);
    assert_eq!(snap[0].1[1].id, a.id);
    assert_eq!(snap[0].1[1].revision, Revision(1));
}

#[test]
fn modify_without_changes_keeps_revision() {
    let mut book = OrderBook::new();
    let a = rest(&mut book, 30, 2, Side::Buy);
    assert!(book.modify_order(a.id, a.revision, None, None).unwrap().is_none());
    assert_eq!(book.get_order(a.id, Revision(0)).unwrap(), a);
}

#[test]
fn modify_unknown_order_is_not_found() {
    let mut book = OrderBook::new();
    rest(&mut book, 30, 2, Side::Buy);
    let r = book.modify_order(OrderId(7), Revision(0), Some(Price(1)), None);
    assert_eq!(r, Err(OrderModificationError::OrderNotFound));
    assert_eq!(side_quantities(&book, Side::Buy), vec![(30, vec![2])]);
}

#[test]
fn modify_to_marketable_price_trades() {
    let mut book = OrderBook::new();
    let buy = rest(&mut book, 100, 10, Side::Buy);
    let sell = rest(&mut book, 120, 10, Side::Sell);
    let trades = book.modify_order(sell.id, sell.revision, Some(Price(100)), None).unwrap().unwrap();
    assert_eq!(trades.len(), 1);
    assert_eq!((trades[0].price, trades[0].quantity), (Price(100), Quantity(10)));
    assert_eq!((trades[0].maker_id, trades[0].taker_id), (buy.id, sell.id));
    assert_eq!(book.best_of_book(), (None, None));
}

#[test]
fn delete_twice_finds_nothing_the_second_time() {
    let mut book = OrderBook::new();
    let a = rest(&mut book, 40, 2, Side::Sell);
    let removed = book.delete_order(&(a.id, a.revision)).unwrap();
    assert_eq!(removed, a);
    assert!(book.side_snapshot(Side::Sell).is_empty());
    assert_eq!(book.delete_order(&(a.id, a.revision)), Err(OrderModificationError::OrderNotFound));
}

#[test]
fn delete_with_stale_revision_is_not_found() {
    let mut book = OrderBook::new();
    let a = rest(&mut book, 40, 5, Side::Sell);
    book.match_order(Order::from_entry(OrderEntry::new(40, 1, Side::Buy)));
    assert_eq!(book.delete_order(&(a.id, Revision(0))), Err(OrderModificationError::OrderNotFound));
    assert_eq!(book.delete_order(&(a.id, Revision(1))).unwrap().quantity, Quantity(4));
}

#[test]
fn add_then_delete_restores_book() {
    let mut book = OrderBook::new();
    rest(&mut book, 10, 1, Side::Buy);
    rest(&mut book, 12, 2, Side::Sell);
    let before = (side_quantities(&book, Side::Buy), side_quantities(&book, Side::Sell));
    let o = rest(&mut book, 11, 3, Side::Buy);
    book.delete_order(&(o.id, o.revision)).unwrap();
    assert_eq!((side_quantities(&book, Side::Buy), side_quantities(&book, Side::Sell)), before);
}

#[test]
fn best_of_book_sums_the_level() {
    let mut book = OrderBook::new();
    rest(&mut book, 9, 2, Side::Buy);
    rest(&mut book, 10, 3, Side::Buy);
    rest(&mut book, 10, 4, Side::Buy);
    rest(&mut book, 13, 5, Side::Sell);
    rest(&mut book, 12, 1, Side::Sell);
    rest(&mut book, 12, 6, Side::Sell);
    assert_eq!(book.best_of_book(), (Some(OrderBookLevel::new(10, 7)), Some(OrderBookLevel::new(12, 7))));
}

#[test]
fn book_is_never_crossed() {
    let mut book = OrderBook::new();
    let entries = [(10, 5, Side::Buy), (12, 3, Side::Sell), (11, 4, Side::Sell), (13, 9, Side::Buy), (9, 2, Side::Sell)];
    for (p, q, s) in entries {
        book.match_order(Order::from_entry(OrderEntry::new(p, q, s)));
        if let (Some(b), Some(a)) = book.best_of_book() {
            assert!(b.price.0 < a.price.0);
        }
    }
}

#[test]
fn non_positive_quantity_neither_trades_nor_rests() {
    let mut book = OrderBook::new();
    rest(&mut book, 10, 5, Side::Sell);
    assert!(book.match_order(Order::from_entry(OrderEntry::new(10, 0, Side::Buy))).is_none());
    assert!(book.side_snapshot(Side::Buy).is_empty());
    assert_eq!(side_quantities(&book, Side::Sell), vec![(10, vec![5])]);
}
