use exchange::configuration::{AppSettings, Settings};
use exchange::engine::{apply_command, apply_command_at, MarketEvent, MatchingEngineCommand};
use exchange::order::{Order, OrderEntry, OrderId, Price, Quantity, Revision, Side};
use exchange::order_book::OrderBook;
use exchange::trade::{nanos_to_i64, now_unix_ns, Trade};

#[test]
fn test_matching_engine_broadcasts_trade() {
    let mut book = OrderBook::new();
    let buy_order = OrderEntry::new(100, 10, Side::Buy);
    let sell_order = OrderEntry::new(100, 10, Side::Sell);
    let mut events = apply_command(&mut book, MatchingEngineCommand::Create(buy_order));
    events.extend(apply_command(&mut book, MatchingEngineCommand::Create(sell_order)));

    match events[0] {
        MarketEvent::OrderCreated(order) => {
            assert_eq!(order.price, buy_order.price);
            assert_eq!(order.quantity, sell_order.quantity);
        }
        _ => panic!("Expected MarketEvent::TradeExecuted, got: {:?}", events[0]),
    }
    match events[1] {
        MarketEvent::OrderCreated(order) => {
            assert_eq!(order.price, buy_order.price);
            assert_eq!(order.quantity, sell_order.quantity);
        }
        _ => panic!("Expected MarketEvent::TradeExecuted, got: {:?}", events[1]),
    }
    match events[2] {
        MarketEvent::TradeExecuted(trade) => {
            assert_eq!(trade.price, buy_order.price);
            assert_eq!(trade.quantity, sell_order.quantity);
        }
        _ => panic!("Expected MarketEvent::TradeExecuted, got: {:?}", events[2]),
    }
    assert_eq!(events.len(), 3);
}

#[test]
fn test_matching_engine_broadcasts_trade_after_modification() {
    let mut book = OrderBook::new();
    let buy_order = OrderEntry::new(100, 10, Side::Buy);
    let sell_order = OrderEntry::new(120, 10, Side::Sell);
    apply_command(&mut book, MatchingEngineCommand::Create(buy_order));
    let second = apply_command(&mut book, MatchingEngineCommand::Create(sell_order));
    let events = match second[0] {
        MarketEvent::OrderCreated(order) => apply_command(
            &mut book,
            MatchingEngineCommand::Modify(order.id, order.revision, Some(Price(100)), None),
        ),
        _ => panic!("Expected MarketEvent::OrderCreated, got: {:?}", second[0]),
    };
    assert!(matches!(events[0], MarketEvent::OrderModified), "Expected MarketEvent::OrderModified");
    match events[1] {
        MarketEvent::TradeExecuted(trade) => {
            assert_eq!(trade.price, buy_order.price);
            assert_eq!(trade.quantity, buy_order.quantity);
        }
        _ => panic!("Expected MarketEvent::TradeExecuted, got: {:?}", events[1]),
    }
    assert_eq!(book.best_of_book(), (None, None));
}

#[test]
fn create_announces_before_trades() {
    let mut book = OrderBook::new();
    apply_command_at(&mut book, MatchingEngineCommand::Create(OrderEntry::new(5, 2, Side::Sell)), OrderId(1), 7);
    apply_command_at(&mut book, MatchingEngineCommand::Create(OrderEntry::new(6, 1, Side::Sell)), OrderId(2), 7);
    let events = apply_command_at(&mut book, MatchingEngineCommand::Create(OrderEntry::new(6, 4, Side::Buy)), OrderId(3), 9);
    let created = Order { id: OrderId(3), price: Price(6), quantity: Quantity(4), side: Side::Buy, revision: Revision(0) };
    let t1 = Trade { price: Price(5), quantity: Quantity(2), maker_id: OrderId(1), taker_id: OrderId(3), exec_time: 9 };
    let t2 = Trade { price: Price(6), quantity: Quantity(1), maker_id: OrderId(2), taker_id: OrderId(3), exec_time: 9 };
    assert_eq!(
        events,
        vec![MarketEvent::OrderCreated(created), MarketEvent::TradeExecuted(t1), MarketEvent::TradeExecuted(t2)]
    );
    let residual = book.get_order(OrderId(3), Revision(0)).unwrap();
    assert_eq!(residual.quantity, Quantity(1));
}

#[test]
fn delete_emits_once_then_nothing() {
    let mut book = OrderBook::new();
    apply_command_at(&mut book, MatchingEngineCommand::Create(OrderEntry::new(5, 2, Side::Buy)), OrderId(1), 0);
    let first = apply_command_at(&mut book, MatchingEngineCommand::Delete(OrderId(1), Revision(0)), OrderId(9), 0);
    let removed = Order { id: OrderId(1), price: Price(5), quantity: Quantity(2), side: Side::Buy, revision: Revision(0) };
    assert_eq!(first, vec![MarketEvent::OrderDeleted(removed)]);
    let second = apply_command_at(&mut book, MatchingEngineCommand::Delete(OrderId(1), Revision(0)), OrderId(9), 0);
    assert!(second.is_empty());
}

#[test]
fn modify_of_missing_order_emits_nothing() {
    let mut book = OrderBook::new();
    let events = apply_command_at(&mut book, MatchingEngineCommand::Modify(OrderId(4), Revision(0), None, Some(Quantity(3))), OrderId(9), 0);
    assert!(events.is_empty());
}

#[test]
fn modify_emits_before_trades() {
    let mut book = OrderBook::new();
    apply_command_at(&mut book, MatchingEngineCommand::Create(OrderEntry::new(100, 10, Side::Buy)), OrderId(1), 0);
    apply_command_at(&mut book, MatchingEngineCommand::Create(OrderEntry::new(120, 10, Side::Sell)), OrderId(2), 0);
    let events = apply_command_at(&mut book, MatchingEngineCommand::Modify(OrderId(2), Revision(0), Some(Price(100)), None), OrderId(9), 3);
    let t = Trade { price: Price(100), quantity: Quantity(10), maker_id: OrderId(1), taker_id: OrderId(2), exec_time: 3 };
    assert_eq!(events, vec![MarketEvent::OrderModified, MarketEvent::TradeExecuted(t)]);
}

#[test]
fn update_bumps_revision_only_on_change() {
    let mut o = Order { id: OrderId(1), price: Price(5), quantity: Quantity(2), side: Side::Buy, revision: Revision(3) };
    o.update(None, None);
    assert_eq!(o.revision, Revision(3));
    o.update(Some(Price(6)), None);
    assert_eq!((o.price, o.quantity, o.revision), (Price(6), Quantity(2), Revision(4)));
    o.update(None, Some(Quantity(9)));
    assert_eq!((o.price, o.quantity, o.revision), (Price(6), Quantity(9), Revision(5)));
}

#[test]
fn revision_increment_adds_one() {
    let mut r = Revision(41);
    r.increment();
    assert_eq!(r, Revision(42));
    assert_eq!(Revision(usize::MAX).next(), Revision(usize::MAX));
}

#[test]
fn fresh_orders_get_distinct_ids() {
    let a = Order::from_entry(OrderEntry::new(1, 1, Side::Buy));
    let b = Order::from_entry(OrderEntry::new(1, 1, Side::Buy));
    assert_ne!(a.id, b.id);
    assert_eq!(a.revision, Revision(0));
}

#[test]
fn clock_is_after_the_epoch() {
    assert!(now_unix_ns() > 1_600_000_000_000_000_000);
    let t = Trade::new(Price(3), Quantity(4), OrderId(1), OrderId(2));
    assert!(t.exec_time > 0);
    assert_eq!((t.price, t.quantity, t.maker_id, t.taker_id), (Price(3), Quantity(4), OrderId(1), OrderId(2)));
}

#[test]
fn default_address() {
    let s = Settings::default();
    assert_eq!(s.address(), "127.0.0.1:8000");
    assert_eq!(s.application.matching_buffer, 100_000);
}

#[test]
fn clock_readings_convert_to_i64() {
    assert_eq!(nanos_to_i64(Some(1_700_000_000_123_456_789)), 1_700_000_000_123_456_789);
    assert_eq!(nanos_to_i64(Some(i64::MAX as u128)), i64::MAX);
    assert_eq!(nanos_to_i64(Some(i64::MAX as u128 + 1)), i64::MAX);
    assert_eq!(nanos_to_i64(None), 0);
}

#[test]
fn create_under_a_resting_id_is_dropped() {
    let mut book = OrderBook::new();
    apply_command_at(&mut book, MatchingEngineCommand::Create(OrderEntry::new(5, 2, Side::Buy)), OrderId(1), 0);
    assert!(book.rests(OrderId(1)));
    assert!(!book.rests(OrderId(2)));
    let events = apply_command_at(&mut book, MatchingEngineCommand::Create(OrderEntry::new(4, 3, Side::Buy)), OrderId(1), 0);
    assert!(events.is_empty());
    assert_eq!(book.side_snapshot(Side::Buy).len(), 1);
}

#[test]
fn address_joins_host_and_port() {
    let s = Settings { application: AppSettings { host: "example.org".to_string(), port: 65535, matching_buffer: 1 } };
    assert_eq!(s.address(), "example.org:65535");
    let s = Settings { application: AppSettings { host: "h".to_string(), port: 0, matching_buffer: 1 } };
    assert_eq!(s.address(), "h:0");
}
