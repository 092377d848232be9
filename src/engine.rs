use vstd::prelude::*;
use crate::order::{Order, OrderEntry, OrderId, Price, Quantity, Revision};
use crate::id_count::lcount;
use crate::order_book::{deletion, matched, modification, LevelView, OrderBook};
use crate::trade::{now_unix_ns, Trade};

verus! {

/// A request to change the book.
#[derive(PartialEq, Eq, Structural, Clone, Copy, Debug)]
pub enum MatchingEngineCommand {
    Create(OrderEntry),
    Modify(OrderId, Revision, Option<Price>, Option<Quantity>),
    Delete(OrderId, Revision),
}

/// What subscribers are told.
#[derive(PartialEq, Eq, Structural, Clone, Copy, Debug)]
pub enum MarketEvent {
    TradeExecuted(Trade),
    OrderDeleted(Order),
    OrderModified,
    OrderCreated(Order),
}

pub open spec fn trade_events(ts: Seq<Trade>) -> Seq<MarketEvent> {
    ts.map_values(|t: Trade| MarketEvent::TradeExecuted(t))
}

/// The order that a `Create` of `entry` makes under the identifier `id`.
pub open spec fn created(entry: OrderEntry, id: OrderId) -> Order {
    Order { id, price: entry.price, quantity: entry.quantity, side: entry.side, revision: Revision(0) }
}

/// The events and the new book when `cmd` is applied to the book `(bids, asks)`, with `id` for
/// the identifier a `Create` mints and `now` for the time of its trades.
pub open spec fn command_outcome(
    bids: Seq<LevelView>,
    asks: Seq<LevelView>,
    cmd: MatchingEngineCommand,
    id: OrderId,
    now: i64,
    bids2: Seq<LevelView>,
    asks2: Seq<LevelView>,
    events: Seq<MarketEvent>,
) -> bool {
    match cmd {
        MatchingEngineCommand::Create(entry) => if lcount(bids, id) + lcount(asks, id) > 0 {
            &&& events == Seq::<MarketEvent>::empty()
            &&& bids2 == bids
            &&& asks2 == asks
        } else {
            let o = created(entry, id);
            let m = matched(bids, asks, o, now);
            &&& events == seq![MarketEvent::OrderCreated(o)] + trade_events(m.0)
            &&& bids2 == m.1
            &&& asks2 == m.2
        },
        MatchingEngineCommand::Modify(oid, rev, p, q) => exists|r: Result<Option<Vec<Trade>>, crate::order_book::OrderModificationError>|
            {
                &&& #[trigger] modification(bids, asks, oid, rev, p, q, now, bids2, asks2, r)
                &&& events == match r {
                    Err(_) => Seq::empty(),
                    Ok(None) => seq![MarketEvent::OrderModified],
                    Ok(Some(ts)) => seq![MarketEvent::OrderModified] + trade_events(ts@),
                }
            },
        MatchingEngineCommand::Delete(oid, rev) => exists|r: Result<Order, crate::order_book::OrderModificationError>|
            {
                &&& #[trigger] deletion(bids, asks, oid, rev, bids2, asks2, r)
                &&& events == match r {
                    Err(_) => Seq::empty(),
                    Ok(o) => seq![MarketEvent::OrderDeleted(o)],
                }
            },
    }
}

fn push_trades(events: &mut Vec<MarketEvent>, trades: &Vec<Trade>)
    ensures
        final(events)@ == old(events)@ + trade_events(trades@),
{
    let ghost e0 = events@;
    let mut i: usize = 0;
    while i < trades.len()
        invariant
            i <= trades@.len(),
            events@ == e0 + trade_events(trades@.take(i as int)),
        decreases trades@.len() - i,
    {
        events.push(MarketEvent::TradeExecuted(trades[i]));
        assert(trade_events(trades@.take(i + 1)) =~= trade_events(trades@.take(i as int)).push(MarketEvent::TradeExecuted(trades@[i as int])));
        i = i + 1;
    }
    assert(trades@.take(i as int) =~= trades@);
}

/// Applies one command to the book and returns the events to publish, in order: for a
/// `Create`, the new order (identifier `id`) before its trades; for an accepted `Modify`,
/// `OrderModified` before its trades; for an accepted `Delete`, the removed order. A
/// `Modify` or `Delete` of a key that does not rest changes nothing and yields no event; so
/// does a `Create` under an identifier that already rests.
pub fn apply_command_at(book: &mut OrderBook, cmd: MatchingEngineCommand, id: OrderId, now: i64) -> (events: Vec<MarketEvent>)
    requires
        old(book).wf(),
    ensures
        final(book).wf(),
        command_outcome(old(book).bids(), old(book).asks(), cmd, id, now, final(book).bids(), final(book).asks(), events@),
{
    let mut events: Vec<MarketEvent> = Vec::new();
    match cmd {
        MatchingEngineCommand::Create(entry) => {
            if book.rests(id) {
                return events;
            }
            let o = Order { id, price: entry.price, quantity: entry.quantity, side: entry.side, revision: Revision(0) };
            events.push(MarketEvent::OrderCreated(o));
            match book.match_order_at(o, now) {
                Some(trades) => push_trades(&mut events, &trades),
                None => {
                    assert(trade_events(Seq::<Trade>::empty()) =~= Seq::<MarketEvent>::empty());
                },
            }
        },
        MatchingEngineCommand::Modify(oid, rev, p, q) => {
            let r = book.modify_order_at(oid, rev, p, q, now);
            match &r {
                Ok(t) => {
                    events.push(MarketEvent::OrderModified);
                    match t {
                        Some(trades) => push_trades(&mut events, trades),
                        None => {},
                    }
                },
                Err(_) => {},
            }
            assert(events@ =~= match r {
                Err(_) => Seq::empty(),
                Ok(None) => seq![MarketEvent::OrderModified],
                Ok(Some(ts)) => seq![MarketEvent::OrderModified] + trade_events(ts@),
            });
        },
        MatchingEngineCommand::Delete(oid, rev) => {
            let r = book.delete_order(&(oid, rev));
            match r {
                Ok(o) => events.push(MarketEvent::OrderDeleted(o)),
                Err(_) => {},
            }
            assert(events@ =~= match r {
                Err(_) => Seq::empty(),
                Ok(o) => seq![MarketEvent::OrderDeleted(o)],
            });
        },
    }
    events
}

/// `apply_command_at` with a freshly minted identifier and the current time. Should the
/// random identifier already rest, the `Create` is dropped without an event.
pub fn apply_command(book: &mut OrderBook, cmd: MatchingEngineCommand) -> (events: Vec<MarketEvent>)
    requires
        old(book).wf(),
    ensures
        final(book).wf(),
        exists|id: OrderId, now: i64|
            #[trigger] command_outcome(old(book).bids(), old(book).asks(), cmd, id, now, final(book).bids(), final(book).asks(), events@),
{
    let id = OrderId::new();
    let now = now_unix_ns();
    apply_command_at(book, cmd, id, now)
}

} // verus!
