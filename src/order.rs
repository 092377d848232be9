use vstd::prelude::*;

verus! {

/// Opaque 128-bit identifier of an order, minted when the order is created.
#[derive(PartialEq, Eq, Structural, Clone, Copy, Debug, Hash)]
pub struct OrderId(pub u128);

/// Limit price in integer ticks.
#[derive(PartialEq, Eq, Structural, Clone, Copy, Debug, Hash)]
pub struct Price(pub i64);

/// Number of lots; a resting order always has a positive quantity.
#[derive(PartialEq, Eq, Structural, Clone, Copy, Debug, Hash)]
pub struct Quantity(pub i64);

/// Per-order version counter, bumped by every change of a resting order.
#[derive(PartialEq, Eq, Structural, Clone, Copy, Debug, Hash)]
pub struct Revision(pub usize);

#[derive(PartialEq, Eq, Structural, Clone, Copy, Debug, Hash)]
pub enum Side {
    Buy,
    Sell,
}

/// A resting or in-flight limit order.
#[derive(PartialEq, Eq, Structural, Clone, Copy, Debug)]
pub struct Order {
    pub id: OrderId,
    pub price: Price,
    pub quantity: Quantity,
    pub side: Side,
    pub revision: Revision,
}

/// The intent to create an order: everything but its identity.
#[derive(PartialEq, Eq, Structural, Clone, Copy, Debug)]
pub struct OrderEntry {
    pub price: Price,
    pub quantity: Quantity,
    pub side: Side,
}

/// The revision that follows `r`; the counter stays put once it reaches `usize::MAX`.
pub open spec fn next_revision(r: usize) -> usize {
    if r < usize::MAX {
        (r + 1) as usize
    } else {
        r
    }
}

/// What `Order::update` makes of an order.
pub open spec fn updated(o: Order, new_price: Option<Price>, new_quantity: Option<Quantity>) -> Order {
    if new_price is None && new_quantity is None {
        o
    } else {
        Order {
            price: match new_price {
                Some(p) => p,
                None => o.price,
            },
            quantity: match new_quantity {
                Some(q) => q,
                None => o.quantity,
            },
            revision: Revision(next_revision(o.revision.0)),
            ..o
        }
    }
}

impl OrderId {
    /// Relies on uuid::Uuid::new_v4: a random version-4 UUID, taken as its 128-bit value.
    /// Nothing is known of the value.
    #[verifier::external_body]
    pub(crate) fn new() -> (r: OrderId) {
        OrderId(uuid::Uuid::new_v4().as_u128())
    }
}

impl Revision {
    pub fn increment(&mut self)
        requires
            old(self).0 < usize::MAX,
        ensures
            final(self).0 == old(self).0 + 1,
    {
        self.0 = self.0 + 1;
    }

    /// The following revision, saturating at `usize::MAX`.
    pub fn next(self) -> (r: Revision)
        ensures
            r.0 == next_revision(self.0),
    {
        if self.0 < usize::MAX {
            Revision(self.0 + 1)
        } else {
            self
        }
    }
}

impl Order {
    /// Overwrites the price and/or the quantity; when either is given the revision moves on.
    pub fn update(&mut self, new_price: Option<Price>, new_quantity: Option<Quantity>)
        ensures
            *final(self) == updated(*old(self), new_price, new_quantity),
    {
        if new_price.is_none() && new_quantity.is_none() {
            return;
        }
        if let Some(p) = new_price {
            self.price = p;
        }
        if let Some(q) = new_quantity {
            self.quantity = q;
        }
        self.revision = self.revision.next();
    }

    /// Mints a fresh identifier for the entry; the new order starts at revision 0.
    pub fn from_entry(entry: OrderEntry) -> (r: Order)
        ensures
            r.price == entry.price,
            r.quantity == entry.quantity,
            r.side == entry.side,
            r.revision == Revision(0),
    {
        Order {
            id: OrderId::new(),
            price: entry.price,
            quantity: entry.quantity,
            side: entry.side,
            revision: Revision(0),
        }
    }
}

impl OrderEntry {
    pub fn new(price: i64, quantity: i64, side: Side) -> (r: OrderEntry)
        ensures
            r == (OrderEntry { price: Price(price), quantity: Quantity(quantity), side }),
    {
        OrderEntry { price: Price(price), quantity: Quantity(quantity), side }
    }
}

} // verus!
