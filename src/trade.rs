use vstd::prelude::*;
use crate::order::{OrderId, Price, Quantity};

verus! {

/// One execution between a resting maker and an incoming taker.
#[derive(PartialEq, Eq, Structural, Clone, Copy, Debug)]
pub struct Trade {
    pub price: Price,
    pub quantity: Quantity,
    pub maker_id: OrderId,
    pub taker_id: OrderId,
    /// Nanoseconds since the Unix epoch.
    pub exec_time: i64,
}

/// Relies on std::time::SystemTime::elapsed on `UNIX_EPOCH`: the time since the epoch,
/// in nanoseconds, or `None` when the clock stands before it. Nothing is known of the value.
#[verifier::external_body]
fn nanos_since_epoch() -> (r: Option<u128>) {
    std::time::UNIX_EPOCH.elapsed().ok().map(|d| d.as_nanos())
}

/// A clock reading in nanoseconds since the Unix epoch as an `i64`: 0 for a clock before the
/// epoch, `i64::MAX` past the end of the range of `i64`.
pub fn nanos_to_i64(n: Option<u128>) -> (r: i64)
    ensures
        r == match n {
            Some(v) => if v <= i64::MAX as u128 {
                v as i64
            } else {
                i64::MAX
            },
            None => 0,
        },
{
    match n {
        Some(n) => {
            if n <= i64::MAX as u128 {
                n as i64
            } else {
                i64::MAX
            }
        },
        None => 0,
    }
}

/// The wall clock in nanoseconds since the Unix epoch, as `nanos_to_i64` reads it.
pub fn now_unix_ns() -> (r: i64)
    ensures
        r >= 0,
{
    nanos_to_i64(nanos_since_epoch())
}

impl Trade {
    /// A trade stamped with the current time.
    pub fn new(price: Price, quantity: Quantity, maker_id: OrderId, taker_id: OrderId) -> (r: Trade)
        ensures
            r.price == price,
            r.quantity == quantity,
            r.maker_id == maker_id,
            r.taker_id == taker_id,
            r.exec_time >= 0,
    {
        Trade { price, quantity, maker_id, taker_id, exec_time: now_unix_ns() }
    }
}

} // verus!
