use vstd::prelude::*;

verus! {

/// Which side of the book an order belongs to.
#[derive(Clone, Copy, Debug, PartialEq, Eq, Hash, Structural)]
pub enum Side {
    /// A bid: willing to buy at or below the limit price.
    Buy,
    /// An ask: willing to sell at or above the limit price.
    Sell,
}

/// A limit order: identity, instrument, side, limit price in minimal tick
/// units, remaining quantity, and an arrival marker. The quantity field is
/// decremented as the order fills; an order with zero remaining quantity is
/// never stored in a book.
#[derive(Clone, Debug)]
pub struct Order {
    pub order_id: u64,
    pub symbol: String,
    pub side: Side,
    pub price: u64,
    pub quantity: u64,
    pub timestamp: u64,
}

/// An immutable record of one fill event. The price is the resting (maker)
/// order's price, never the aggressor's.
#[derive(Debug)]
pub struct Trade {
    pub buy_order_id: u64,
    pub sell_order_id: u64,
    pub symbol: String,
    pub price: u64,
    pub quantity: u64,
}

impl Clone for Trade {
    /// A clone is equal to the original, field for field.
    fn clone(&self) -> (r: Trade)
        ensures
            r == *self,
    {
        Trade {
            buy_order_id: self.buy_order_id,
            sell_order_id: self.sell_order_id,
            symbol: self.symbol.clone(),
            price: self.price,
            quantity: self.quantity,
        }
    }
}

/// Monotonic generator for order ids and arrival timestamps. The caller owns
/// one of these and stamps each order before submission; the book itself
/// holds no id state and never verifies uniqueness beyond its precondition.
pub struct IdGen {
    pub next_order_id: u64,
    pub next_timestamp: u64,
}

impl IdGen {
    pub fn new() -> (g: IdGen)
        ensures
            g.next_order_id == 1000,
            g.next_timestamp == 1_700_000_000_000u64,
    {
        IdGen { next_order_id: 1000, next_timestamp: 1_700_000_000_000 }
    }

    /// Hands out the next order id and advances the counter by one.
    pub fn generate_order_id(&mut self) -> (id: u64)
        requires
            old(self).next_order_id < u64::MAX,
        ensures
            id == old(self).next_order_id,
            final(self).next_order_id == old(self).next_order_id + 1,
            final(self).next_timestamp == old(self).next_timestamp,
    {
        let id = self.next_order_id;
        self.next_order_id = self.next_order_id + 1;
        id
    }

    /// Hands out the next timestamp (in milliseconds) and advances it by ten.
    pub fn generate_timestamp(&mut self) -> (ts: u64)
        requires
            old(self).next_timestamp <= u64::MAX - 10,
        ensures
            ts == old(self).next_timestamp,
            final(self).next_timestamp == old(self).next_timestamp + 10,
            final(self).next_order_id == old(self).next_order_id,
    {
        let ts = self.next_timestamp;
        self.next_timestamp = self.next_timestamp + 10;
        ts
    }
}

} // verus!
