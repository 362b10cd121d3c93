//! Core order, execution and price-level types.

use vstd::prelude::*;

verus! {

/// Which side of the book an order belongs to.
#[derive(Debug, Clone, Copy, PartialEq, Eq, Structural)]
pub enum Side {
    Buy,
    Sell,
}

/// Supported order kinds.
#[derive(Debug, Clone, Copy, PartialEq, Eq, Structural)]
pub enum OrderType {
    Limit,
    Market,
}

/// Trade execution report. `order_id`, `price` and `side` are those of the
/// resting order that was hit, so an aggressor that crosses the spread
/// receives the resting side's (better) price.
#[derive(Debug, Clone)]
pub struct Execution {
    pub order_id: u64,
    pub price: u64,
    pub quantity: u64,
    pub timestamp: u64,
    pub side: Side,
}

/// An order record.
#[derive(Debug, Clone, Copy)]
pub struct Order {
    pub order_id: u64,
    pub price: u64,
    pub quantity: u64,
    pub timestamp: u64,
    pub side: Side,
    pub kind: OrderType,
}

impl Order {
    /// Build an order stamped with the current clock reading.
    pub fn new(
        order_id: u64,
        price: u64,
        quantity: u64,
        side: Side,
        order_type: OrderType,
    ) -> (r: Self)
        ensures
            r.order_id == order_id,
            r.price == price,
            r.quantity == quantity,
            r.side == side,
            r.kind == order_type,
    {
        Order {
            order_id,
            price,
            quantity,
            timestamp: precise_time_ns(),
            side,
            kind: order_type,
        }
    }

    pub fn side(&self) -> (r: Side)
        ensures
            r == self.side,
    {
        self.side
    }

    pub fn order_type(&self) -> (r: OrderType)
        ensures
            r == self.kind,
    {
        self.kind
    }

    pub fn is_active(&self) -> (r: bool)
        ensures
            r == (self.quantity > 0),
    {
        self.quantity > 0
    }
}

/// A timestamp in nanoseconds, used only to stamp orders and executions.
/// Relies on `std::time::Instant`; the reading depends on the clock, so
/// nothing is promised of the value.
#[verifier::external_body]
pub fn precise_time_ns() -> u64 {
    std::time::Instant::now().elapsed().as_nanos() as u64
}

/// All orders resting at one price on one side of the book: a FIFO of order
/// pool handles plus the aggregate resting quantity.
#[derive(Debug)]
pub struct PriceLevel {
    pub price: u64,
    pub total_quantity: u64,
    pub order_indices: Vec<usize>,
}

impl PriceLevel {
    pub fn new(price: u64, capacity: usize) -> (r: Self)
        ensures
            r.price == price,
            r.total_quantity == 0,
            r.order_indices@ =~= Seq::<usize>::empty(),
    {
        PriceLevel { price, total_quantity: 0, order_indices: Vec::with_capacity(capacity) }
    }

    /// Append a handle at the tail of the FIFO. Always succeeds.
    pub fn add_order(&mut self, order_index: usize, quantity: u64) -> (r: bool)
        requires
            old(self).total_quantity + quantity <= u64::MAX,
        ensures
            r == true,
            final(self).price == old(self).price,
            final(self).order_indices@ == old(self).order_indices@.push(order_index),
            final(self).total_quantity == old(self).total_quantity + quantity,
    {
        self.order_indices.push(order_index);
        self.total_quantity = self.total_quantity + quantity;
        true
    }

    /// Remove a handle from the FIFO, preserving the relative order of the
    /// remaining handles, so that time priority at this price is kept.
    pub fn remove_order(&mut self, order_index: usize, quantity: u64) -> (r: bool)
        requires
            old(self).order_indices@.contains(order_index) ==> quantity
                <= old(self).total_quantity,
        ensures
            r == old(self).order_indices@.contains(order_index),
            final(self).price == old(self).price,
            r ==> {
                let p = old(self).order_indices@.index_of_first(order_index)->Some_0;
                &&& final(self).order_indices@ == old(self).order_indices@.remove(p)
                &&& final(self).total_quantity == old(self).total_quantity - quantity
            },
            !r ==> final(self).order_indices@ == old(self).order_indices@,
            !r ==> final(self).total_quantity == old(self).total_quantity,
    {
        proof {
            old(self).order_indices@.index_of_first_ensures(order_index);
        }
        let n = self.order_indices.len();
        let mut pos: usize = 0;
        while pos < n && self.order_indices[pos] != order_index
            invariant
                n == self.order_indices@.len(),
                0 <= pos <= n,
                forall|j: int| 0 <= j < pos ==> self.order_indices@[j] != order_index,
                self.order_indices@ == old(self).order_indices@,
                self.total_quantity == old(self).total_quantity,
                self.price == old(self).price,
            decreases n - pos,
        {
            pos = pos + 1;
        }
        if pos < n {
            proof {
                assert(old(self).order_indices@.contains(order_index));
                assert(old(self).order_indices@.index_of_first(order_index) == Some(pos as int));
            }
            self.order_indices.remove(pos);
            self.total_quantity = self.total_quantity - quantity;
            true
        } else {
            proof {
                assert(forall|j: int|
                    0 <= j < self.order_indices@.len() ==> self.order_indices@[j] != order_index);
            }
            false
        }
    }

    pub fn is_empty(&self) -> (r: bool)
        ensures
            r == (self.order_indices@.len() == 0),
    {
        self.order_indices.len() == 0
    }

    pub fn order_count(&self) -> (r: usize)
        ensures
            r == self.order_indices@.len(),
    {
        self.order_indices.len()
    }
}

} // verus!
