use vstd::prelude::*;

verus! {

/// Which side of the book an order belongs to.
#[derive(Clone, Copy, Debug, PartialEq, Eq, Structural)]
pub enum Side {
    Buy,
    Sell,
}

impl Side {
    pub open spec fn spec_opposite(self) -> Side {
        if self is Buy {
            Side::Sell
        } else {
            Side::Buy
        }
    }

    /// The contra side: the side an incoming order matches against.
    pub fn opposite(self) -> (r: Side)
        ensures
            r == self.spec_opposite(),
    {
        match self {
            Side::Buy => Side::Sell,
            Side::Sell => Side::Buy,
        }
    }
}

/// The two supported order types.
#[derive(Clone, Copy, Debug, PartialEq, Eq, Structural)]
pub enum OrderType {
    Limit,
    Market,
}

/// A resting order. Prices are integer ticks and quantities integer lots;
/// `quantity` is the remaining tradable amount, decremented on partial fills.
/// `arrival_sequence` is the admission counter that price-time priority uses.
#[derive(Clone, Copy, Debug, PartialEq, Eq, Structural)]
pub struct LimitOrder {
    pub order_id: u64,
    pub side: Side,
    pub price: u64,
    pub quantity: u64,
    pub arrival_sequence: u64,
}

/// An inbound order event, before validation. `price` must be present
/// exactly for Limit orders, with a positive tick value.
#[derive(Clone, Copy, Debug)]
pub struct OrderRequest {
    pub order_id: u64,
    pub side: Side,
    pub order_type: OrderType,
    pub price: Option<u64>,
    pub quantity: u64,
}

/// One match between an incoming (aggressor) order and a resting order.
/// The trade executes at the resting order's price. `sequence` is the
/// engine's monotonically increasing event counter.
#[derive(Clone, Copy, Debug, PartialEq, Eq, Structural)]
pub struct Trade {
    pub price: u64,
    pub quantity: u64,
    pub aggressor_order_id: u64,
    pub resting_order_id: u64,
    pub sequence: u64,
}

/// Validation and lookup failures. All are local: a failed call leaves the
/// book exactly as it was.
#[derive(Clone, Copy, Debug, PartialEq, Eq, Structural)]
pub enum OrderError {
    InvalidQuantity,
    InvalidPrice,
    DuplicateOrderId,
    OrderNotFound,
    UnfillableMarketOrder,
}

/// Terminal state of an admitted order: rested on the book, fully filled,
/// or (for a Market order with remaining quantity and no contra liquidity)
/// discarded after any partial fills.
#[derive(Clone, Copy, Debug, PartialEq, Eq, Structural)]
pub enum OrderOutcome {
    Rested,
    FullyFilled,
    Discarded,
}

/// Holds of every order stored in a level with price `price` on side `side`.
pub open spec fn level_order_ok(price: u64, side: Side, o: LimitOrder) -> bool {
    &&& o.price == price
    &&& o.quantity > 0
    &&& o.side == side
}

/// A price plus the FIFO queue of resting orders at that price.
pub struct PriceLevel {
    pub price: u64,
    pub orders: Vec<LimitOrder>,
}

impl View for PriceLevel {
    type V = Seq<LimitOrder>;

    open spec fn view(&self) -> Seq<LimitOrder> {
        self.orders@
    }
}

impl Clone for PriceLevel {
    fn clone(&self) -> (r: Self)
        ensures
            r.price == self.price,
            r.orders@ == self.orders@,
    {
        let mut orders: Vec<LimitOrder> = Vec::new();
        let mut j: usize = 0;
        while j < self.orders.len()
            invariant
                j <= self.orders@.len(),
                orders@.len() == j,
                forall|k: int| 0 <= k < j ==> orders@[k] == self.orders@[k],
            decreases self.orders@.len() - j,
        {
            orders.push(self.orders[j]);
            j += 1;
        }
        proof {
            assert(orders@ =~= self.orders@);
        }
        PriceLevel { price: self.price, orders }
    }
}

impl PriceLevel {
    /// A fresh, empty level at `price`. Levels are created lazily on the
    /// first resting order at a price.
    pub fn new(price: u64) -> (r: PriceLevel)
        ensures
            r.price == price,
            r@ == Seq::<LimitOrder>::empty(),
    {
        PriceLevel { price, orders: Vec::new() }
    }

    pub fn is_empty(&self) -> (r: bool)
        ensures
            r == (self@.len() == 0),
    {
        self.orders.len() == 0
    }

    pub fn len(&self) -> (r: usize)
        ensures
            r == self@.len(),
    {
        self.orders.len()
    }

    /// Appends a newly resting order at the back of the queue.
    pub fn push_back(&mut self, order: LimitOrder)
        ensures
            final(self).price == old(self).price,
            final(self)@ == old(self)@.push(order),
    {
        self.orders.push(order);
    }

    /// Removes and returns the earliest resting order; used while matching.
    pub fn pop_front(&mut self) -> (r: LimitOrder)
        requires
            old(self)@.len() > 0,
        ensures
            r == old(self)@[0],
            final(self).price == old(self).price,
            final(self)@ == old(self)@.skip(1),
    {
        let r = self.orders.remove(0);
        proof {
            assert(self@ =~= old(self)@.skip(1));
        }
        r
    }

    /// Removes the resting order with `order_id`, if present, for an
    /// out-of-order cancellation; returns it.
    pub fn remove(&mut self, order_id: u64) -> (r: Option<LimitOrder>)
        ensures
            (exists|j: int| 0 <= j < old(self)@.len() && old(self)@[j].order_id == order_id)
                ==> (exists|j: int|
                    0 <= j < old(self)@.len() && old(self)@[j].order_id == order_id
                    && r == Some(old(self)@[j])
                    && final(self)@ == old(self)@.remove(j)),
            !(exists|j: int| 0 <= j < old(self)@.len() && old(self)@[j].order_id == order_id)
                ==> (r == None::<LimitOrder> && final(self)@ == old(self)@),
            final(self).price == old(self).price,
    {
        let mut j: usize = 0;
        while j < self.orders.len()
            invariant
                j <= self.orders@.len(),
                self == old(self),
                forall|k: int| 0 <= k < j ==> self.orders@[k].order_id != order_id,
            decreases self.orders@.len() - j,
        {
            if self.orders[j].order_id == order_id {
                let o = self.orders.remove(j);
                return Some(o);
            }
            j += 1;
        }
        None
    }
}

} // verus!
