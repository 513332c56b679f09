//! Orders: one unit of trading intent each.

use crate::error::EngineError;
use vstd::prelude::*;

verus! {

/// The side of an order: an ask sells, a bid buys.
#[derive(Debug, Copy, Clone, PartialEq, Eq, Structural)]
pub enum BidOrAsk {
    Ask,
    Bid,
}

impl BidOrAsk {
    /// The side that orders of this side trade against.
    pub open spec fn spec_opposite(self) -> BidOrAsk {
        match self {
            BidOrAsk::Ask => BidOrAsk::Bid,
            BidOrAsk::Bid => BidOrAsk::Ask,
        }
    }

    /// The side that orders of this side trade against.
    #[verifier::when_used_as_spec(spec_opposite)]
    pub fn opposite(self) -> (r: BidOrAsk)
        ensures
            r == self.spec_opposite(),
    {
        match self {
            BidOrAsk::Ask => BidOrAsk::Bid,
            BidOrAsk::Bid => BidOrAsk::Ask,
        }
    }
}

/// An order: its identity, its side and the size still unfilled.
#[derive(Debug, Copy, Clone)]
pub struct Order {
    id: u64,
    bid_or_ask: BidOrAsk,
    size: u64,
}

/// The mathematical content of an [`Order`].
pub struct OrderView {
    pub id: u64,
    pub bid_or_ask: BidOrAsk,
    pub size: nat,
}

impl View for Order {
    type V = OrderView;

    closed spec fn view(&self) -> OrderView {
        OrderView { id: self.id, bid_or_ask: self.bid_or_ask, size: self.size as nat }
    }
}

impl Order {
    /// An order of `size` units on the given side, with identifier 0.
    /// A size of zero is rejected.
    pub fn new(bid_or_ask: BidOrAsk, size: u64) -> (r: Result<Order, EngineError>)
        ensures
            size == 0 ==> r == Err::<Order, EngineError>(EngineError::InvalidOrder),
            size > 0 ==> r is Ok && r->Ok_0@ == (OrderView { id: 0, bid_or_ask, size: size as nat }),
    {
        Order::with_id(0, bid_or_ask, size)
    }

    /// An order of `size` units on the given side that fills and
    /// cancellations name by `id`. A size of zero is rejected.
    pub fn with_id(id: u64, bid_or_ask: BidOrAsk, size: u64) -> (r: Result<Order, EngineError>)
        ensures
            size == 0 ==> r == Err::<Order, EngineError>(EngineError::InvalidOrder),
            size > 0 ==> r is Ok && r->Ok_0@ == (OrderView { id, bid_or_ask, size: size as nat }),
    {
        if size == 0 {
            Err(EngineError::InvalidOrder)
        } else {
            Ok(Order { id, bid_or_ask, size })
        }
    }

    /// The order's identifier.
    pub fn id(&self) -> (r: u64)
        ensures
            r == self@.id,
    {
        self.id
    }

    /// The order's side.
    pub fn bid_or_ask(&self) -> (r: BidOrAsk)
        ensures
            r == self@.bid_or_ask,
    {
        self.bid_or_ask
    }

    /// The size still unfilled.
    pub fn size(&self) -> (r: u64)
        ensures
            r == self@.size,
    {
        self.size
    }

    /// Whether nothing of the order is left to fill.
    pub fn is_filled(&self) -> (r: bool)
        ensures
            r == (self@.size == 0),
    {
        self.size == 0
    }

    /// Takes `amount` units off the unfilled size.
    pub fn reduce(&mut self, amount: u64)
        requires
            amount <= old(self)@.size,
        ensures
            final(self)@ == (OrderView {
                size: (old(self)@.size - amount) as nat,
                ..old(self)@
            }),
    {
        self.size = self.size - amount;
    }
}

} // verus!
