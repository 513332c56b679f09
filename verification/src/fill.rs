//! Fill events and the outcome of matching one incoming order.

use crate::price::{Price, PriceView};
use vstd::prelude::*;

verus! {

/// One trade: `quantity` units taken from the resting order
/// `counterparty_order_id` at the price of its level.
#[derive(Debug, Copy, Clone)]
pub struct Fill {
    pub counterparty_order_id: u64,
    pub price: Price,
    pub quantity: u64,
}

/// The mathematical content of a [`Fill`].
pub struct FillView {
    pub counterparty_order_id: u64,
    pub price: PriceView,
    pub quantity: nat,
}

impl View for Fill {
    type V = FillView;

    open spec fn view(&self) -> FillView {
        FillView {
            counterparty_order_id: self.counterparty_order_id,
            price: self.price@,
            quantity: self.quantity as nat,
        }
    }
}

/// The fills of a vector, each by its content.
pub open spec fn fill_views(fills: Seq<Fill>) -> Seq<FillView> {
    fills.map_values(|f: Fill| f@)
}

/// The fills that traded something.
pub open spec fn traded(fills: Seq<FillView>) -> Seq<FillView> {
    fills.filter(|f: FillView| f.quantity > 0)
}

/// The sum of the quantities of a sequence of fills.
pub open spec fn total_quantity(fills: Seq<FillView>) -> nat
    decreases fills.len(),
{
    if fills.len() == 0 {
        0
    } else {
        total_quantity(fills.drop_last()) + fills.last().quantity
    }
}

/// What became of an incoming order: how much of it was filled, how much is
/// left, and the trades in the order in which they happened.
#[derive(Debug)]
pub struct FillOutcome {
    pub filled_size: u64,
    pub remaining_size: u64,
    pub fills: Vec<Fill>,
}

/// The mathematical content of a [`FillOutcome`].
pub struct FillOutcomeView {
    pub filled_size: nat,
    pub remaining_size: nat,
    pub fills: Seq<FillView>,
}

impl View for FillOutcome {
    type V = FillOutcomeView;

    open spec fn view(&self) -> FillOutcomeView {
        FillOutcomeView {
            filled_size: self.filled_size as nat,
            remaining_size: self.remaining_size as nat,
            fills: fill_views(self.fills@),
        }
    }
}

/// The quantities of two runs of fills add up.
pub proof fn lemma_total_quantity_concat(a: Seq<FillView>, b: Seq<FillView>)
    ensures
        total_quantity(a + b) == total_quantity(a) + total_quantity(b),
    decreases b.len(),
{
    if b.len() == 0 {
        assert(a + b =~= a);
    } else {
        assert((a + b).drop_last() =~= a + b.drop_last());
        lemma_total_quantity_concat(a, b.drop_last());
    }
}

} // verus!
