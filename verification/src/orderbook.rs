//! The book of one instrument: bids and asks as price levels, best price
//! first on each side.

use crate::fill::{
    fill_views, lemma_total_quantity_concat, total_quantity, Fill, FillOutcome, FillOutcomeView,
    FillView,
};
use crate::limit::{
    holds_id, lemma_fills_total, lemma_first_with_id, lemma_level_fills_at_price, lemma_live_all,
    lemma_live_orders_are_live, lemma_matched_volume, lemma_survivor_means_filled, lemma_used_up,
    lemma_volume_live, lemma_volume_push, leftover, level_fills, live_orders, matched,
    matched_orders, volume, without_first, Limit, LimitView,
};
use crate::order::{BidOrAsk, Order, OrderView};
use crate::price::{Price, PriceView};
use std::collections::VecDeque;
use vstd::prelude::*;

verus! {

/// The mathematical content of an [`Orderbook`]: each side as a sequence of
/// levels, the best price in front.
pub struct OrderbookView {
    pub bids: Seq<LimitView>,
    pub asks: Seq<LimitView>,
}

impl OrderbookView {
    /// The levels that hold the resting orders of `side`.
    pub open spec fn side(self, side: BidOrAsk) -> Seq<LimitView> {
        match side {
            BidOrAsk::Bid => self.bids,
            BidOrAsk::Ask => self.asks,
        }
    }

    /// The book with the levels of `side` replaced.
    pub open spec fn with_side(self, side: BidOrAsk, levels: Seq<LimitView>) -> OrderbookView {
        match side {
            BidOrAsk::Bid => OrderbookView { bids: levels, ..self },
            BidOrAsk::Ask => OrderbookView { asks: levels, ..self },
        }
    }
}

/// The levels of a deque, each by its content.
pub open spec fn limit_views(levels: Seq<Limit>) -> Seq<LimitView> {
    levels.map_values(|l: Limit| l@)
}

/// The content of an optional limit price.
pub open spec fn limit_view(limit: Option<Price>) -> Option<PriceView> {
    match limit {
        Some(p) => Some(p@),
        None => None,
    }
}

/// The total unfilled size resting on a side.
pub open spec fn depth(levels: Seq<LimitView>) -> nat
    decreases levels.len(),
{
    if levels.len() == 0 {
        0
    } else {
        volume(levels[0].orders) + depth(levels.drop_first())
    }
}

/// Whether, for orders resting on `side`, price `a` has priority over
/// price `b`: the higher bid, the lower ask.
pub open spec fn better(side: BidOrAsk, a: PriceView, b: PriceView) -> bool {
    match side {
        BidOrAsk::Bid => b.lt(a),
        BidOrAsk::Ask => a.lt(b),
    }
}

/// Whether an incoming order of side `taker` may trade at `price`: always
/// without a limit; with one, a bid at or above the price, an ask at or
/// below it.
pub open spec fn crosses(taker: BidOrAsk, limit: Option<PriceView>, price: PriceView) -> bool {
    match limit {
        None => true,
        Some(bound) => match taker {
            BidOrAsk::Bid => price.le(bound),
            BidOrAsk::Ask => bound.le(price),
        },
    }
}

/// A level as a book holds it: not empty, and every order live and of the
/// level's side.
pub open spec fn level_wf(level: LimitView, side: BidOrAsk) -> bool {
    &&& level.orders.len() > 0
    &&& forall|k: int|
        0 <= k < level.orders.len() ==> (#[trigger] level.orders[k]).size > 0
            && level.orders[k].bid_or_ask == side
}

/// A side as a book holds it: every level well formed, and the prices
/// strictly sorted, the best in front.
pub open spec fn side_wf(levels: Seq<LimitView>, side: BidOrAsk) -> bool {
    &&& forall|i: int| 0 <= i < levels.len() ==> level_wf(#[trigger] levels[i], side)
    &&& forall|i: int, j: int|
        0 <= i < j < levels.len() ==> better(
            side,
            (#[trigger] levels[i]).price,
            (#[trigger] levels[j]).price,
        )
}

/// The invariant of a book: both sides well formed, and the best bid below
/// the best ask.
pub open spec fn book_wf(book: OrderbookView) -> bool {
    &&& side_wf(book.bids, BidOrAsk::Bid)
    &&& side_wf(book.asks, BidOrAsk::Ask)
    &&& book.bids.len() > 0 && book.asks.len() > 0 ==> book.bids[0].price.lt(book.asks[0].price)
}

/// Whether some level of a side stands at `price`.
pub open spec fn has_price(levels: Seq<LimitView>, price: PriceView) -> bool {
    exists|j: int| 0 <= j < levels.len() && (#[trigger] levels[j]).price == price
}

/// What a sweep leaves: the levels of the side, the trades in the order in
/// which they happened, and what is left of the incoming order.
pub struct SweepView {
    pub levels: Seq<LimitView>,
    pub fills: Seq<FillView>,
    pub remaining: nat,
}

/// An incoming order of side `taker` with `amount` units to fill sweeps a
/// side, best level first. It stops when it is filled, when the side is
/// used up, or at the first level whose price it may not trade at. Every
/// level on the way is matched front to back; filled orders leave their
/// level, and a level left without orders leaves the side.
pub open spec fn sweep(
    levels: Seq<LimitView>,
    taker: BidOrAsk,
    limit: Option<PriceView>,
    amount: nat,
) -> SweepView
    decreases levels.len(),
{
    if amount == 0 || levels.len() == 0 || !crosses(taker, limit, levels[0].price) {
        SweepView { levels, fills: Seq::empty(), remaining: amount }
    } else {
        let head = levels[0];
        let left = live_orders(matched_orders(head.orders, amount));
        let rest = sweep(
            levels.drop_first(),
            taker,
            limit,
            leftover(amount, volume(head.orders)),
        );
        SweepView {
            levels: if left.len() == 0 {
                rest.levels
            } else {
                seq![LimitView { price: head.price, orders: left }] + rest.levels
            },
            fills: level_fills(head.orders, head.price, amount) + rest.fills,
            remaining: rest.remaining,
        }
    }
}

/// The sweep that an incoming order makes of the side opposite to its own.
pub open spec fn taking(book: OrderbookView, limit: Option<PriceView>, order: OrderView)
    -> SweepView {
    sweep(book.side(order.bid_or_ask.spec_opposite()), order.bid_or_ask, limit, order.size)
}

/// What the outcome of an incoming order reports of its sweep.
pub open spec fn outcome_of(swept: SweepView, order: OrderView) -> FillOutcomeView {
    FillOutcomeView {
        filled_size: (order.size - swept.remaining) as nat,
        remaining_size: swept.remaining,
        fills: swept.fills,
    }
}

/// The book after a market order was matched against the opposite side.
pub open spec fn market_filled(book: OrderbookView, order: OrderView) -> OrderbookView {
    book.with_side(order.bid_or_ask.spec_opposite(), taking(book, None, order).levels)
}

/// What a market order's outcome reports.
pub open spec fn market_outcome(book: OrderbookView, order: OrderView) -> FillOutcomeView {
    outcome_of(taking(book, None, order), order)
}

/// The number of levels in front of a side whose price has priority over
/// `price`.
pub open spec fn better_levels(levels: Seq<LimitView>, side: BidOrAsk, price: PriceView) -> int
    decreases levels.len(),
{
    if levels.len() > 0 && better(side, levels[0].price, price) {
        1 + better_levels(levels.drop_first(), side, price)
    } else {
        0
    }
}

/// The side after `order` came to rest at `price`: at the back of the
/// level at that price, or alone in a new level behind all better prices.
pub open spec fn rested(
    levels: Seq<LimitView>,
    side: BidOrAsk,
    price: PriceView,
    order: OrderView,
) -> Seq<LimitView> {
    let k = better_levels(levels, side, price);
    if k < levels.len() && levels[k].price == price {
        levels.update(k, LimitView { price, orders: levels[k].orders.push(order) })
    } else {
        levels.insert(k, LimitView { price, orders: seq![order] })
    }
}

/// The book after a limit order at `price`: first it is matched against
/// the opposite side at the prices that cross; what then remains of it
/// comes to rest on its own side.
pub open spec fn limit_placed(book: OrderbookView, price: PriceView, order: OrderView)
    -> OrderbookView {
    let swept = taking(book, Some(price), order);
    let taken = book.with_side(order.bid_or_ask.spec_opposite(), swept.levels);
    if swept.remaining > 0 {
        taken.with_side(
            order.bid_or_ask,
            rested(
                book.side(order.bid_or_ask),
                order.bid_or_ask,
                price,
                OrderView { size: swept.remaining, ..order },
            ),
        )
    } else {
        taken
    }
}

/// What a limit order's outcome reports.
pub open spec fn limit_outcome(book: OrderbookView, price: PriceView, order: OrderView)
    -> FillOutcomeView {
    outcome_of(taking(book, Some(price), order), order)
}

/// The position of the first level of a side that holds an order with the
/// identifier `id`; the number of levels if none does.
pub open spec fn first_level_with(levels: Seq<LimitView>, id: u64) -> int
    decreases levels.len(),
{
    if levels.len() == 0 || holds_id(levels[0].orders, id) {
        0
    } else {
        1 + first_level_with(levels.drop_first(), id)
    }
}

/// The side without the first order that carries the identifier `id`, in
/// the order of levels and of each queue; a level left without orders
/// leaves the side.
pub open spec fn cancelled(levels: Seq<LimitView>, id: u64) -> Seq<LimitView> {
    let i = first_level_with(levels, id);
    if i < levels.len() {
        let left = without_first(levels[i].orders, id);
        if left.len() == 0 {
            levels.remove(i)
        } else {
            levels.update(i, LimitView { price: levels[i].price, orders: left })
        }
    } else {
        levels
    }
}

/// Whether an order with the identifier `id` rests in the book.
pub open spec fn book_holds(book: OrderbookView, id: u64) -> bool {
    first_level_with(book.bids, id) < book.bids.len() || first_level_with(book.asks, id)
        < book.asks.len()
}

/// The book without the first order that carries the identifier `id`, the
/// bids searched before the asks.
pub open spec fn order_cancelled(book: OrderbookView, id: u64) -> OrderbookView {
    if first_level_with(book.bids, id) < book.bids.len() {
        book.with_side(BidOrAsk::Bid, cancelled(book.bids, id))
    } else {
        book.with_side(BidOrAsk::Ask, cancelled(book.asks, id))
    }
}

/// The book of one instrument.
#[derive(Debug)]
pub struct Orderbook {
    asks: VecDeque<Limit>,
    bids: VecDeque<Limit>,
}

impl View for Orderbook {
    type V = OrderbookView;

    closed spec fn view(&self) -> OrderbookView {
        OrderbookView { bids: limit_views(self.bids@), asks: limit_views(self.asks@) }
    }
}

/// Whether an incoming order of side `taker` limited to `limit` may trade
/// at `price`.
fn price_crosses(taker: BidOrAsk, limit: &Option<Price>, price: &Price) -> (r: bool)
    ensures
        r == crosses(taker, limit_view(*limit), price@),
{
    match limit {
        None => true,
        Some(bound) => match taker {
            BidOrAsk::Bid => !bound.less_than(price),
            BidOrAsk::Ask => !price.less_than(bound),
        },
    }
}

/// Whether a sweep goes on: the incoming order is not filled, and there
/// is a best level that it may trade at.
fn can_take(levels: &VecDeque<Limit>, incoming: &Order, limit: &Option<Price>) -> (r: bool)
    ensures
        r == !(incoming@.size == 0 || limit_views(levels@).len() == 0 || !crosses(
            incoming@.bid_or_ask,
            limit_view(*limit),
            limit_views(levels@)[0].price,
        )),
{
    if incoming.is_filled() || levels.len() == 0 {
        false
    } else {
        let best: Price = levels[0].price();
        price_crosses(incoming.bid_or_ask(), limit, &best)
    }
}

/// Sweeps `levels` with `incoming`, which may trade at the prices that
/// `limit` admits.
fn sweep_side(levels: &mut VecDeque<Limit>, incoming: &mut Order, limit: Option<Price>) -> (fills:
    Vec<Fill>)
    requires
        side_wf(limit_views(old(levels)@), old(incoming)@.bid_or_ask.spec_opposite()),
    ensures
        side_wf(limit_views(final(levels)@), old(incoming)@.bid_or_ask.spec_opposite()),
        ({
            let swept = sweep(
                limit_views(old(levels)@),
                old(incoming)@.bid_or_ask,
                limit_view(limit),
                old(incoming)@.size,
            );
            &&& limit_views(final(levels)@) == swept.levels
            &&& fill_views(fills@) == swept.fills
            &&& final(incoming)@ == (OrderView { size: swept.remaining, ..old(incoming)@ })
        }),
{
    let ghost taker = incoming@.bid_or_ask;
    let ghost side = taker.spec_opposite();
    let ghost bound = limit_view(limit);
    let ghost goal = sweep(limit_views(levels@), taker, bound, incoming@.size);
    let ghost first = incoming@;
    let mut fills: Vec<Fill> = Vec::new();
    proof {
        assert(fill_views(fills@) + goal.fills =~= goal.fills);
    }
    let mut active: bool = can_take(levels, incoming, &limit);
    while active
        invariant
            side_wf(limit_views(levels@), side),
            incoming@ == (OrderView { size: incoming@.size, ..first }),
            bound == limit_view(limit),
            taker == first.bid_or_ask,
            side == taker.spec_opposite(),
            active == !(incoming@.size == 0 || limit_views(levels@).len() == 0 || !crosses(
                taker,
                bound,
                limit_views(levels@)[0].price,
            )),
            goal.levels == sweep(limit_views(levels@), taker, bound, incoming@.size).levels,
            goal.fills == fill_views(fills@) + sweep(
                limit_views(levels@),
                taker,
                bound,
                incoming@.size,
            ).fills,
            goal.remaining == sweep(limit_views(levels@), taker, bound, incoming@.size).remaining,
        decreases levels@.len(), incoming@.size,
    {
        let ghost before = limit_views(levels@);
        let ghost amount = incoming@.size;
        let ghost earlier = fill_views(fills@);
        let ghost head = before[0];
        let mut level: Limit = levels.pop_front().unwrap();
        proof {
            assert(limit_views(levels@) =~= before.drop_first());
            assert(level@ == head);
            assert(level_wf(head, side));
            lemma_live_all(head.orders);
        }
        let ghost rest = limit_views(levels@);
        let mut level_fills: Vec<Fill> = level.fill_order(incoming);
        let ghost traded = fill_views(level_fills@);
        fills.append(&mut level_fills);
        proof {
            let next = sweep(rest, taker, bound, incoming@.size);
            assert(fill_views(fills@) =~= earlier + traded);
            assert((earlier + traded) + next.fills =~= earlier + (traded + next.fills));
            assert(forall|j: int| 0 <= j < rest.len() ==> rest[j] == before[j + 1]);
        }
        if !level.is_empty() {
            proof {
                lemma_survivor_means_filled(head.orders, amount);
                lemma_live_orders_are_live(matched_orders(head.orders, amount));
                lemma_live_keeps_side(matched_orders(head.orders, amount), side);
            }
            levels.push_front(level);
            proof {
                assert(limit_views(levels@) =~= seq![level@] + rest);
                assert(level_wf(level@, side));
            }
        }
        active = can_take(levels, incoming, &limit);
    }
    proof {
        assert(fill_views(fills@) + Seq::<FillView>::empty() =~= fill_views(fills@));
    }
    fills
}

/// Whether, for orders resting on `side`, price `a` has priority over `b`.
fn has_priority(side: BidOrAsk, a: &Price, b: &Price) -> (r: bool)
    ensures
        r == better(side, a@, b@),
{
    match side {
        BidOrAsk::Bid => b.less_than(a),
        BidOrAsk::Ask => a.less_than(b),
    }
}

/// Lets `order` come to rest at `price` on its side.
fn rest_order(levels: &mut VecDeque<Limit>, price: Price, order: Order)
    ensures
        limit_views(final(levels)@) == rested(
            limit_views(old(levels)@),
            order@.bid_or_ask,
            price@,
            order@,
        ),
{
    let side: BidOrAsk = order.bid_or_ask();
    let ghost before = limit_views(levels@);
    let mut i: usize = 0;
    while i < levels.len() && has_priority(side, &levels[i].price(), &price)
        invariant
            i <= levels@.len(),
            before == limit_views(levels@),
            forall|j: int| 0 <= j < i ==> better(side, (#[trigger] before[j]).price, price@),
        decreases levels@.len() - i,
    {
        i = i + 1;
    }
    proof {
        lemma_better_levels_is(before, side, price@, i as int);
    }
    if i < levels.len() && levels[i].price().same_as(&price) {
        let mut level: Limit = levels.remove(i).unwrap();
        level.add_order(order);
        levels.insert(i, level);
        proof {
            assert(limit_views(levels@) =~= before.update(
                i as int,
                LimitView { price: price@, orders: before[i as int].orders.push(order@) },
            ));
        }
    } else {
        let mut level: Limit = Limit::new(price);
        level.add_order(order);
        levels.insert(i, level);
        proof {
            assert(Seq::<OrderView>::empty().push(order@) =~= seq![order@]);
            assert(limit_views(levels@) =~= before.insert(
                i as int,
                LimitView { price: price@, orders: seq![order@] },
            ));
        }
    }
}

/// Takes the first order that carries the identifier `id` off a side.
fn cancel_on_side(levels: &mut VecDeque<Limit>, id: u64) -> (r: bool)
    ensures
        r == (first_level_with(limit_views(old(levels)@), id) < old(levels)@.len()),
        limit_views(final(levels)@) == cancelled(limit_views(old(levels)@), id),
{
    let ghost before = limit_views(levels@);
    let mut i: usize = 0;
    while i < levels.len()
        invariant
            i <= levels@.len(),
            before == limit_views(levels@),
            levels@ == old(levels)@,
            forall|j: int| 0 <= j < i ==> !holds_id((#[trigger] before[j]).orders, id),
        decreases levels@.len() - i,
    {
        if levels[i].find_order(id).is_some() {
            proof {
                assert(holds_id(before[i as int].orders, id));
                lemma_first_level_with_is(before, id, i as int);
            }
            let mut level: Limit = levels.remove(i).unwrap();
            level.remove_order(id);
            if !level.is_empty() {
                levels.insert(i, level);
                proof {
                    assert(limit_views(levels@) =~= before.update(i as int, level@));
                }
            } else {
                proof {
                    assert(limit_views(levels@) =~= before.remove(i as int));
                }
            }
            return true;
        }
        i = i + 1;
    }
    proof {
        lemma_first_level_with_is(before, id, i as int);
    }
    false
}

impl Orderbook {
    /// Whether the book holds its invariant.
    pub open spec fn wf(&self) -> bool {
        book_wf(self@)
    }

    /// A book without orders.
    pub fn new() -> (r: Orderbook)
        ensures
            r.wf(),
            r@ == (OrderbookView { bids: Seq::empty(), asks: Seq::empty() }),
    {
        let r = Orderbook { asks: VecDeque::new(), bids: VecDeque::new() };
        assert(r@.bids =~= Seq::<LimitView>::empty());
        assert(r@.asks =~= Seq::<LimitView>::empty());
        r
    }

    /// The bid levels, the highest price first.
    pub fn bid_limits(&self) -> (r: &VecDeque<Limit>)
        ensures
            limit_views(r@) == self@.bids,
    {
        &self.bids
    }

    /// The ask levels, the lowest price first.
    pub fn ask_limits(&self) -> (r: &VecDeque<Limit>)
        ensures
            limit_views(r@) == self@.asks,
    {
        &self.asks
    }

    /// The highest price at which a bid rests; `None` when no bid rests.
    pub fn best_bid(&self) -> (r: Option<Price>)
        ensures
            self@.bids.len() == 0 ==> r is None,
            self@.bids.len() > 0 ==> r is Some && r->Some_0@ == self@.bids[0].price,
            self.wf() ==> forall|i: int|
                0 < i < self@.bids.len() ==> (#[trigger] self@.bids[i]).price.lt(
                    self@.bids[0].price,
                ),
    {
        if self.bids.len() == 0 {
            None
        } else {
            Some(self.bids[0].price())
        }
    }

    /// The lowest price at which an ask rests; `None` when no ask rests.
    pub fn best_ask(&self) -> (r: Option<Price>)
        ensures
            self@.asks.len() == 0 ==> r is None,
            self@.asks.len() > 0 ==> r is Some && r->Some_0@ == self@.asks[0].price,
            self.wf() ==> forall|i: int|
                0 < i < self@.asks.len() ==> self@.asks[0].price.lt(
                    (#[trigger] self@.asks[i]).price,
                ),
    {
        if self.asks.len() == 0 {
            None
        } else {
            Some(self.asks[0].price())
        }
    }

    /// Places a limit order: matches `order` against the opposite side at
    /// the prices that cross `price`, best price first, and lets what
    /// remains of it rest at `price` on its own side.
    pub fn add_order(&mut self, price: Price, order: Order) -> (outcome: FillOutcome)
        requires
            old(self).wf(),
        ensures
            final(self).wf(),
            final(self)@ == limit_placed(old(self)@, price@, order@),
            outcome@ == limit_outcome(old(self)@, price@, order@),
            outcome@.filled_size + outcome@.remaining_size == order@.size,
    {
        let mut order: Order = order;
        let size: u64 = order.size();
        let ghost book = self@;
        let ghost first = order@;
        proof {
            lemma_sweep_conserves(
                book.side(first.bid_or_ask.spec_opposite()),
                first.bid_or_ask,
                Some(price@),
                size as nat,
            );
            lemma_limit_placed_wf(book, price@, first);
        }
        let fills: Vec<Fill> = match order.bid_or_ask() {
            BidOrAsk::Ask => sweep_side(&mut self.bids, &mut order, Some(price)),
            BidOrAsk::Bid => sweep_side(&mut self.asks, &mut order, Some(price)),
        };
        let remaining_size: u64 = order.size();
        if !order.is_filled() {
            match order.bid_or_ask() {
                BidOrAsk::Ask => rest_order(&mut self.asks, price, order),
                BidOrAsk::Bid => rest_order(&mut self.bids, price, order),
            }
        }
        FillOutcome { filled_size: size - remaining_size, remaining_size, fills }
    }

    /// Cancels the first resting order that carries the identifier
    /// `order_id`, the bids searched before the asks, each side from the
    /// best price on and each level from its front. Tells whether there
    /// was such an order.
    pub fn cancel_order(&mut self, order_id: u64) -> (r: bool)
        requires
            old(self).wf(),
        ensures
            final(self).wf(),
            r == book_holds(old(self)@, order_id),
            final(self)@ == order_cancelled(old(self)@, order_id),
            !r ==> final(self)@ == old(self)@,
    {
        proof {
            lemma_order_cancelled_wf(self@, order_id);
        }
        if cancel_on_side(&mut self.bids, order_id) {
            true
        } else {
            cancel_on_side(&mut self.asks, order_id)
        }
    }

    /// Matches `market_order` against the opposite side, best price first,
    /// until it is filled or the side is used up. What could not be filled
    /// stays in `market_order` and rests nowhere.
    pub fn fill_market_order(&mut self, market_order: &mut Order) -> (outcome: FillOutcome)
        requires
            old(self).wf(),
        ensures
            final(self).wf(),
            final(self)@ == market_filled(old(self)@, old(market_order)@),
            outcome@ == market_outcome(old(self)@, old(market_order)@),
            final(market_order)@ == (OrderView {
                size: outcome@.remaining_size,
                ..old(market_order)@
            }),
            outcome@.filled_size == matched(
                old(market_order)@.size,
                depth(old(self)@.side(old(market_order)@.bid_or_ask.spec_opposite())),
            ),
            outcome@.filled_size + outcome@.remaining_size == old(market_order)@.size,
    {
        let size: u64 = market_order.size();
        let ghost book = self@;
        let ghost taker = market_order@.bid_or_ask;
        proof {
            lemma_sweep_conserves(book.side(taker.spec_opposite()), taker, None, size as nat);
            lemma_market_filled_wf(book, market_order@);
        }
        let fills: Vec<Fill> = match market_order.bid_or_ask() {
            BidOrAsk::Ask => sweep_side(&mut self.bids, market_order, None),
            BidOrAsk::Bid => sweep_side(&mut self.asks, market_order, None),
        };
        let remaining_size: u64 = market_order.size();
        FillOutcome { filled_size: size - remaining_size, remaining_size, fills }
    }
}

/// The orders of one side that are live are still of that side.
pub proof fn lemma_live_keeps_side(orders: Seq<OrderView>, side: BidOrAsk)
    requires
        forall|k: int| 0 <= k < orders.len() ==> (#[trigger] orders[k]).bid_or_ask == side,
    ensures
        forall|k: int|
            0 <= k < live_orders(orders).len() ==> (#[trigger] live_orders(orders)[k]).bid_or_ask
                == side,
    decreases orders.len(),
{
    reveal(Seq::filter);
    if orders.len() > 0 {
        lemma_live_keeps_side(orders.drop_last(), side);
    }
}

/// Volume is conserved: what rested on the side before a sweep is what
/// rests there after it and what was traded; and the incoming order is
/// split into what was traded and what remains. Without a limit the sweep
/// fills as much as the side holds.
pub proof fn lemma_sweep_conserves(
    levels: Seq<LimitView>,
    taker: BidOrAsk,
    limit: Option<PriceView>,
    amount: nat,
)
    ensures
        depth(sweep(levels, taker, limit, amount).levels) + total_quantity(
            sweep(levels, taker, limit, amount).fills,
        ) == depth(levels),
        total_quantity(sweep(levels, taker, limit, amount).fills) + sweep(
            levels,
            taker,
            limit,
            amount,
        ).remaining == amount,
        limit is None ==> sweep(levels, taker, limit, amount).remaining == leftover(
            amount,
            depth(levels),
        ),
    decreases levels.len(),
{
    if amount == 0 || levels.len() == 0 || !crosses(taker, limit, levels[0].price) {
    } else {
        let head = levels[0];
        let after = matched_orders(head.orders, amount);
        let left = live_orders(after);
        let rest = sweep(levels.drop_first(), taker, limit, leftover(amount, volume(head.orders)));
        let here = level_fills(head.orders, head.price, amount);
        lemma_sweep_conserves(
            levels.drop_first(),
            taker,
            limit,
            leftover(amount, volume(head.orders)),
        );
        lemma_total_quantity_concat(here, rest.fills);
        lemma_matched_volume(head.orders, amount);
        lemma_fills_total(head.orders, head.price, amount);
        lemma_volume_live(after);
        if left.len() > 0 {
            let kept = seq![LimitView { price: head.price, orders: left }] + rest.levels;
            assert(kept.drop_first() =~= rest.levels);
        } else {
            assert(volume(left) == 0);
        }
    }
}

/// A sweep makes no price level: every level it leaves stands at the price
/// of a level that was there before.
pub proof fn lemma_sweep_keeps_prices(
    levels: Seq<LimitView>,
    taker: BidOrAsk,
    limit: Option<PriceView>,
    amount: nat,
)
    ensures
        forall|i: int|
            0 <= i < sweep(levels, taker, limit, amount).levels.len() ==> has_price(
                levels,
                (#[trigger] sweep(levels, taker, limit, amount).levels[i]).price,
            ),
    decreases levels.len(),
{
    let swept = sweep(levels, taker, limit, amount).levels;
    if amount == 0 || levels.len() == 0 || !crosses(taker, limit, levels[0].price) {
        assert forall|i: int| 0 <= i < swept.len() implies has_price(
            levels,
            (#[trigger] swept[i]).price,
        ) by {
            assert(levels[i].price == swept[i].price);
        }
    } else {
        let head = levels[0];
        let left = live_orders(matched_orders(head.orders, amount));
        let tail = levels.drop_first();
        let rest = sweep(tail, taker, limit, leftover(amount, volume(head.orders))).levels;
        lemma_sweep_keeps_prices(tail, taker, limit, leftover(amount, volume(head.orders)));
        assert forall|i: int| 0 <= i < swept.len() implies has_price(
            levels,
            (#[trigger] swept[i]).price,
        ) by {
            if left.len() > 0 && i == 0 {
                assert(levels[0].price == swept[i].price);
            } else {
                let k = if left.len() > 0 {
                    i - 1
                } else {
                    i
                };
                assert(swept[i] == rest[k]);
                assert(has_price(tail, rest[k].price));
                let j = choose|j: int| 0 <= j < tail.len() && (#[trigger] tail[j]).price == rest[k].price;
                assert(levels[j + 1].price == swept[i].price);
            }
        }
    }
}

/// A book whose sides are changed to well-formed sides with no new price
/// is still uncrossed.
pub proof fn lemma_prices_keep_uncrossed(before: OrderbookView, after: OrderbookView)
    requires
        book_wf(before),
        side_wf(after.bids, BidOrAsk::Bid),
        side_wf(after.asks, BidOrAsk::Ask),
        forall|i: int|
            0 <= i < after.bids.len() ==> has_price(before.bids, (#[trigger] after.bids[i]).price),
        forall|i: int|
            0 <= i < after.asks.len() ==> has_price(before.asks, (#[trigger] after.asks[i]).price),
    ensures
        book_wf(after),
{
    if after.bids.len() > 0 && after.asks.len() > 0 {
        assert(has_price(before.bids, after.bids[0].price));
        assert(has_price(before.asks, after.asks[0].price));
        let b = choose|j: int|
            0 <= j < before.bids.len() && (#[trigger] before.bids[j]).price == after.bids[0].price;
        let a = choose|j: int|
            0 <= j < before.asks.len() && (#[trigger] before.asks[j]).price == after.asks[0].price;
        assert(b == 0 || better(BidOrAsk::Bid, before.bids[0].price, before.bids[b].price));
        assert(a == 0 || better(BidOrAsk::Ask, before.asks[0].price, before.asks[a].price));
    }
}

/// A sweep leaves a well-formed side well formed.
pub proof fn lemma_sweep_wf(
    levels: Seq<LimitView>,
    taker: BidOrAsk,
    limit: Option<PriceView>,
    amount: nat,
    side: BidOrAsk,
)
    requires
        side_wf(levels, side),
    ensures
        side_wf(sweep(levels, taker, limit, amount).levels, side),
    decreases levels.len(),
{
    if amount == 0 || levels.len() == 0 || !crosses(taker, limit, levels[0].price) {
    } else {
        let head = levels[0];
        let after = matched_orders(head.orders, amount);
        let left = live_orders(after);
        let tail = levels.drop_first();
        let rest = sweep(tail, taker, limit, leftover(amount, volume(head.orders))).levels;
        let swept = sweep(levels, taker, limit, amount).levels;
        assert(forall|j: int| 0 <= j < tail.len() ==> tail[j] == levels[j + 1]);
        lemma_sweep_wf(tail, taker, limit, leftover(amount, volume(head.orders)), side);
        lemma_sweep_keeps_prices(tail, taker, limit, leftover(amount, volume(head.orders)));
        if left.len() > 0 {
            let kept = LimitView { price: head.price, orders: left };
            assert(level_wf(head, side));
            lemma_live_orders_are_live(after);
            lemma_live_keeps_side(after, side);
            assert(level_wf(kept, side));
            assert forall|i: int| 0 <= i < swept.len() implies level_wf(
                #[trigger] swept[i],
                side,
            ) by {
                if i > 0 {
                    assert(swept[i] == rest[i - 1]);
                }
            }
            assert forall|i: int, j: int| 0 <= i < j < swept.len() implies better(
                side,
                (#[trigger] swept[i]).price,
                (#[trigger] swept[j]).price,
            ) by {
                assert(swept[j] == rest[j - 1]);
                if i == 0 {
                    assert(has_price(tail, rest[j - 1].price));
                    let k = choose|k: int|
                        0 <= k < tail.len() && (#[trigger] tail[k]).price == rest[j - 1].price;
                    assert(better(side, levels[0].price, levels[k + 1].price));
                } else {
                    assert(swept[i] == rest[i - 1]);
                }
            }
        }
    }
}

/// An incoming order that a sweep leaves unfilled has used up every level
/// that it may trade at: no level left on the side crosses its limit.
pub proof fn lemma_unfilled_leaves_no_crossing(
    levels: Seq<LimitView>,
    taker: BidOrAsk,
    limit: Option<PriceView>,
    amount: nat,
)
    requires
        side_wf(levels, taker.spec_opposite()),
        sweep(levels, taker, limit, amount).remaining > 0,
    ensures
        forall|i: int|
            0 <= i < sweep(levels, taker, limit, amount).levels.len() ==> !crosses(
                taker,
                limit,
                (#[trigger] sweep(levels, taker, limit, amount).levels[i]).price,
            ),
    decreases levels.len(),
{
    let swept = sweep(levels, taker, limit, amount).levels;
    if amount == 0 || levels.len() == 0 {
    } else if !crosses(taker, limit, levels[0].price) {
        assert forall|i: int| 0 <= i < swept.len() implies !crosses(
            taker,
            limit,
            (#[trigger] swept[i]).price,
        ) by {
            if i > 0 {
                assert(better(taker.spec_opposite(), levels[0].price, levels[i].price));
            }
        }
    } else {
        let head = levels[0];
        let tail = levels.drop_first();
        assert(forall|j: int| 0 <= j < tail.len() ==> tail[j] == levels[j + 1]);
        let rest = sweep(tail, taker, limit, leftover(amount, volume(head.orders)));
        if live_orders(matched_orders(head.orders, amount)).len() > 0 {
            lemma_survivor_means_filled(head.orders, amount);
            assert(rest.remaining == 0);
        }
        assert(sweep(levels, taker, limit, amount).levels == rest.levels);
        lemma_unfilled_leaves_no_crossing(
            tail,
            taker,
            limit,
            leftover(amount, volume(head.orders)),
        );
    }
}

/// The count of levels with priority over a price is the position at
/// which a scan from the front first meets a level without it.
pub proof fn lemma_better_levels_is(
    levels: Seq<LimitView>,
    side: BidOrAsk,
    price: PriceView,
    i: int,
)
    requires
        0 <= i <= levels.len(),
        forall|j: int| 0 <= j < i ==> better(side, (#[trigger] levels[j]).price, price),
        i < levels.len() ==> !better(side, levels[i].price, price),
    ensures
        better_levels(levels, side, price) == i,
    decreases i,
{
    if i > 0 {
        let tail = levels.drop_first();
        assert(forall|j: int| 0 <= j < tail.len() ==> tail[j] == levels[j + 1]);
        assert(better(side, levels[0].price, price));
        lemma_better_levels_is(tail, side, price, i - 1);
    }
}

/// The levels with priority over a price stand in front of all others.
pub proof fn lemma_better_levels(levels: Seq<LimitView>, side: BidOrAsk, price: PriceView)
    ensures
        0 <= better_levels(levels, side, price) <= levels.len(),
        forall|j: int|
            0 <= j < better_levels(levels, side, price) ==> better(
                side,
                (#[trigger] levels[j]).price,
                price,
            ),
        better_levels(levels, side, price) < levels.len() ==> !better(
            side,
            levels[better_levels(levels, side, price)].price,
            price,
        ),
    decreases levels.len(),
{
    if levels.len() > 0 && better(side, levels[0].price, price) {
        let tail = levels.drop_first();
        lemma_better_levels(tail, side, price);
        assert forall|j: int| 0 <= j < better_levels(levels, side, price) implies better(
            side,
            (#[trigger] levels[j]).price,
            price,
        ) by {
            if j > 0 {
                assert(levels[j] == tail[j - 1]);
            }
        }
        assert(better_levels(levels, side, price) < levels.len() ==> levels[better_levels(
            levels,
            side,
            price,
        )] == tail[better_levels(tail, side, price)]);
    }
}

/// A live order of the side's kind comes to rest on a well-formed side
/// and leaves it well formed; the best price is then the order's price or
/// the former best price.
pub proof fn lemma_rested_wf(
    levels: Seq<LimitView>,
    side: BidOrAsk,
    price: PriceView,
    order: OrderView,
)
    requires
        side_wf(levels, side),
        order.size > 0,
        order.bid_or_ask == side,
    ensures
        side_wf(rested(levels, side, price, order), side),
        rested(levels, side, price, order).len() > 0,
        rested(levels, side, price, order)[0].price == price || (levels.len() > 0 && rested(
            levels,
            side,
            price,
            order,
        )[0].price == levels[0].price),
{
    let k = better_levels(levels, side, price);
    let after = rested(levels, side, price, order);
    lemma_better_levels(levels, side, price);
    if k < levels.len() && levels[k].price == price {
        let joined = LimitView { price, orders: levels[k].orders.push(order) };
        assert(level_wf(levels[k], side));
        assert(level_wf(joined, side));
        assert forall|i: int| 0 <= i < after.len() implies level_wf(#[trigger] after[i], side) by {
            if i != k {
                assert(after[i] == levels[i]);
            }
        }
        assert forall|i: int, j: int| 0 <= i < j < after.len() implies better(
            side,
            (#[trigger] after[i]).price,
            (#[trigger] after[j]).price,
        ) by {
            assert(after[i].price == levels[i].price);
            assert(after[j].price == levels[j].price);
        }
    } else {
        let alone = LimitView { price, orders: seq![order] };
        assert(level_wf(alone, side));
        assert forall|i: int| 0 <= i < after.len() implies level_wf(#[trigger] after[i], side) by {
            if i < k {
                assert(after[i] == levels[i]);
            } else if i > k {
                assert(after[i] == levels[i - 1]);
            }
        }
        assert forall|i: int, j: int| 0 <= i < j < after.len() implies better(
            side,
            (#[trigger] after[i]).price,
            (#[trigger] after[j]).price,
        ) by {
            if j < k {
                assert(after[i] == levels[i] && after[j] == levels[j]);
            } else if j == k {
                assert(after[i] == levels[i]);
            } else if i < k {
                assert(after[i] == levels[i] && after[j] == levels[j - 1]);
            } else if i == k {
                assert(after[j] == levels[j - 1]);
                assert(!better(side, levels[k].price, price));
                assert(levels[k].price != price);
                if j - 1 > k {
                    assert(better(side, levels[k].price, levels[j - 1].price));
                }
            } else {
                assert(after[i] == levels[i - 1] && after[j] == levels[j - 1]);
            }
        }
    }
}

/// A market order leaves a well-formed book well formed.
pub proof fn lemma_market_filled_wf(book: OrderbookView, order: OrderView)
    requires
        book_wf(book),
    ensures
        book_wf(market_filled(book, order)),
{
    let taker = order.bid_or_ask;
    let side = taker.spec_opposite();
    lemma_sweep_wf(book.side(side), taker, None, order.size, side);
    lemma_sweep_keeps_prices(book.side(side), taker, None, order.size);
    lemma_prices_keep_uncrossed(book, market_filled(book, order));
}

/// A limit order leaves a well-formed book well formed: no level is left
/// empty, no filled order rests, both sides stay sorted, and the best bid
/// stays below the best ask.
pub proof fn lemma_limit_placed_wf(book: OrderbookView, price: PriceView, order: OrderView)
    requires
        book_wf(book),
    ensures
        book_wf(limit_placed(book, price, order)),
{
    let taker = order.bid_or_ask;
    let side = taker.spec_opposite();
    let swept = taking(book, Some(price), order);
    let taken = book.with_side(side, swept.levels);
    lemma_sweep_wf(book.side(side), taker, Some(price), order.size, side);
    lemma_sweep_keeps_prices(book.side(side), taker, Some(price), order.size);
    lemma_prices_keep_uncrossed(book, taken);
    if swept.remaining > 0 {
        let remainder = OrderView { size: swept.remaining, ..order };
        let own = rested(book.side(taker), taker, price, remainder);
        lemma_rested_wf(book.side(taker), taker, price, remainder);
        lemma_unfilled_leaves_no_crossing(book.side(side), taker, Some(price), order.size);
        if swept.levels.len() > 0 {
            assert(!crosses(taker, Some(price), swept.levels[0].price));
        }
    }
}

/// The first level with an identifier stands where a scan from the front
/// first meets a level that holds it.
pub proof fn lemma_first_level_with_is(levels: Seq<LimitView>, id: u64, i: int)
    requires
        0 <= i <= levels.len(),
        forall|j: int| 0 <= j < i ==> !holds_id((#[trigger] levels[j]).orders, id),
        i < levels.len() ==> holds_id(levels[i].orders, id),
    ensures
        first_level_with(levels, id) == i,
    decreases i,
{
    if i > 0 {
        let tail = levels.drop_first();
        assert(forall|j: int| 0 <= j < tail.len() ==> tail[j] == levels[j + 1]);
        assert(!holds_id(levels[0].orders, id));
        lemma_first_level_with_is(tail, id, i - 1);
    }
}

/// No level in front of the first one with an identifier holds it, and
/// that one does.
pub proof fn lemma_first_level_with(levels: Seq<LimitView>, id: u64)
    ensures
        0 <= first_level_with(levels, id) <= levels.len(),
        forall|j: int|
            0 <= j < first_level_with(levels, id) ==> !holds_id((#[trigger] levels[j]).orders, id),
        first_level_with(levels, id) < levels.len() ==> holds_id(
            levels[first_level_with(levels, id)].orders,
            id,
        ),
    decreases levels.len(),
{
    if levels.len() == 0 || holds_id(levels[0].orders, id) {
    } else {
        let tail = levels.drop_first();
        lemma_first_level_with(tail, id);
        assert forall|j: int| 0 <= j < first_level_with(levels, id) implies !holds_id(
            (#[trigger] levels[j]).orders,
            id,
        ) by {
            if j > 0 {
                assert(levels[j] == tail[j - 1]);
            }
        }
        assert(first_level_with(levels, id) < levels.len() ==> levels[first_level_with(
            levels,
            id,
        )] == tail[first_level_with(tail, id)]);
    }
}

/// A cancellation leaves a well-formed side well formed and makes no
/// price level.
pub proof fn lemma_cancelled_wf(levels: Seq<LimitView>, side: BidOrAsk, id: u64)
    requires
        side_wf(levels, side),
    ensures
        side_wf(cancelled(levels, id), side),
        forall|i: int|
            0 <= i < cancelled(levels, id).len() ==> has_price(
                levels,
                (#[trigger] cancelled(levels, id)[i]).price,
            ),
{
    let i = first_level_with(levels, id);
    let after = cancelled(levels, id);
    lemma_first_level_with(levels, id);
    if i < levels.len() {
        let k = crate::limit::first_with_id(levels[i].orders, id);
        let left = without_first(levels[i].orders, id);
        lemma_first_with_id(levels[i].orders, id);
        assert(level_wf(levels[i], side));
        if left.len() == 0 {
            assert forall|j: int| 0 <= j < after.len() implies level_wf(
                #[trigger] after[j],
                side,
            ) && has_price(levels, after[j].price) by {
                if j < i {
                    assert(after[j] == levels[j]);
                } else {
                    assert(after[j] == levels[j + 1]);
                }
            }
            assert forall|a: int, b: int| 0 <= a < b < after.len() implies better(
                side,
                (#[trigger] after[a]).price,
                (#[trigger] after[b]).price,
            ) by {
                let a0 = if a < i {
                    a
                } else {
                    a + 1
                };
                let b0 = if b < i {
                    b
                } else {
                    b + 1
                };
                assert(after[a] == levels[a0] && after[b] == levels[b0]);
            }
        } else {
            assert forall|j: int| 0 <= j < after.len() implies level_wf(
                #[trigger] after[j],
                side,
            ) && has_price(levels, after[j].price) by {
                assert(after[j].price == levels[j].price);
                if j == i {
                    assert forall|m: int| 0 <= m < left.len() implies (#[trigger] left[m]).size
                        > 0 && left[m].bid_or_ask == side by {
                        let m0 = if m < k {
                            m
                        } else {
                            m + 1
                        };
                        assert(left[m] == levels[i].orders[m0]);
                    }
                } else {
                    assert(after[j] == levels[j]);
                }
            }
            assert forall|a: int, b: int| 0 <= a < b < after.len() implies better(
                side,
                (#[trigger] after[a]).price,
                (#[trigger] after[b]).price,
            ) by {
                assert(after[a].price == levels[a].price && after[b].price == levels[b].price);
            }
        }
    } else {
        assert forall|j: int| 0 <= j < after.len() implies has_price(
            levels,
            (#[trigger] after[j]).price,
        ) by {
            assert(levels[j].price == after[j].price);
        }
    }
}

/// A cancellation leaves a well-formed book well formed.
pub proof fn lemma_order_cancelled_wf(book: OrderbookView, id: u64)
    requires
        book_wf(book),
    ensures
        book_wf(order_cancelled(book, id)),
        !book_holds(book, id) ==> order_cancelled(book, id) == book,
{
    lemma_cancelled_wf(book.bids, BidOrAsk::Bid, id);
    lemma_cancelled_wf(book.asks, BidOrAsk::Ask, id);
    lemma_prices_keep_uncrossed(book, order_cancelled(book, id));
}

/// The depth of a side with one more level.
pub proof fn lemma_depth_insert(levels: Seq<LimitView>, k: int, level: LimitView)
    requires
        0 <= k <= levels.len(),
    ensures
        depth(levels.insert(k, level)) == depth(levels) + volume(level.orders),
    decreases k,
{
    let after = levels.insert(k, level);
    if k == 0 {
        assert(after.drop_first() =~= levels);
    } else {
        assert(after.drop_first() =~= levels.drop_first().insert(k - 1, level));
        lemma_depth_insert(levels.drop_first(), k - 1, level);
    }
}

/// The depth of a side with one level changed.
pub proof fn lemma_depth_update(levels: Seq<LimitView>, k: int, level: LimitView)
    requires
        0 <= k < levels.len(),
    ensures
        depth(levels.update(k, level)) + volume(levels[k].orders) == depth(levels) + volume(
            level.orders,
        ),
    decreases k,
{
    let after = levels.update(k, level);
    if k == 0 {
        assert(after.drop_first() =~= levels.drop_first());
    } else {
        assert(after.drop_first() =~= levels.drop_first().update(k - 1, level));
        lemma_depth_update(levels.drop_first(), k - 1, level);
    }
}

/// An order that comes to rest adds its size to the depth of its side.
pub proof fn lemma_rested_depth(
    levels: Seq<LimitView>,
    side: BidOrAsk,
    price: PriceView,
    order: OrderView,
)
    ensures
        depth(rested(levels, side, price, order)) == depth(levels) + order.size,
{
    let k = better_levels(levels, side, price);
    lemma_better_levels(levels, side, price);
    if k < levels.len() && levels[k].price == price {
        lemma_depth_update(levels, k, LimitView { price, orders: levels[k].orders.push(order) });
        lemma_volume_push(levels[k].orders, order);
    } else {
        lemma_depth_insert(levels, k, LimitView { price, orders: seq![order] });
        assert(seq![order] =~= Seq::<OrderView>::empty().push(order));
        lemma_volume_push(Seq::<OrderView>::empty(), order);
    }
}

/// Volume is conserved by a market order: what rested on the opposite side
/// before is what rests there after and what the fills report; the order's
/// own side is left as it was; and the order is split into what was filled
/// and what remains.
pub proof fn lemma_market_conserves(book: OrderbookView, order: OrderView)
    ensures
        depth(book.side(order.bid_or_ask.spec_opposite())) == depth(
            market_filled(book, order).side(order.bid_or_ask.spec_opposite()),
        ) + total_quantity(market_outcome(book, order).fills),
        market_filled(book, order).side(order.bid_or_ask) == book.side(order.bid_or_ask),
        total_quantity(market_outcome(book, order).fills) == market_outcome(
            book,
            order,
        ).filled_size,
        market_outcome(book, order).filled_size + market_outcome(book, order).remaining_size
            == order.size,
        market_outcome(book, order).filled_size == matched(
            order.size,
            depth(book.side(order.bid_or_ask.spec_opposite())),
        ),
{
    lemma_sweep_conserves(
        book.side(order.bid_or_ask.spec_opposite()),
        order.bid_or_ask,
        None,
        order.size,
    );
}

/// Volume is conserved by a limit order: what rested on the opposite side
/// before is what rests there after and what the fills report; the order's
/// own side grows by what remains of the order; and the order is split
/// into what was filled and what remains.
pub proof fn lemma_limit_conserves(book: OrderbookView, price: PriceView, order: OrderView)
    ensures
        depth(book.side(order.bid_or_ask.spec_opposite())) == depth(
            limit_placed(book, price, order).side(order.bid_or_ask.spec_opposite()),
        ) + total_quantity(limit_outcome(book, price, order).fills),
        depth(limit_placed(book, price, order).side(order.bid_or_ask)) == depth(
            book.side(order.bid_or_ask),
        ) + limit_outcome(book, price, order).remaining_size,
        total_quantity(limit_outcome(book, price, order).fills) == limit_outcome(
            book,
            price,
            order,
        ).filled_size,
        limit_outcome(book, price, order).filled_size + limit_outcome(
            book,
            price,
            order,
        ).remaining_size == order.size,
{
    let swept = taking(book, Some(price), order);
    lemma_sweep_conserves(
        book.side(order.bid_or_ask.spec_opposite()),
        order.bid_or_ask,
        Some(price),
        order.size,
    );
    if swept.remaining > 0 {
        lemma_rested_depth(
            book.side(order.bid_or_ask),
            order.bid_or_ask,
            price,
            OrderView { size: swept.remaining, ..order },
        );
    }
}

/// Every fill of a sweep is at the price of a level of the side, and
/// trades something.
pub proof fn lemma_sweep_fill_prices(
    levels: Seq<LimitView>,
    taker: BidOrAsk,
    limit: Option<PriceView>,
    amount: nat,
)
    ensures
        forall|f: int|
            0 <= f < sweep(levels, taker, limit, amount).fills.len() ==> has_price(
                levels,
                (#[trigger] sweep(levels, taker, limit, amount).fills[f]).price,
            ) && crosses(taker, limit, sweep(levels, taker, limit, amount).fills[f].price)
                && sweep(levels, taker, limit, amount).fills[f].quantity > 0,
    decreases levels.len(),
{
    let fills = sweep(levels, taker, limit, amount).fills;
    if amount == 0 || levels.len() == 0 || !crosses(taker, limit, levels[0].price) {
    } else {
        let head = levels[0];
        let tail = levels.drop_first();
        let here = level_fills(head.orders, head.price, amount);
        let rest = sweep(tail, taker, limit, leftover(amount, volume(head.orders))).fills;
        lemma_level_fills_at_price(head.orders, head.price, amount);
        lemma_sweep_fill_prices(tail, taker, limit, leftover(amount, volume(head.orders)));
        assert forall|f: int| 0 <= f < fills.len() implies has_price(
            levels,
            (#[trigger] fills[f]).price,
        ) && crosses(taker, limit, fills[f].price) && fills[f].quantity > 0 by {
            if f < here.len() {
                assert(fills[f] == here[f]);
                assert(levels[0].price == fills[f].price);
            } else {
                assert(fills[f] == rest[f - here.len()]);
                assert(has_price(tail, rest[f - here.len()].price));
                let j = choose|j: int|
                    0 <= j < tail.len() && (#[trigger] tail[j]).price == rest[f
                        - here.len()].price;
                assert(levels[j + 1].price == fills[f].price);
            }
        }
    }
}

/// Best price first: whenever a sweep trades at a price, it leaves no
/// level whose price has priority over that price.
pub proof fn lemma_best_price_first(
    levels: Seq<LimitView>,
    taker: BidOrAsk,
    limit: Option<PriceView>,
    amount: nat,
)
    requires
        side_wf(levels, taker.spec_opposite()),
    ensures
        forall|f: int, i: int|
            0 <= f < sweep(levels, taker, limit, amount).fills.len() && 0 <= i < levels.len()
                && better(
                taker.spec_opposite(),
                (#[trigger] levels[i]).price,
                (#[trigger] sweep(levels, taker, limit, amount).fills[f]).price,
            ) ==> !has_price(sweep(levels, taker, limit, amount).levels, levels[i].price),
    decreases levels.len(),
{
    let side = taker.spec_opposite();
    let swept = sweep(levels, taker, limit, amount);
    if amount == 0 || levels.len() == 0 || !crosses(taker, limit, levels[0].price) {
    } else {
        let head = levels[0];
        let tail = levels.drop_first();
        let after = leftover(amount, volume(head.orders));
        let here = level_fills(head.orders, head.price, amount);
        let rest = sweep(tail, taker, limit, after);
        assert(forall|j: int| 0 <= j < tail.len() ==> tail[j] == levels[j + 1]);
        lemma_level_fills_at_price(head.orders, head.price, amount);
        lemma_best_price_first(tail, taker, limit, after);
        lemma_sweep_keeps_prices(tail, taker, limit, after);
        assert forall|f: int, i: int|
            0 <= f < swept.fills.len() && 0 <= i < levels.len() && better(
                side,
                (#[trigger] levels[i]).price,
                (#[trigger] swept.fills[f]).price,
            ) implies !has_price(swept.levels, levels[i].price) by {
            if f < here.len() {
                assert(swept.fills[f] == here[f]);
                if i > 0 {
                    assert(better(side, levels[0].price, levels[i].price));
                }
            } else {
                assert(swept.fills[f] == rest.fills[f - here.len()]);
                assert(after > 0);
                if live_orders(matched_orders(head.orders, amount)).len() > 0 {
                    lemma_survivor_means_filled(head.orders, amount);
                }
                assert(swept.levels == rest.levels);
                if i == 0 {
                    if has_price(rest.levels, head.price) {
                        let j = choose|j: int|
                            0 <= j < rest.levels.len() && (#[trigger] rest.levels[j]).price
                                == head.price;
                        assert(has_price(tail, rest.levels[j].price));
                        let k = choose|k: int|
                            0 <= k < tail.len() && (#[trigger] tail[k]).price
                                == rest.levels[j].price;
                        assert(better(side, levels[0].price, levels[k + 1].price));
                    }
                } else {
                    assert(levels[i] == tail[i - 1]);
                }
            }
        }
    }
}

/// A level whose orders are all consumed leaves the side: after a sweep
/// that takes at least the volume of the best level, no level stands at
/// that level's price, and the side is what the sweep of the other levels
/// with the rest of the incoming order leaves.
pub proof fn lemma_used_up_level_leaves(
    levels: Seq<LimitView>,
    taker: BidOrAsk,
    limit: Option<PriceView>,
    amount: nat,
)
    requires
        side_wf(levels, taker.spec_opposite()),
        levels.len() > 0,
        amount > 0,
        amount >= volume(levels[0].orders),
        crosses(taker, limit, levels[0].price),
    ensures
        sweep(levels, taker, limit, amount).levels == sweep(
            levels.drop_first(),
            taker,
            limit,
            leftover(amount, volume(levels[0].orders)),
        ).levels,
        !has_price(sweep(levels, taker, limit, amount).levels, levels[0].price),
{
    let side = taker.spec_opposite();
    let head = levels[0];
    let tail = levels.drop_first();
    let rest = sweep(tail, taker, limit, leftover(amount, volume(head.orders))).levels;
    lemma_used_up(head.orders, amount);
    lemma_sweep_keeps_prices(tail, taker, limit, leftover(amount, volume(head.orders)));
    if has_price(rest, head.price) {
        let j = choose|j: int| 0 <= j < rest.len() && (#[trigger] rest[j]).price == head.price;
        assert(has_price(tail, rest[j].price));
        let k = choose|k: int| 0 <= k < tail.len() && (#[trigger] tail[k]).price == rest[j].price;
        assert(tail[k] == levels[k + 1]);
        assert(better(side, levels[0].price, levels[k + 1].price));
    }
}

} // verus!
