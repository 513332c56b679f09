//! Price levels: the orders resting at one price, first come first matched.

use crate::fill::{fill_views, total_quantity, traded, Fill, FillView};
use crate::order::{Order, OrderView};
use crate::price::{Price, PriceView};
use vstd::prelude::*;

verus! {

/// The mathematical content of a [`Limit`]: its price and its queue, the
/// order that arrived first in front.
pub struct LimitView {
    pub price: PriceView,
    pub orders: Seq<OrderView>,
}

/// The orders of a vector, each by its content.
pub open spec fn order_views(orders: Seq<Order>) -> Seq<OrderView> {
    orders.map_values(|o: Order| o@)
}

/// The total unfilled size of a queue; zero for an empty one.
pub open spec fn volume(orders: Seq<OrderView>) -> nat
    decreases orders.len(),
{
    if orders.len() == 0 {
        0
    } else {
        volume(orders.drop_last()) + orders.last().size
    }
}

/// What is left of `amount` once `consumed` units of it have been used.
pub open spec fn leftover(amount: nat, consumed: nat) -> nat {
    if amount > consumed {
        (amount - consumed) as nat
    } else {
        0
    }
}

/// The part of `amount` that `available` units can serve.
pub open spec fn matched(amount: nat, available: nat) -> nat {
    if amount > available {
        available
    } else {
        amount
    }
}

/// The quantity that an incoming order of `amount` units takes from the
/// order at position `i`: what is left of it after all orders in front,
/// capped by that order's size.
pub open spec fn taken_at(orders: Seq<OrderView>, amount: nat, i: int) -> nat {
    matched(leftover(amount, volume(orders.take(i))), orders[i].size)
}

/// The order at position `i` after an incoming order of `amount` units.
pub open spec fn matched_order_at(orders: Seq<OrderView>, amount: nat, i: int) -> OrderView {
    OrderView { size: (orders[i].size - taken_at(orders, amount, i)) as nat, ..orders[i] }
}

/// The queue after an incoming order of `amount` units was matched against
/// it: every order in its place, reduced by what was taken from it.
pub open spec fn matched_orders(orders: Seq<OrderView>, amount: nat) -> Seq<OrderView> {
    Seq::new(orders.len(), |i: int| matched_order_at(orders, amount, i))
}

/// What an incoming order of `amount` units takes from the order at
/// position `i`, as a fill at `price`.
pub open spec fn fill_at(orders: Seq<OrderView>, price: PriceView, amount: nat, i: int)
    -> FillView {
    FillView {
        counterparty_order_id: orders[i].id,
        price,
        quantity: taken_at(orders, amount, i),
    }
}

/// One fill per resting order, in queue order, empty ones included.
pub open spec fn fill_per_order(orders: Seq<OrderView>, price: PriceView, amount: nat) -> Seq<
    FillView,
> {
    Seq::new(orders.len(), |i: int| fill_at(orders, price, amount, i))
}

/// The fills of an incoming order of `amount` units against a queue at
/// `price`: one for each resting order that traded, in queue order.
pub open spec fn level_fills(orders: Seq<OrderView>, price: PriceView, amount: nat) -> Seq<
    FillView,
> {
    traded(fill_per_order(orders, price, amount))
}

/// The orders of a queue that still have something to fill, in queue order.
pub open spec fn live_orders(orders: Seq<OrderView>) -> Seq<OrderView> {
    orders.filter(|o: OrderView| o.size > 0)
}

/// The position of the first order of a queue that carries the identifier
/// `id`; the length of the queue if none does.
pub open spec fn first_with_id(orders: Seq<OrderView>, id: u64) -> int
    decreases orders.len(),
{
    if orders.len() == 0 || orders[0].id == id {
        0
    } else {
        1 + first_with_id(orders.drop_first(), id)
    }
}

/// Whether an order of the queue carries the identifier `id`.
pub open spec fn holds_id(orders: Seq<OrderView>, id: u64) -> bool {
    first_with_id(orders, id) < orders.len()
}

/// The queue without the first order that carries the identifier `id`.
pub open spec fn without_first(orders: Seq<OrderView>, id: u64) -> Seq<OrderView> {
    if holds_id(orders, id) {
        orders.remove(first_with_id(orders, id))
    } else {
        orders
    }
}

/// A price level of one side of the book.
#[derive(Debug)]
pub struct Limit {
    price: Price,
    orders: Vec<Order>,
}

impl View for Limit {
    type V = LimitView;

    closed spec fn view(&self) -> LimitView {
        LimitView { price: self.price@, orders: order_views(self.orders@) }
    }
}

impl Limit {
    /// An empty level at `price`.
    pub fn new(price: Price) -> (r: Limit)
        ensures
            r@ == (LimitView { price: price@, orders: Seq::<OrderView>::empty() }),
    {
        let r = Limit { price, orders: Vec::new() };
        assert(r@.orders =~= Seq::<OrderView>::empty());
        r
    }

    /// The price of the level.
    pub fn price(&self) -> (r: Price)
        ensures
            r@ == self@.price,
    {
        self.price
    }

    /// The queue, the order that arrived first in front.
    pub fn orders(&self) -> (r: &Vec<Order>)
        ensures
            order_views(r@) == self@.orders,
    {
        &self.orders
    }

    /// The number of orders in the queue.
    pub fn len(&self) -> (r: usize)
        ensures
            r == self@.orders.len(),
    {
        self.orders.len()
    }

    /// Whether the queue holds no order.
    pub fn is_empty(&self) -> (r: bool)
        ensures
            r == (self@.orders.len() == 0),
    {
        self.orders.len() == 0
    }

    /// Appends `order` to the queue; the volume grows by its size.
    pub fn add_order(&mut self, order: Order)
        ensures
            final(self)@ == (LimitView {
                price: old(self)@.price,
                orders: old(self)@.orders.push(order@),
            }),
            volume(final(self)@.orders) == volume(old(self)@.orders) + order@.size,
    {
        self.orders.push(order);
        proof {
            assert(order_views(self.orders@) =~= order_views(old(self).orders@).push(order@));
            lemma_volume_push(old(self)@.orders, order@);
        }
    }

    /// Matches `market_order` against the queue, front to back, until it is
    /// filled or the queue runs out, and reports each trade. Every order
    /// that is filled leaves the queue; the others keep their order.
    pub fn fill_order(&mut self, market_order: &mut Order) -> (fills: Vec<Fill>)
        ensures
            final(self)@.price == old(self)@.price,
            final(self)@.orders == live_orders(
                matched_orders(live_orders(old(self)@.orders), old(market_order)@.size),
            ),
            forall|k: int|
                0 <= k < final(self)@.orders.len() ==> (#[trigger] final(self)@.orders[k]).size
                    > 0,
            final(market_order)@ == (OrderView {
                size: leftover(old(market_order)@.size, volume(old(self)@.orders)),
                ..old(market_order)@
            }),
            fill_views(fills@) == level_fills(
                live_orders(old(self)@.orders),
                old(self)@.price,
                old(market_order)@.size,
            ),
            volume(final(self)@.orders) + total_quantity(fill_views(fills@)) == volume(
                old(self)@.orders,
            ),
            total_quantity(fill_views(fills@)) + final(market_order)@.size == old(
                market_order,
            )@.size,
    {
        self.prune();
        let ghost resting = self@.orders;
        let ghost amount = market_order@.size;
        let ghost incoming = market_order@;
        let ghost per_order = fill_per_order(resting, self@.price, amount);
        let price = self.price;
        let mut fills: Vec<Fill> = Vec::new();
        let mut i: usize = 0;
        proof {
            lemma_volume_live(old(self)@.orders);
            lemma_matched_volume(resting, amount);
            lemma_fills_total(resting, self@.price, amount);
            assert(per_order.take(0) =~= Seq::<FillView>::empty());
            assert(fill_views(fills@) =~= Seq::<FillView>::empty());
            lemma_traded_none(per_order.take(0));
            assert(resting.take(0) =~= Seq::<OrderView>::empty());
        }
        while i < self.orders.len() && !market_order.is_filled()
            invariant
                i <= self.orders.len(),
                self.orders@.len() == resting.len(),
                self.price == price,
                price@ == old(self)@.price,
                per_order == fill_per_order(resting, price@, amount),
                forall|j: int| 0 <= j < i ==> self.orders@[j]@ == matched_order_at(resting, amount, j),
                forall|j: int| i <= j < resting.len() ==> self.orders@[j]@ == resting[j],
                market_order@ == (OrderView {
                    size: leftover(amount, volume(resting.take(i as int))),
                    ..incoming
                }),
                fill_views(fills@) == traded(per_order.take(i as int)),
            decreases self.orders.len() - i,
        {
            let mut resting_order: Order = self.orders[i];
            let quantity: u64 = if market_order.size() >= resting_order.size() {
                resting_order.size()
            } else {
                market_order.size()
            };
            proof {
                lemma_volume_take_succ(resting, i as int);
                assert(quantity == taken_at(resting, amount, i as int));
            }
            resting_order.reduce(quantity);
            self.orders.set(i, resting_order);
            market_order.reduce(quantity);
            let ghost before = fills@;
            if quantity > 0 {
                fills.push(Fill { counterparty_order_id: resting_order.id(), price, quantity });
            }
            proof {
                let fill = fill_at(resting, price@, amount, i as int);
                assert(per_order.take(i + 1) =~= per_order.take(i as int).push(fill));
                lemma_traded_push(per_order.take(i as int), fill);
                if quantity > 0 {
                    assert(fill_views(fills@) =~= fill_views(before).push(fill));
                }
            }
            i = i + 1;
        }
        proof {
            let n = resting.len() as int;
            assert forall|j: int| i <= j < n implies self.orders@[j]@ == matched_order_at(
                resting,
                amount,
                j,
            ) by {
                lemma_volume_take_monotone(resting, i as int, j);
            }
            assert(self@.orders =~= matched_orders(resting, amount));
            assert(resting.take(n) =~= resting);
            lemma_volume_take_monotone(resting, i as int, n);
            assert forall|j: int| 0 <= j < per_order.skip(i as int).len() implies !((
            #[trigger] per_order.skip(i as int)[j]).quantity > 0) by {
                lemma_volume_take_monotone(resting, i as int, i + j);
            }
            lemma_traded_none(per_order.skip(i as int));
            lemma_traded_concat(per_order.take(i as int), per_order.skip(i as int));
            assert(per_order.take(i as int) + per_order.skip(i as int) =~= per_order);
            assert(traded(per_order.take(i as int)) + Seq::<FillView>::empty() =~= traded(
                per_order.take(i as int),
            ));
            lemma_volume_live(matched_orders(resting, amount));
            lemma_live_orders_are_live(matched_orders(resting, amount));
        }
        self.prune();
        fills
    }

    /// The position of the first order that carries the identifier `id`.
    pub fn find_order(&self, id: u64) -> (r: Option<usize>)
        ensures
            match r {
                Some(k) => holds_id(self@.orders, id) && k == first_with_id(self@.orders, id),
                None => !holds_id(self@.orders, id),
            },
    {
        let mut i: usize = 0;
        while i < self.orders.len()
            invariant
                i <= self.orders@.len(),
                forall|j: int| 0 <= j < i ==> (#[trigger] self@.orders[j]).id != id,
            decreases self.orders@.len() - i,
        {
            if self.orders[i].id() == id {
                proof {
                    lemma_first_with_id_is(self@.orders, id, i as int);
                }
                return Some(i);
            }
            i = i + 1;
        }
        proof {
            lemma_first_with_id_is(self@.orders, id, i as int);
        }
        None
    }

    /// Takes the first order that carries the identifier `id` out of the
    /// queue and returns it; the others keep their order.
    pub fn remove_order(&mut self, id: u64) -> (r: Option<Order>)
        ensures
            final(self)@.price == old(self)@.price,
            final(self)@.orders == without_first(old(self)@.orders, id),
            holds_id(old(self)@.orders, id) ==> r is Some && r->Some_0@ == old(self)@.orders[first_with_id(
                old(self)@.orders,
                id,
            )],
            !holds_id(old(self)@.orders, id) ==> r is None,
    {
        match self.find_order(id) {
            Some(k) => {
                let order: Order = self.orders.remove(k);
                proof {
                    assert(order_views(self.orders@) =~= order_views(old(self).orders@).remove(
                        k as int,
                    ));
                }
                Some(order)
            },
            None => None,
        }
    }

    /// Drops the filled orders from the queue; the others keep their order.
    pub fn prune(&mut self)
        ensures
            final(self)@.price == old(self)@.price,
            final(self)@.orders == live_orders(old(self)@.orders),
    {
        let ghost resting = self@.orders;
        let mut first: usize = 0;
        while first < self.orders.len() && !self.orders[first].is_filled()
            invariant
                first <= self.orders.len(),
                resting == order_views(self.orders@),
                forall|j: int| 0 <= j < first ==> (#[trigger] resting[j]).size > 0,
            decreases self.orders.len() - first,
        {
            first = first + 1;
        }
        if first == self.orders.len() {
            proof {
                lemma_live_all(resting);
            }
            return ;
        }
        let mut kept: Vec<Order> = Vec::new();
        let mut i: usize = 0;
        proof {
            assert(resting.take(0) =~= Seq::<OrderView>::empty());
            lemma_live_none(resting.take(0));
            assert(order_views(kept@) =~= Seq::<OrderView>::empty());
        }
        while i < self.orders.len()
            invariant
                i <= self.orders.len(),
                resting == order_views(self.orders@),
                order_views(kept@) == live_orders(resting.take(i as int)),
            decreases self.orders.len() - i,
        {
            let order: Order = self.orders[i];
            let ghost before = kept@;
            if !order.is_filled() {
                kept.push(order);
            }
            proof {
                assert(resting.take(i + 1) =~= resting.take(i as int).push(order@));
                lemma_live_push(resting.take(i as int), order@);
                if order@.size > 0 {
                    assert(order_views(kept@) =~= order_views(before).push(order@));
                }
            }
            i = i + 1;
        }
        proof {
            assert(resting.take(resting.len() as int) =~= resting);
        }
        self.orders = kept;
    }

    /// The total unfilled size of the queue; zero when it is empty.
    pub fn total_volume(&self) -> (r: u128)
        ensures
            r == volume(self@.orders),
    {
        let ghost resting = self@.orders;
        let mut total: u128 = 0;
        let mut i: usize = 0;
        proof {
            assert(resting.take(0) =~= Seq::<OrderView>::empty());
        }
        while i < self.orders.len()
            invariant
                i <= self.orders.len(),
                resting == order_views(self.orders@),
                total == volume(resting.take(i as int)),
                total <= i * u64::MAX,
            decreases self.orders.len() - i,
        {
            proof {
                lemma_volume_take_succ(resting, i as int);
            }
            total = total + self.orders[i].size() as u128;
            i = i + 1;
        }
        proof {
            assert(resting.take(resting.len() as int) =~= resting);
        }
        total
    }
}

/// Appending an order adds its size to the volume.
pub proof fn lemma_volume_push(orders: Seq<OrderView>, order: OrderView)
    ensures
        volume(orders.push(order)) == volume(orders) + order.size,
{
    assert(orders.push(order).drop_last() =~= orders);
}

/// The volume in front of position `i + 1` is the volume in front of `i`
/// and the size of the order at `i`.
pub proof fn lemma_volume_take_succ(orders: Seq<OrderView>, i: int)
    requires
        0 <= i < orders.len(),
    ensures
        volume(orders.take(i + 1)) == volume(orders.take(i)) + orders[i].size,
{
    assert(orders.take(i + 1).drop_last() =~= orders.take(i));
}

/// The volume in front of a position grows with the position.
pub proof fn lemma_volume_take_monotone(orders: Seq<OrderView>, i: int, j: int)
    requires
        0 <= i <= j <= orders.len(),
    ensures
        volume(orders.take(i)) <= volume(orders.take(j)),
    decreases j - i,
{
    if i < j {
        lemma_volume_take_monotone(orders, i, j - 1);
        lemma_volume_take_succ(orders, j - 1);
    }
}

/// Dropping the filled orders leaves the volume as it is.
pub proof fn lemma_volume_live(orders: Seq<OrderView>)
    ensures
        volume(live_orders(orders)) == volume(orders),
    decreases orders.len(),
{
    if orders.len() == 0 {
        lemma_live_none(orders);
    } else {
        lemma_volume_live(orders.drop_last());
        lemma_live_push(orders.drop_last(), orders.last());
        assert(orders.drop_last().push(orders.last()) =~= orders);
        if orders.last().size > 0 {
            lemma_volume_push(live_orders(orders.drop_last()), orders.last());
        }
    }
}

/// A queue without a live order has none after pruning.
pub proof fn lemma_live_none(orders: Seq<OrderView>)
    requires
        forall|i: int| 0 <= i < orders.len() ==> (#[trigger] orders[i]).size == 0,
    ensures
        live_orders(orders) == Seq::<OrderView>::empty(),
    decreases orders.len(),
{
    reveal(Seq::filter);
    if orders.len() > 0 {
        lemma_live_none(orders.drop_last());
    }
}

/// A queue of live orders only is left as it is by pruning.
pub proof fn lemma_live_all(orders: Seq<OrderView>)
    requires
        forall|i: int| 0 <= i < orders.len() ==> (#[trigger] orders[i]).size > 0,
    ensures
        live_orders(orders) == orders,
    decreases orders.len(),
{
    reveal(Seq::filter);
    if orders.len() > 0 {
        lemma_live_all(orders.drop_last());
        assert(orders.drop_last().push(orders.last()) =~= orders);
    }
}

/// Pruning keeps an appended order exactly when it is live.
pub proof fn lemma_live_push(orders: Seq<OrderView>, order: OrderView)
    ensures
        live_orders(orders.push(order)) == if order.size > 0 {
            live_orders(orders).push(order)
        } else {
            live_orders(orders)
        },
{
    reveal(Seq::filter);
    assert(orders.push(order).drop_last() =~= orders);
}

/// Every order that pruning keeps is live.
pub proof fn lemma_live_orders_are_live(orders: Seq<OrderView>)
    ensures
        forall|i: int|
            0 <= i < live_orders(orders).len() ==> (#[trigger] live_orders(orders)[i]).size > 0,
    decreases orders.len(),
{
    reveal(Seq::filter);
    if orders.len() > 0 {
        lemma_live_orders_are_live(orders.drop_last());
    }
}

/// The first order with an identifier stands where a scan from the front
/// first meets the identifier.
pub proof fn lemma_first_with_id_is(orders: Seq<OrderView>, id: u64, i: int)
    requires
        0 <= i <= orders.len(),
        forall|j: int| 0 <= j < i ==> (#[trigger] orders[j]).id != id,
        i < orders.len() ==> orders[i].id == id,
    ensures
        first_with_id(orders, id) == i,
    decreases i,
{
    if i > 0 {
        let tail = orders.drop_first();
        assert(forall|j: int| 0 <= j < tail.len() ==> tail[j] == orders[j + 1]);
        assert(orders[0].id != id);
        lemma_first_with_id_is(tail, id, i - 1);
    }
}

/// No order in front of the first one with an identifier carries it, and
/// that one does.
pub proof fn lemma_first_with_id(orders: Seq<OrderView>, id: u64)
    ensures
        0 <= first_with_id(orders, id) <= orders.len(),
        forall|j: int| 0 <= j < first_with_id(orders, id) ==> (#[trigger] orders[j]).id != id,
        holds_id(orders, id) ==> orders[first_with_id(orders, id)].id == id,
    decreases orders.len(),
{
    if orders.len() == 0 || orders[0].id == id {
    } else {
        let tail = orders.drop_first();
        lemma_first_with_id(tail, id);
        assert forall|j: int| 0 <= j < first_with_id(orders, id) implies (
        #[trigger] orders[j]).id != id by {
            if j > 0 {
                assert(orders[j] == tail[j - 1]);
            }
        }
        assert(holds_id(orders, id) ==> orders[first_with_id(orders, id)] == tail[first_with_id(
            tail,
            id,
        )]);
    }
}

/// If an order is still live after a pass, the incoming order was filled.
pub proof fn lemma_survivor_means_filled(orders: Seq<OrderView>, amount: nat)
    requires
        live_orders(matched_orders(orders, amount)).len() > 0,
    ensures
        leftover(amount, volume(orders)) == 0,
{
    if leftover(amount, volume(orders)) > 0 {
        lemma_used_up(orders, amount);
    }
}

/// A pass takes from the queue exactly what it fills of the incoming
/// order: the volume before is the volume after and the matched quantity.
pub proof fn lemma_matched_volume(orders: Seq<OrderView>, amount: nat)
    ensures
        volume(matched_orders(orders, amount)) + matched(amount, volume(orders)) == volume(
            orders,
        ),
    decreases orders.len(),
{
    if orders.len() > 0 {
        let front = orders.drop_last();
        lemma_matched_volume(front, amount);
        assert forall|i: int| 0 <= i < front.len() implies matched_order_at(orders, amount, i)
            == matched_order_at(front, amount, i) by {
            assert(orders.take(i) =~= front.take(i));
        }
        assert(matched_orders(orders, amount).drop_last() =~= matched_orders(front, amount));
        assert(orders.take(orders.len() - 1) =~= front);
    }
}

/// The fills of a pass add up to the matched quantity.
pub proof fn lemma_fills_total(orders: Seq<OrderView>, price: PriceView, amount: nat)
    ensures
        total_quantity(level_fills(orders, price, amount)) == matched(amount, volume(orders)),
    decreases orders.len(),
{
    if orders.len() > 0 {
        let front = orders.drop_last();
        let last = fill_at(orders, price, amount, orders.len() - 1);
        lemma_fills_total(front, price, amount);
        assert forall|i: int| 0 <= i < front.len() implies fill_at(orders, price, amount, i)
            == fill_at(front, price, amount, i) by {
            assert(orders.take(i) =~= front.take(i));
        }
        assert(fill_per_order(orders, price, amount) =~= fill_per_order(front, price, amount).push(
            last,
        ));
        lemma_traded_push(fill_per_order(front, price, amount), last);
        assert(orders.take(orders.len() - 1) =~= front);
        if last.quantity > 0 {
            assert(level_fills(front, price, amount).push(last).drop_last() =~= level_fills(
                front,
                price,
                amount,
            ));
        }
    } else {
        lemma_traded_none(fill_per_order(orders, price, amount));
    }
}

/// An incoming order that is at least as large as the queue's volume
/// leaves no live order in it.
pub proof fn lemma_used_up(orders: Seq<OrderView>, amount: nat)
    requires
        amount >= volume(orders),
    ensures
        live_orders(matched_orders(orders, amount)) == Seq::<OrderView>::empty(),
{
    let after = matched_orders(orders, amount);
    assert forall|i: int| 0 <= i < after.len() implies (#[trigger] after[i]).size == 0 by {
        lemma_volume_take_succ(orders, i);
        lemma_volume_take_monotone(orders, i + 1, orders.len() as int);
        assert(orders.take(orders.len() as int) =~= orders);
    }
    lemma_live_none(after);
}

/// Every fill of a pass is at the level's price and trades something.
pub proof fn lemma_level_fills_at_price(orders: Seq<OrderView>, price: PriceView, amount: nat)
    ensures
        forall|i: int|
            0 <= i < level_fills(orders, price, amount).len() ==> (#[trigger] level_fills(
                orders,
                price,
                amount,
            )[i]).price == price && level_fills(orders, price, amount)[i].quantity > 0,
{
    lemma_traded_at_price(fill_per_order(orders, price, amount), price);
}

/// The fills that traded, of fills at one price, are at that price.
pub proof fn lemma_traded_at_price(fills: Seq<FillView>, price: PriceView)
    requires
        forall|i: int| 0 <= i < fills.len() ==> (#[trigger] fills[i]).price == price,
    ensures
        forall|i: int|
            0 <= i < traded(fills).len() ==> (#[trigger] traded(fills)[i]).price == price
                && traded(fills)[i].quantity > 0,
    decreases fills.len(),
{
    if fills.len() > 0 {
        let front = fills.drop_last();
        lemma_traded_at_price(front, price);
        lemma_traded_push(front, fills.last());
        assert(front.push(fills.last()) =~= fills);
        assert forall|i: int| 0 <= i < traded(fills).len() implies (#[trigger] traded(
            fills,
        )[i]).price == price && traded(fills)[i].quantity > 0 by {
            if i < traded(front).len() {
                assert(traded(fills)[i] == traded(front)[i]);
            }
        }
    } else {
        lemma_traded_none(fills);
    }
}

/// First come, first matched: an order gives something only after every
/// order in front of it has been filled completely.
pub proof fn lemma_fifo_priority(orders: Seq<OrderView>, amount: nat, i: int, j: int)
    requires
        0 <= i < j < orders.len(),
        taken_at(orders, amount, j) > 0,
    ensures
        taken_at(orders, amount, i) == orders[i].size,
        matched_orders(orders, amount)[i].size == 0,
{
    lemma_volume_take_succ(orders, i);
    lemma_volume_take_monotone(orders, i + 1, j);
}

/// The fills that traded, of a run with one more fill.
pub proof fn lemma_traded_push(fills: Seq<FillView>, fill: FillView)
    ensures
        traded(fills.push(fill)) == if fill.quantity > 0 {
            traded(fills).push(fill)
        } else {
            traded(fills)
        },
{
    reveal(Seq::filter);
    assert(fills.push(fill).drop_last() =~= fills);
}

/// Of fills that all traded nothing, none is left.
pub proof fn lemma_traded_none(fills: Seq<FillView>)
    requires
        forall|i: int| 0 <= i < fills.len() ==> !((#[trigger] fills[i]).quantity > 0),
    ensures
        traded(fills) == Seq::<FillView>::empty(),
    decreases fills.len(),
{
    reveal(Seq::filter);
    if fills.len() > 0 {
        lemma_traded_none(fills.drop_last());
    }
}

/// The fills that traded, of two runs one behind the other.
pub proof fn lemma_traded_concat(a: Seq<FillView>, b: Seq<FillView>)
    ensures
        traded(a + b) == traded(a) + traded(b),
{
    Seq::filter_distributes_over_add(a, b, |f: FillView| f.quantity > 0);
}

} // verus!
