//! The engine: one book per trading pair, and the operations that callers
//! reach the books through.

use crate::error::EngineError;
use crate::fill::FillOutcome;
use crate::order::Order;
use crate::orderbook::{
    book_holds, book_wf, limit_outcome, limit_placed, market_filled, market_outcome,
    order_cancelled, Orderbook, OrderbookView,
};
use crate::price::Price;
use vstd::prelude::*;
use vstd::string::*;

verus! {

/// The key of an instrument: a base symbol and a quote symbol, as in
/// `BTC_USDT`.
#[derive(Debug, Eq, PartialEq, Hash, Clone)]
pub struct TradingPair {
    base: String,
    quote: String,
}

/// The mathematical content of a [`TradingPair`].
pub struct TradingPairView {
    pub base: Seq<char>,
    pub quote: Seq<char>,
}

impl View for TradingPair {
    type V = TradingPairView;

    closed spec fn view(&self) -> TradingPairView {
        TradingPairView { base: self.base@, quote: self.quote@ }
    }
}

impl TradingPair {
    /// The pair of `base` and `quote`.
    pub fn new(base: String, quote: String) -> (r: TradingPair)
        ensures
            r@ == (TradingPairView { base: base@, quote: quote@ }),
    {
        TradingPair { base, quote }
    }

    /// The pair's name: the base symbol, an underscore, the quote symbol.
    pub fn to_string(self) -> (r: String)
        ensures
            r@ == self@.base + seq!['_'] + self@.quote,
    {
        let mut name: String = self.base;
        name.append("_");
        name.append(self.quote.as_str());
        proof {
            reveal_strlit("_");
            assert("_"@ =~= seq!['_']);
        }
        name
    }

    /// The base symbol.
    pub fn base(&self) -> (r: &str)
        ensures
            r@ == self@.base,
    {
        self.base.as_str()
    }

    /// The quote symbol.
    pub fn quote(&self) -> (r: &str)
        ensures
            r@ == self@.quote,
    {
        self.quote.as_str()
    }

    /// Whether both pairs name the same instrument.
    pub fn same_as(&self, other: &TradingPair) -> (r: bool)
        ensures
            r == (self@ == other@),
    {
        self.base == other.base && self.quote == other.quote
    }
}

/// The pairs of a vector, each by its content.
pub open spec fn pair_views(pairs: Seq<TradingPair>) -> Seq<TradingPairView> {
    pairs.map_values(|p: TradingPair| p@)
}

/// The first position at which `pair` stands in a sequence of pairs; the
/// length of the sequence if it stands nowhere.
pub open spec fn position_of(pairs: Seq<TradingPairView>, pair: TradingPairView) -> int
    decreases pairs.len(),
{
    if pairs.len() == 0 || pairs[0] == pair {
        0
    } else {
        1 + position_of(pairs.drop_first(), pair)
    }
}

/// The books of all registered instruments.
#[derive(Debug)]
pub struct MatchingEngine {
    pairs: Vec<TradingPair>,
    orderbooks: Vec<Orderbook>,
}

impl View for MatchingEngine {
    type V = Map<TradingPairView, OrderbookView>;

    closed spec fn view(&self) -> Map<TradingPairView, OrderbookView> {
        Map::new(
            |pair: TradingPairView| position_of(pair_views(self.pairs@), pair) < self.pairs@.len(),
            |pair: TradingPairView| self.orderbooks@[position_of(pair_views(self.pairs@), pair)]@,
        )
    }
}

impl MatchingEngine {
    /// Whether the engine holds its invariant: no pair is registered
    /// twice, there is a book for each registered pair, and every book is
    /// well formed.
    pub closed spec fn wf(&self) -> bool {
        &&& self.pairs@.len() == self.orderbooks@.len()
        &&& forall|i: int|
            0 <= i < self.orderbooks@.len() ==> book_wf((#[trigger] self.orderbooks@[i])@)
        &&& forall|i: int, j: int|
            0 <= i < j < self.pairs@.len() ==> (#[trigger] pair_views(self.pairs@)[i])
                != (#[trigger] pair_views(self.pairs@)[j])
    }

    /// The position of the book of `pair`.
    fn find(&self, pair: &TradingPair) -> (r: Option<usize>)
        ensures
            match r {
                Some(i) => i < self.pairs@.len() && i == position_of(
                    pair_views(self.pairs@),
                    pair@,
                ),
                None => position_of(pair_views(self.pairs@), pair@) == self.pairs@.len(),
            },
    {
        let mut i: usize = 0;
        while i < self.pairs.len()
            invariant
                i <= self.pairs@.len(),
                forall|j: int| 0 <= j < i ==> (#[trigger] pair_views(self.pairs@)[j]) != pair@,
            decreases self.pairs@.len() - i,
        {
            if self.pairs[i].same_as(pair) {
                proof {
                    lemma_position_of_is(pair_views(self.pairs@), pair@, i as int);
                }
                return Some(i);
            }
            i = i + 1;
        }
        proof {
            lemma_position_of_is(pair_views(self.pairs@), pair@, i as int);
        }
        None
    }

    /// An engine without instruments.
    pub fn new() -> (r: MatchingEngine)
        ensures
            r.wf(),
            r@ == Map::<TradingPairView, OrderbookView>::empty(),
    {
        let r = MatchingEngine { pairs: Vec::new(), orderbooks: Vec::new() };
        assert(r@ =~= Map::<TradingPairView, OrderbookView>::empty());
        r
    }

    /// Registers `pair` with an empty book. A pair that is registered
    /// already keeps its book and its resting orders; the result tells
    /// whether the pair is new.
    pub fn add_new_pair(&mut self, pair: TradingPair) -> (created: bool)
        requires
            old(self).wf(),
        ensures
            final(self).wf(),
            created == !old(self)@.contains_key(pair@),
            created ==> final(self)@ == old(self)@.insert(
                pair@,
                OrderbookView { bids: Seq::empty(), asks: Seq::empty() },
            ),
            !created ==> final(self)@ == old(self)@,
    {
        match self.find(&pair) {
            Some(_) => false,
            None => {
                let ghost key = pair@;
                self.pairs.push(pair);
                self.orderbooks.push(Orderbook::new());
                proof {
                    assert(pair_views(self.pairs@) =~= pair_views(old(self).pairs@).push(key));
                    lemma_position_of(pair_views(old(self).pairs@), key);
                    lemma_book_added(*old(self), *self, key);
                }
                true
            },
        }
    }

    /// The book of `pair`, if the pair is registered.
    pub fn orderbook(&self, pair: &TradingPair) -> (r: Option<&Orderbook>)
        requires
            self.wf(),
        ensures
            match r {
                Some(book) => self@.contains_key(pair@) && book@ == self@[pair@] && book.wf(),
                None => !self@.contains_key(pair@),
            },
    {
        match self.find(pair) {
            Some(i) => Some(&self.orderbooks[i]),
            None => None,
        }
    }

    /// Places a limit order in the book of `pair`: it is matched against
    /// the opposite side at the prices that cross, and what remains of it
    /// rests at `price`. Without a book for `pair` nothing changes.
    pub fn place_limit_order(&mut self, pair: TradingPair, price: Price, order: Order) -> (r:
        Result<FillOutcome, EngineError>)
        requires
            old(self).wf(),
        ensures
            final(self).wf(),
            !old(self)@.contains_key(pair@) ==> r is Err && r->Err_0
                == EngineError::UnknownInstrument && final(self)@ == old(self)@,
            old(self)@.contains_key(pair@) ==> r is Ok && r->Ok_0@ == limit_outcome(
                old(self)@[pair@],
                price@,
                order@,
            ) && final(self)@ == old(self)@.insert(
                pair@,
                limit_placed(old(self)@[pair@], price@, order@),
            ),
    {
        match self.find(&pair) {
            Some(i) => {
                let outcome: FillOutcome = self.orderbooks[i].add_order(price, order);
                proof {
                    lemma_book_replaced(*old(self), *self, pair@, i as int);
                }
                Ok(outcome)
            },
            None => Err(EngineError::UnknownInstrument),
        }
    }

    /// Matches a market order against the book of `pair`. What the book
    /// cannot fill is reported as remaining and rests nowhere. Without a
    /// book for `pair` nothing changes.
    pub fn place_market_order(&mut self, pair: TradingPair, order: Order) -> (r: Result<
        FillOutcome,
        EngineError,
    >)
        requires
            old(self).wf(),
        ensures
            final(self).wf(),
            !old(self)@.contains_key(pair@) ==> r is Err && r->Err_0
                == EngineError::UnknownInstrument && final(self)@ == old(self)@,
            old(self)@.contains_key(pair@) ==> r is Ok && r->Ok_0@ == market_outcome(
                old(self)@[pair@],
                order@,
            ) && final(self)@ == old(self)@.insert(
                pair@,
                market_filled(old(self)@[pair@], order@),
            ),
    {
        match self.find(&pair) {
            Some(i) => {
                let ghost incoming = order@;
                let mut order: Order = order;
                let outcome: FillOutcome = self.orderbooks[i].fill_market_order(&mut order);
                proof {
                    lemma_book_replaced(*old(self), *self, pair@, i as int);
                }
                Ok(outcome)
            },
            None => Err(EngineError::UnknownInstrument),
        }
    }

    /// Cancels the resting order `order_id` in the book of `pair`. Without
    /// a book for `pair`, or without such an order in it, nothing changes.
    pub fn cancel_order(&mut self, pair: TradingPair, order_id: u64) -> (r: Result<
        bool,
        EngineError,
    >)
        requires
            old(self).wf(),
        ensures
            final(self).wf(),
            !old(self)@.contains_key(pair@) ==> r is Err && r->Err_0
                == EngineError::UnknownInstrument && final(self)@ == old(self)@,
            old(self)@.contains_key(pair@) && !book_holds(old(self)@[pair@], order_id) ==> r is Err
                && r->Err_0 == EngineError::OrderNotFound && final(self)@ == old(self)@,
            old(self)@.contains_key(pair@) && book_holds(old(self)@[pair@], order_id) ==> r is Ok
                && r->Ok_0 && final(self)@ == old(self)@.insert(
                pair@,
                order_cancelled(old(self)@[pair@], order_id),
            ),
    {
        match self.find(&pair) {
            Some(i) => {
                let found: bool = self.orderbooks[i].cancel_order(order_id);
                proof {
                    lemma_book_replaced(*old(self), *self, pair@, i as int);
                }
                if found {
                    Ok(true)
                } else {
                    proof {
                        assert(self@ =~= old(self)@);
                    }
                    Err(EngineError::OrderNotFound)
                }
            },
            None => Err(EngineError::UnknownInstrument),
        }
    }
}

/// Replacing the book of a registered pair changes what the engine holds
/// for that pair and for no other.
proof fn lemma_book_replaced(
    before: MatchingEngine,
    after: MatchingEngine,
    pair: TradingPairView,
    i: int,
)
    requires
        after.pairs@ == before.pairs@,
        before.pairs@.len() == before.orderbooks@.len(),
        after.orderbooks@.len() == before.orderbooks@.len(),
        0 <= i < before.pairs@.len(),
        i == position_of(pair_views(before.pairs@), pair),
        forall|j: int|
            0 <= j < before.orderbooks@.len() && j != i ==> after.orderbooks@[j]
                == before.orderbooks@[j],
    ensures
        before@.contains_key(pair),
        before@[pair] == before.orderbooks@[i]@,
        after@ == before@.insert(pair, after.orderbooks@[i]@),
{
    let views = pair_views(before.pairs@);
    let target = before@.insert(pair, after.orderbooks@[i]@);
    lemma_position_of(views, pair);
    assert forall|p: TradingPairView|
        (#[trigger] after@.dom().contains(p)) == target.dom().contains(p) && (
        after@.dom().contains(p) ==> after@[p] == target[p]) by {
        lemma_position_of(views, p);
        let j = position_of(views, p);
        assert(after@.dom().contains(p) == (j < views.len()));
        assert(before@.dom().contains(p) == (j < views.len()));
        if j < views.len() {
            assert(after@[p] == after.orderbooks@[j]@);
            if p != pair {
                assert(j != i);
                assert(after.orderbooks@[j] == before.orderbooks@[j]);
                assert(before@[p] == before.orderbooks@[j]@);
            }
        }
    }
    assert(after@ =~= target);
}

/// Registering an unknown pair adds its book and changes no other.
proof fn lemma_book_added(before: MatchingEngine, after: MatchingEngine, pair: TradingPairView)
    requires
        before.pairs@.len() == before.orderbooks@.len(),
        position_of(pair_views(before.pairs@), pair) == before.pairs@.len(),
        pair_views(after.pairs@) == pair_views(before.pairs@).push(pair),
        after.orderbooks@.len() == before.orderbooks@.len() + 1,
        forall|j: int|
            0 <= j < before.orderbooks@.len() ==> after.orderbooks@[j] == before.orderbooks@[j],
    ensures
        !before@.contains_key(pair),
        after@ == before@.insert(pair, after.orderbooks@[before.orderbooks@.len() as int]@),
{
    let old_views = pair_views(before.pairs@);
    let views = pair_views(after.pairs@);
    let n = old_views.len() as int;
    let target = before@.insert(pair, after.orderbooks@[n]@);
    assert(views.len() == after.pairs@.len());
    assert forall|p: TradingPairView|
        (#[trigger] after@.dom().contains(p)) == target.dom().contains(p) && (
        after@.dom().contains(p) ==> after@[p] == target[p]) by {
        lemma_position_of(old_views, p);
        let j = position_of(old_views, p);
        if p == pair {
            lemma_position_of_is(views, p, n);
        } else if j < n {
            lemma_position_of_is(views, p, j);
            assert(after@[p] == after.orderbooks@[j]@);
            assert(before@[p] == before.orderbooks@[j]@);
        } else {
            lemma_position_of_is(views, p, n + 1);
        }
        assert(before@.dom().contains(p) == (j < n));
        assert(after@.dom().contains(p) == (position_of(views, p) < n + 1));
    }
    assert(after@ =~= target);
}

/// Every book of a well-formed engine is well formed.
pub proof fn lemma_books_wf(engine: MatchingEngine, pair: TradingPairView)
    requires
        engine.wf(),
        engine@.contains_key(pair),
    ensures
        book_wf(engine@[pair]),
{
    lemma_position_of(pair_views(engine.pairs@), pair);
}

/// A pair stands at the position where a scan from the front first meets
/// it.
pub proof fn lemma_position_of_is(pairs: Seq<TradingPairView>, pair: TradingPairView, i: int)
    requires
        0 <= i <= pairs.len(),
        forall|j: int| 0 <= j < i ==> (#[trigger] pairs[j]) != pair,
        i < pairs.len() ==> pairs[i] == pair,
    ensures
        position_of(pairs, pair) == i,
    decreases i,
{
    if i > 0 {
        let tail = pairs.drop_first();
        assert(forall|j: int| 0 <= j < tail.len() ==> tail[j] == pairs[j + 1]);
        assert(pairs[0] != pair);
        lemma_position_of_is(tail, pair, i - 1);
    }
}

/// No pair in front of the position of a pair equals it, and the pair at
/// the position does.
pub proof fn lemma_position_of(pairs: Seq<TradingPairView>, pair: TradingPairView)
    ensures
        0 <= position_of(pairs, pair) <= pairs.len(),
        forall|j: int| 0 <= j < position_of(pairs, pair) ==> (#[trigger] pairs[j]) != pair,
        position_of(pairs, pair) < pairs.len() ==> pairs[position_of(pairs, pair)] == pair,
    decreases pairs.len(),
{
    if pairs.len() == 0 || pairs[0] == pair {
    } else {
        let tail = pairs.drop_first();
        lemma_position_of(tail, pair);
        assert forall|j: int| 0 <= j < position_of(pairs, pair) implies (#[trigger] pairs[j])
            != pair by {
            if j > 0 {
                assert(pairs[j] == tail[j - 1]);
            }
        }
        assert(position_of(pairs, pair) < pairs.len() ==> pairs[position_of(pairs, pair)]
            == tail[position_of(tail, pair)]);
    }
}

} // verus!
