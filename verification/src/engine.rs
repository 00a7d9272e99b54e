//! The matching engine: one order book per trading pair, with routing
//! by pair and nothing else.

use vstd::prelude::*;
use vstd::string::*;

use crate::orderbook::{BidorAsk, EngineError, Order, OrderBook, Price, SubmitReport};
use crate::orderbook::{cancel_post, snapshot_side_post, submit_post};

verus! {

/// A market identifier: the base asset quoted in the quote asset.
/// Used only as a map key; equality is equality of both names.
#[derive(Debug, Clone)]
pub struct TradingPair {
    pub base: String,
    pub quote: String,
}

/// Two pairs name the same market when both their names agree.
pub open spec fn pair_eq(a: TradingPair, b: TradingPair) -> bool {
    a.base@ == b.base@ && a.quote@ == b.quote@
}

impl TradingPair {
    pub fn new(base: String, quote: String) -> (r: TradingPair)
        ensures
            r.base@ == base@,
            r.quote@ == quote@,
    {
        TradingPair { base, quote }
    }

    /// A human-readable rendering of the pair.
    pub fn to_string(self) -> (r: String)
        ensures
            r@ == self.base@ + " to "@ + self.quote@,
    {
        self.base.concat(" to ").concat(self.quote.as_str())
    }

    /// Whether two pairs name the same market.
    pub fn same_pair(&self, other: &TradingPair) -> (r: bool)
        ensures
            r == pair_eq(*self, *other),
    {
        self.base == other.base && self.quote == other.quote
    }
}

/// One market: a trading pair and the order book that serves it.
#[derive(Debug)]
pub struct Market {
    pub pair: TradingPair,
    pub book: OrderBook,
}

/// Whether a market for the pair exists.
pub open spec fn has_market(markets: Seq<Market>, pair: TradingPair) -> bool {
    exists|i: int| 0 <= i < markets.len() && pair_eq((#[trigger] markets[i]).pair, pair)
}

/// Whether an order with the given id rests in the pair's book.
pub open spec fn order_resting(markets: Seq<Market>, pair: TradingPair, id: u64) -> bool {
    exists|i: int|
        0 <= i < markets.len() && pair_eq((#[trigger] markets[i]).pair, pair)
            && markets[i].book.resting(id)
}

/// Routes submissions and cancels to the order book of their trading
/// pair; owns one book per market and no matching logic of its own.
#[derive(Debug)]
pub struct MatchingEngine {
    pub orderbooks: Vec<Market>,
}

impl MatchingEngine {
    /// Every book is well formed and uncrossed, and no pair repeats.
    pub open spec fn wf(self) -> bool {
        &&& (forall|i: int|
            0 <= i < self.orderbooks@.len() ==> (#[trigger] self.orderbooks@[i]).book.wf()
                && self.orderbooks@[i].book.uncrossed())
        &&& (forall|i: int, j: int|
            0 <= i < j < self.orderbooks@.len() ==> !pair_eq(
                (#[trigger] self.orderbooks@[i]).pair,
                (#[trigger] self.orderbooks@[j]).pair,
            ))
    }

    /// An engine with no markets.
    pub fn new() -> (r: MatchingEngine)
        ensures
            r.wf(),
            r.orderbooks@.len() == 0,
    {
        MatchingEngine { orderbooks: Vec::new() }
    }

    /// The position of the pair's market, scanning from the front.
    fn find_market(&self, pair: &TradingPair) -> (r: Option<usize>)
        ensures
            r is Some ==> 0 <= r->Some_0 < self.orderbooks@.len() && pair_eq(
                self.orderbooks@[r->Some_0 as int].pair,
                *pair,
            ),
            r is None ==> !has_market(self.orderbooks@, *pair),
    {
        let mut i: usize = 0;
        while i < self.orderbooks.len()
            invariant
                i <= self.orderbooks@.len(),
                forall|j: int|
                    0 <= j < i ==> !pair_eq((#[trigger] self.orderbooks@[j]).pair, *pair),
            decreases self.orderbooks@.len() - i,
        {
            if self.orderbooks[i].pair.same_pair(pair) {
                return Some(i);
            }
            i = i + 1;
        }
        proof {
            if has_market(self.orderbooks@, *pair) {
                let j = choose|j: int|
                    0 <= j < self.orderbooks@.len() && pair_eq(
                        (#[trigger] self.orderbooks@[j]).pair,
                        *pair,
                    );
            }
        }
        None
    }

    /// Opens a new, empty order book for the pair; rejects a duplicate
    /// market without touching any state.
    pub fn add_new_market(&mut self, pair: TradingPair) -> (r: Result<(), EngineError>)
        requires
            old(self).wf(),
        ensures
            final(self).wf(),
            (r is Err) <==> has_market(old(self).orderbooks@, pair),
            r is Err ==> *final(self) == *old(self) && r->Err_0 == EngineError::MarketAlreadyExists,
            r is Ok ==> final(self).orderbooks@.len() == old(self).orderbooks@.len() + 1
                && (forall|i: int|
                0 <= i < old(self).orderbooks@.len() ==> #[trigger] final(self).orderbooks@[i]
                    == old(self).orderbooks@[i]) && pair_eq(
                final(self).orderbooks@.last().pair,
                pair,
            ) && final(self).orderbooks@.last().book.bids@.len() == 0 && final(self).orderbooks@.last().book.asks@.len() == 0,
    {
        match self.find_market(&pair) {
            Some(_) => Err(EngineError::MarketAlreadyExists),
            None => {
                let book = OrderBook::new();
                self.orderbooks.push(Market { pair, book });
                proof {
                    assert forall|i: int, j: int|
                        0 <= i < j < self.orderbooks@.len() implies !pair_eq(
                        (#[trigger] self.orderbooks@[i]).pair,
                        (#[trigger] self.orderbooks@[j]).pair,
                    ) by {
                        if j == self.orderbooks@.len() - 1 {
                            assert(self.orderbooks@[i] == old(self).orderbooks@[i]);
                            if pair_eq(self.orderbooks@[i].pair, self.orderbooks@[j].pair) {
                                assert(has_market(old(self).orderbooks@, pair));
                            }
                        }
                    }
                }
                Ok(())
            },
        }
    }

    /// Submits a limit order for the pair: the book assigns the id,
    /// matches while the order crosses, and rests any remainder at the
    /// given price. Fails with `UnknownMarket` if no market exists, and
    /// with `InvalidSize` for an order of size zero, touching nothing.
    pub fn place_limit_order(
        &mut self,
        pair: TradingPair,
        price: Price,
        order: Order,
    ) -> (r: Result<SubmitReport, EngineError>)
        requires
            old(self).wf(),
            forall|i: int|
                0 <= i < old(self).orderbooks@.len() ==> (#[trigger] old(self).orderbooks@[i]).book.next_order_id < u64::MAX,
        ensures
            final(self).wf(),
            r is Ok <==> has_market(old(self).orderbooks@, pair) && order.original_size >= 1,
            (r is Err && r->Err_0 == EngineError::UnknownMarket) <==> !has_market(
                old(self).orderbooks@,
                pair,
            ),
            (r is Err && r->Err_0 == EngineError::InvalidSize) <==> has_market(
                old(self).orderbooks@,
                pair,
            ) && order.original_size == 0,
            r is Err ==> final(self).orderbooks@ == old(self).orderbooks@,
            r is Ok ==> ({
                &&& final(self).orderbooks@.len() == old(self).orderbooks@.len()
                &&& exists|i: int|
                    0 <= i < old(self).orderbooks@.len() && pair_eq(
                        (#[trigger] old(self).orderbooks@[i]).pair,
                        pair,
                    ) && final(self).orderbooks@[i].pair == old(self).orderbooks@[i].pair && (
                    forall|j: int|
                        0 <= j < old(self).orderbooks@.len() && j != i
                            ==> #[trigger] final(self).orderbooks@[j] == old(self).orderbooks@[j])
                        && submit_post(
                        old(self).orderbooks@[i].book,
                        final(self).orderbooks@[i].book,
                        order.bid_or_ask,
                        Some(price),
                        order.original_size,
                        r->Ok_0,
                    )
            }),
    {
        match self.find_market(&pair) {
            None => Err(EngineError::UnknownMarket),
            Some(i) => {
                let ghost pre = self.orderbooks@;
                let mut m = self.orderbooks.remove(i);
                let res = m.book.submit(order.bid_or_ask, Some(price), order.original_size);
                match res {
                    Ok(rep) => {
                        self.orderbooks.insert(i, m);
                        proof {
                            assert(self.orderbooks@ =~= pre.update(
                                i as int,
                                Market { pair: pre[i as int].pair, book: m.book },
                            ));
                            assert(forall|j: int|
                                0 <= j < pre.len() && j != i ==> #[trigger] self.orderbooks@[j]
                                    == pre[j]);
                            assert(self.orderbooks@[i as int].book == m.book);
                            assert(submit_post(
                                pre[i as int].book,
                                self.orderbooks@[i as int].book,
                                order.bid_or_ask,
                                Some(price),
                                order.original_size,
                                rep,
                            ));
                        }
                        Ok(rep)
                    },
                    Err(e) => {
                        self.orderbooks.insert(i, m);
                        proof {
                            assert(self.orderbooks@ =~= pre);
                        }
                        Err(e)
                    },
                }
            },
        }
    }

    /// Submits a market order for the pair: matched unconditionally
    /// against the best opposing prices; an unfilled remainder is
    /// dropped and reported as `InsufficientLiquidity`.
    pub fn place_market_order(
        &mut self,
        pair: TradingPair,
        bid_or_ask: BidorAsk,
        size: u64,
    ) -> (r: Result<SubmitReport, EngineError>)
        requires
            old(self).wf(),
            forall|i: int|
                0 <= i < old(self).orderbooks@.len() ==> (#[trigger] old(self).orderbooks@[i]).book.next_order_id < u64::MAX,
        ensures
            final(self).wf(),
            r is Ok <==> has_market(old(self).orderbooks@, pair) && size >= 1,
            (r is Err && r->Err_0 == EngineError::UnknownMarket) <==> !has_market(
                old(self).orderbooks@,
                pair,
            ),
            (r is Err && r->Err_0 == EngineError::InvalidSize) <==> has_market(
                old(self).orderbooks@,
                pair,
            ) && size == 0,
            r is Err ==> final(self).orderbooks@ == old(self).orderbooks@,
            r is Ok ==> ({
                &&& final(self).orderbooks@.len() == old(self).orderbooks@.len()
                &&& exists|i: int|
                    0 <= i < old(self).orderbooks@.len() && pair_eq(
                        (#[trigger] old(self).orderbooks@[i]).pair,
                        pair,
                    ) && final(self).orderbooks@[i].pair == old(self).orderbooks@[i].pair && (
                    forall|j: int|
                        0 <= j < old(self).orderbooks@.len() && j != i
                            ==> #[trigger] final(self).orderbooks@[j] == old(self).orderbooks@[j])
                        && submit_post(
                        old(self).orderbooks@[i].book,
                        final(self).orderbooks@[i].book,
                        bid_or_ask,
                        None,
                        size,
                        r->Ok_0,
                    )
            }),
    {
        match self.find_market(&pair) {
            None => Err(EngineError::UnknownMarket),
            Some(i) => {
                let ghost pre = self.orderbooks@;
                let mut m = self.orderbooks.remove(i);
                let res = m.book.submit(bid_or_ask, None, size);
                match res {
                    Ok(rep) => {
                        self.orderbooks.insert(i, m);
                        proof {
                            assert(self.orderbooks@ =~= pre.update(
                                i as int,
                                Market { pair: pre[i as int].pair, book: m.book },
                            ));
                            assert(forall|j: int|
                                0 <= j < pre.len() && j != i ==> #[trigger] self.orderbooks@[j]
                                    == pre[j]);
                            assert(self.orderbooks@[i as int].book == m.book);
                            assert(submit_post(
                                pre[i as int].book,
                                self.orderbooks@[i as int].book,
                                bid_or_ask,
                                None,
                                size,
                                rep,
                            ));
                        }
                        Ok(rep)
                    },
                    Err(e) => {
                        self.orderbooks.insert(i, m);
                        proof {
                            assert(self.orderbooks@ =~= pre);
                        }
                        Err(e)
                    },
                }
            },
        }
    }

    /// Cancels a resting order in the pair's book. Fails with
    /// `UnknownMarket` if no market exists, and with `OrderNotFound`
    /// when no order with that id rests.
    pub fn cancel(&mut self, pair: TradingPair, order_id: u64) -> (r: Result<(), EngineError>)
        requires
            old(self).wf(),
        ensures
            final(self).wf(),
            r is Ok <==> order_resting(old(self).orderbooks@, pair, order_id),
            (r is Err && r->Err_0 == EngineError::UnknownMarket) <==> !has_market(
                old(self).orderbooks@,
                pair,
            ),
            (r is Err && r->Err_0 == EngineError::OrderNotFound) <==> has_market(
                old(self).orderbooks@,
                pair,
            ) && !order_resting(old(self).orderbooks@, pair, order_id),
            r is Err ==> final(self).orderbooks@ == old(self).orderbooks@,
            r is Ok ==> ({
                &&& final(self).orderbooks@.len() == old(self).orderbooks@.len()
                &&& exists|i: int|
                    0 <= i < old(self).orderbooks@.len() && pair_eq(
                        (#[trigger] old(self).orderbooks@[i]).pair,
                        pair,
                    ) && final(self).orderbooks@[i].pair == old(self).orderbooks@[i].pair && (
                    forall|j: int|
                        0 <= j < old(self).orderbooks@.len() && j != i
                            ==> #[trigger] final(self).orderbooks@[j] == old(self).orderbooks@[j])
                        && cancel_post(
                        old(self).orderbooks@[i].book,
                        final(self).orderbooks@[i].book,
                        order_id,
                    )
            }),
    {
        match self.find_market(&pair) {
            None => {
                proof {
                    if order_resting(self.orderbooks@, pair, order_id) {
                        let i = choose|i: int|
                            0 <= i < self.orderbooks@.len() && pair_eq(
                                (#[trigger] self.orderbooks@[i]).pair,
                                pair,
                            ) && self.orderbooks@[i].book.resting(order_id);
                        assert(has_market(self.orderbooks@, pair));
                    }
                }
                Err(EngineError::UnknownMarket)
            },
            Some(i) => {
                let ghost pre = self.orderbooks@;
                proof {
                    assert forall|i2: int|
                        0 <= i2 < pre.len() && pair_eq(
                            (#[trigger] pre[i2]).pair,
                            pair,
                        ) implies i2 == i as int by {
                        if i2 != i as int {
                            assert(pair_eq(pre[i2].pair, pre[i as int].pair));
                        }
                    }
                }
                let mut m = self.orderbooks.remove(i);
                let res = m.book.cancel(order_id);
                self.orderbooks.insert(i, m);
                proof {
                    assert(self.orderbooks@ =~= pre.update(
                        i as int,
                        Market { pair: pre[i as int].pair, book: m.book },
                    ));
                    assert(forall|j: int|
                        0 <= j < pre.len() && j != i ==> #[trigger] self.orderbooks@[j] == pre[j]);
                    assert(self.orderbooks@[i as int].book == m.book);
                    if res is Err {
                        assert(self.orderbooks@ =~= pre);
                    }
                    // the found market is the only one for the pair
                    if order_resting(pre, pair, order_id) {
                        let i2 = choose|i2: int|
                            0 <= i2 < pre.len() && pair_eq((#[trigger] pre[i2]).pair, pair)
                                && pre[i2].book.resting(order_id);
                        assert(i2 == i as int);
                    }
                    if pre[i as int].book.resting(order_id) {
                        assert(order_resting(pre, pair, order_id));
                    }
                    assert forall|i2: int, j2: int|
                        0 <= i2 < j2 < self.orderbooks@.len() implies !pair_eq(
                        (#[trigger] self.orderbooks@[i2]).pair,
                        (#[trigger] self.orderbooks@[j2]).pair,
                    ) by {
                        assert(self.orderbooks@[i2].pair == pre[i2].pair);
                        assert(self.orderbooks@[j2].pair == pre[j2].pair);
                    }
                }
                res
            },
        }
    }

    /// The depth-limited snapshot of the pair's book.
    pub fn snapshot(&self, pair: TradingPair, depth: usize) -> (r: Result<
        (Vec<(Price, u128)>, Vec<(Price, u128)>),
        EngineError,
    >)
        ensures
            (r is Err) <==> !has_market(self.orderbooks@, pair),
            r is Err ==> r->Err_0 == EngineError::UnknownMarket,
            r is Ok ==> exists|i: int|
                0 <= i < self.orderbooks@.len() && pair_eq(
                    (#[trigger] self.orderbooks@[i]).pair,
                    pair,
                ) && snapshot_side_post(
                    self.orderbooks@[i].book.bids@,
                    depth as int,
                    r->Ok_0.0@,
                ) && snapshot_side_post(self.orderbooks@[i].book.asks@, depth as int, r->Ok_0.1@),
    {
        match self.find_market(&pair) {
            None => Err(EngineError::UnknownMarket),
            Some(i) => Ok(self.orderbooks[i].book.snapshot(depth)),
        }
    }
}

} // verus!
