//! The order book: exact prices, orders, price levels, and the matching
//! algorithm with price-time priority.

use vstd::prelude::*;

verus! {

/// The side of an order: a bid buys, an ask sells.
#[derive(Debug, Clone, Copy, PartialEq, Eq, Structural)]
pub enum BidorAsk {
    Bid,
    Ask,
}

/// Number of fractional units in one integral price unit.
pub const PRICE_SCALE: u64 = 100000;

/// An exact fixed-point price: `units` counts multiples of
/// `1 / PRICE_SCALE`. Equality and ordering are those of `units`,
/// so numerically equal prices always compare equal.
#[derive(Debug, Clone, Copy, PartialEq, Eq, Hash, Structural)]
pub struct Price {
    pub units: u64,
}

/// Everything that can go wrong in the matching core.
#[derive(Debug, Clone, Copy, PartialEq, Eq, Structural)]
pub enum EngineError {
    /// A price whose parts do not form a valid fixed-point value.
    InvalidPrice,
    /// An order of size zero.
    InvalidSize,
    /// A command named a trading pair with no order book.
    UnknownMarket,
    /// A market was opened twice for the same pair.
    MarketAlreadyExists,
    /// A cancel named an id that is not resting in the book.
    OrderNotFound,
    /// A market order could not be fully filled; the remainder is dropped.
    InsufficientLiquidity,
    /// An attempt to reduce an order below zero remaining size.
    OverFill,
}

impl Price {
    /// Builds a price from an integral part and a fractional part counted
    /// in units of `1 / PRICE_SCALE`. Rejects a fractional part that is
    /// not a proper fraction, and an integral part too large for the
    /// normalized representation.
    pub fn new(integral: u64, fractional: u64) -> (r: Result<Price, EngineError>)
        ensures
            (fractional < PRICE_SCALE && integral as int * PRICE_SCALE as int + fractional as int
                <= u64::MAX as int) <==> r is Ok,
            r is Ok ==> r->Ok_0.units == integral as int * PRICE_SCALE as int + fractional as int,
            r is Err ==> r->Err_0 == EngineError::InvalidPrice,
    {
        if fractional >= PRICE_SCALE {
            return Err(EngineError::InvalidPrice);
        }
        if integral > (u64::MAX - fractional) / PRICE_SCALE {
            proof {
                assert(integral as int * PRICE_SCALE as int + fractional as int > u64::MAX as int)
                    by (nonlinear_arith)
                    requires
                        integral as int > (u64::MAX as int - fractional as int) / (
                        PRICE_SCALE as int),
                        fractional < PRICE_SCALE,
                        PRICE_SCALE == 100000u64,
                ;
            }
            return Err(EngineError::InvalidPrice);
        }
        proof {
            assert(integral as int * PRICE_SCALE as int + fractional as int <= u64::MAX as int)
                by (nonlinear_arith)
                requires
                    integral as int <= (u64::MAX as int - fractional as int) / (PRICE_SCALE as int),
                    fractional < PRICE_SCALE,
                    PRICE_SCALE == 100000u64,
            ;
        }
        Ok(Price { units: integral * PRICE_SCALE + fractional })
    }

    /// Builds a price directly from its normalized unit count.
    pub fn from_units(units: u64) -> (r: Price)
        ensures
            r.units == units,
    {
        Price { units }
    }
}

/// One order: an immutable identity plus a mutable remaining size.
/// The id is assigned by the book at submission and never reused.
#[derive(Debug, Clone, Copy, PartialEq, Eq, Structural)]
pub struct Order {
    pub id: u64,
    pub bid_or_ask: BidorAsk,
    pub original_size: u64,
    pub remaining_size: u64,
}

/// An order is valid when it was created with a positive size and has
/// never been reduced below zero.
pub open spec fn order_valid(o: Order) -> bool {
    1 <= o.original_size && o.remaining_size <= o.original_size
}

impl Order {
    /// Creates an order of the given side and size, with an unassigned id.
    /// A size of zero is rejected before any state exists.
    pub fn new(bid_or_ask: BidorAsk, size: u64) -> (r: Result<Order, EngineError>)
        ensures
            (size >= 1) <==> r is Ok,
            r is Ok ==> r->Ok_0 == (Order {
                id: 0u64,
                bid_or_ask,
                original_size: size,
                remaining_size: size,
            }),
            r is Err ==> r->Err_0 == EngineError::InvalidSize,
    {
        if size == 0 {
            Err(EngineError::InvalidSize)
        } else {
            Ok(Order { id: 0, bid_or_ask, original_size: size, remaining_size: size })
        }
    }

    /// Decrements the remaining size by `amount`; rejects an amount
    /// larger than what remains, leaving the order unchanged.
    pub fn reduce(&mut self, amount: u64) -> (r: Result<(), EngineError>)
        ensures
            (amount <= old(self).remaining_size) <==> r is Ok,
            r is Ok ==> *final(self) == (Order {
                remaining_size: (old(self).remaining_size - amount) as u64,
                ..*old(self)
            }),
            r is Err ==> *final(self) == *old(self) && r->Err_0 == EngineError::OverFill,
    {
        if amount > self.remaining_size {
            Err(EngineError::OverFill)
        } else {
            self.remaining_size = self.remaining_size - amount;
            Ok(())
        }
    }

    /// An order is filled exactly when nothing of it remains.
    pub fn is_filled(&self) -> (r: bool)
        ensures
            r == (self.remaining_size == 0),
    {
        self.remaining_size == 0
    }
}

/// One trade execution: the resting (maker) order, the incoming (taker)
/// order, the price of the maker's level, and the traded size.
#[derive(Debug, Clone, Copy, PartialEq, Eq, Structural)]
pub struct Fill {
    pub maker_order_id: u64,
    pub taker_order_id: u64,
    pub price: Price,
    pub size: u64,
}

/// Sum of the remaining sizes of a queue of orders.
pub open spec fn sum_remaining(q: Seq<Order>) -> int
    decreases q.len(),
{
    if q.len() == 0 {
        0
    } else {
        q[0].remaining_size + sum_remaining(q.drop_first())
    }
}

/// Sum of the traded sizes of a sequence of fills.
pub open spec fn sum_fills(fs: Seq<Fill>) -> int
    decreases fs.len(),
{
    if fs.len() == 0 {
        0
    } else {
        fs[0].size + sum_fills(fs.drop_first())
    }
}

/// The fills emitted when a taker with `r` units left walks the queue
/// `q` in strict arrival order, trading the minimum of both remainders
/// at each step.
pub open spec fn level_fills(q: Seq<Order>, taker_id: u64, price: Price, r: int) -> Seq<Fill>
    decreases q.len(),
{
    if r <= 0 || q.len() == 0 {
        Seq::empty()
    } else if q[0].remaining_size <= r {
        seq![
            Fill {
                maker_order_id: q[0].id,
                taker_order_id: taker_id,
                price,
                size: q[0].remaining_size,
            },
        ] + level_fills(q.drop_first(), taker_id, price, r - q[0].remaining_size)
    } else {
        seq![Fill { maker_order_id: q[0].id, taker_order_id: taker_id, price, size: r as u64 }]
    }
}

/// The queue left behind by the walk of `level_fills`: fully filled
/// orders are removed from the front; a partially filled head stays,
/// reduced.
pub open spec fn level_queue(q: Seq<Order>, r: int) -> Seq<Order>
    decreases q.len(),
{
    if r <= 0 || q.len() == 0 {
        q
    } else if q[0].remaining_size <= r {
        level_queue(q.drop_first(), r - q[0].remaining_size)
    } else {
        q.update(0, Order { remaining_size: (q[0].remaining_size - r) as u64, ..q[0] })
    }
}

/// What is left of the taker after the walk of `level_fills`.
pub open spec fn level_taker_left(q: Seq<Order>, r: int) -> int
    decreases q.len(),
{
    if r <= 0 || q.len() == 0 {
        r
    } else if q[0].remaining_size <= r {
        level_taker_left(q.drop_first(), r - q[0].remaining_size)
    } else {
        0
    }
}

/// A queue of resting orders is well formed for a side when every order
/// in it is valid, unfilled, and of that side.
pub open spec fn queue_wf(q: Seq<Order>, side: BidorAsk) -> bool {
    forall|k: int|
        0 <= k < q.len() ==> order_valid(#[trigger] q[k]) && q[k].remaining_size >= 1
            && q[k].bid_or_ask == side
}

/// One price level: a FIFO queue of resting orders at one exact price.
#[derive(Debug, Clone)]
pub struct Limit {
    pub price: Price,
    pub orders: Vec<Order>,
}

impl Limit {
    /// An empty level at the given price.
    pub fn new(price: Price) -> (r: Limit)
        ensures
            r.price == price,
            r.orders@ == Seq::<Order>::empty(),
    {
        Limit { price, orders: Vec::new() }
    }

    /// Appends an order to the back of the FIFO queue.
    pub fn add_order(&mut self, order: Order)
        ensures
            final(self).price == old(self).price,
            final(self).orders@ == old(self).orders@.push(order),
    {
        self.orders.push(order);
    }

    /// Number of orders resting at this level.
    pub fn order_count(&self) -> (r: usize)
        ensures
            r == self.orders@.len(),
    {
        self.orders.len()
    }

    /// The order at queue position `i` (0 is the oldest).
    pub fn order_at(&self, i: usize) -> (r: Order)
        requires
            i < self.orders@.len(),
        ensures
            r == self.orders@[i as int],
    {
        self.orders[i]
    }

    /// Sum of remaining sizes across all resting orders; 0 when empty.
    pub fn total_volume(&self) -> (r: u64)
        requires
            sum_remaining(self.orders@) <= u64::MAX,
        ensures
            r == sum_remaining(self.orders@),
    {
        let mut total: u64 = 0;
        let mut i: usize = 0;
        proof {
            lemma_sum_remaining_take(self.orders@, 0);
        }
        while i < self.orders.len()
            invariant
                i <= self.orders@.len(),
                total == sum_remaining(self.orders@.take(i as int)),
                sum_remaining(self.orders@) <= u64::MAX,
            decreases self.orders@.len() - i,
        {
            proof {
                lemma_sum_remaining_take(self.orders@, i + 1);
                lemma_sum_remaining_take(self.orders@, i as int);
                lemma_sum_remaining_bounds(self.orders@, i as int);
                assert(self.orders@.take(i + 1).drop_last() =~= self.orders@.take(i as int));
                assert(self.orders@.take(i + 1).last() == self.orders@[i as int]);
            }
            total = total + self.orders[i].remaining_size;
            i = i + 1;
        }
        proof {
            assert(self.orders@.take(self.orders@.len() as int) =~= self.orders@);
        }
        total
    }

    /// Fills the incoming `taker` against this level's queue in strict
    /// arrival order, removing fully filled resting orders, and returns
    /// the fills in the order they were made.
    pub fn fill_order(&mut self, taker: &mut Order) -> (fills: Vec<Fill>)
        requires
            queue_wf(old(self).orders@, old(taker).bid_or_ask.opposite()),
            order_valid(*old(taker)),
        ensures
            fills@ == level_fills(
                old(self).orders@,
                old(taker).id,
                old(self).price,
                old(taker).remaining_size as int,
            ),
            final(self).orders@ == level_queue(old(self).orders@, old(taker).remaining_size as int),
            final(taker).remaining_size as int == level_taker_left(
                old(self).orders@,
                old(taker).remaining_size as int,
            ),
            final(self).price == old(self).price,
            final(taker).id == old(taker).id,
            final(taker).bid_or_ask == old(taker).bid_or_ask,
            final(taker).original_size == old(taker).original_size,
            final(taker).remaining_size <= old(taker).remaining_size,
    {
        let ghost q0 = old(self).orders@;
        let ghost r0 = old(taker).remaining_size as int;
        let ghost tid = old(taker).id;
        let ghost p = old(self).price;
        let mut fills: Vec<Fill> = Vec::new();
        while taker.remaining_size > 0 && self.orders.len() > 0
            invariant
                self.price == p,
                taker.id == tid,
                taker.bid_or_ask == old(taker).bid_or_ask,
                taker.original_size == old(taker).original_size,
                taker.remaining_size <= old(taker).remaining_size,
                queue_wf(self.orders@, old(taker).bid_or_ask.opposite()),
                level_fills(q0, tid, p, r0) == fills@ + level_fills(
                    self.orders@,
                    tid,
                    p,
                    taker.remaining_size as int,
                ),
                level_queue(q0, r0) == level_queue(self.orders@, taker.remaining_size as int),
                level_taker_left(q0, r0) == level_taker_left(
                    self.orders@,
                    taker.remaining_size as int,
                ),
            decreases self.orders@.len() + taker.remaining_size,
        {
            let m = self.orders[0];
            let ghost q_here = self.orders@;
            let ghost r_here = taker.remaining_size as int;
            if m.remaining_size <= taker.remaining_size {
                let f = Fill {
                    maker_order_id: m.id,
                    taker_order_id: taker.id,
                    price: self.price,
                    size: m.remaining_size,
                };
                taker.remaining_size = taker.remaining_size - m.remaining_size;
                self.orders.remove(0);
                fills.push(f);
                proof {
                    assert(q_here.remove(0) =~= q_here.drop_first());
                    assert(level_fills(q_here, tid, p, r_here) == seq![f] + level_fills(
                        self.orders@,
                        tid,
                        p,
                        taker.remaining_size as int,
                    ));
                    assert(fills@ =~= fills@.drop_last() + seq![f]);
                    assert(fills@.drop_last() + (seq![f] + level_fills(
                        self.orders@,
                        tid,
                        p,
                        taker.remaining_size as int,
                    )) =~= fills@ + level_fills(
                        self.orders@,
                        tid,
                        p,
                        taker.remaining_size as int,
                    ));
                }
            } else {
                let f = Fill {
                    maker_order_id: m.id,
                    taker_order_id: taker.id,
                    price: self.price,
                    size: taker.remaining_size,
                };
                let reduced = Order {
                    remaining_size: m.remaining_size - taker.remaining_size,
                    ..m
                };
                self.orders.set(0, reduced);
                taker.remaining_size = 0;
                fills.push(f);
                proof {
                    assert(level_fills(q_here, tid, p, r_here) == seq![f]);
                    assert(fills@ =~= fills@.drop_last() + seq![f]);
                    assert(level_fills(self.orders@, tid, p, 0int) == Seq::<Fill>::empty());
                    assert(fills@.drop_last() + seq![f] =~= fills@ + Seq::<Fill>::empty());
                }
            }
        }
        proof {
            assert(level_fills(self.orders@, tid, p, taker.remaining_size as int)
                == Seq::<Fill>::empty());
            assert(fills@ + Seq::<Fill>::empty() =~= fills@);
            assert(level_queue(self.orders@, taker.remaining_size as int) =~= self.orders@);
        }
        fills
    }
}

impl BidorAsk {
    /// The other side.
    pub open spec fn opposite(self) -> BidorAsk {
        match self {
            BidorAsk::Bid => BidorAsk::Ask,
            BidorAsk::Ask => BidorAsk::Bid,
        }
    }
}

/// The mathematical view of one price level: its price and its queue.
pub open spec fn side_view(v: Seq<Limit>) -> Seq<(Price, Seq<Order>)> {
    Seq::new(v.len(), |i: int| (v[i].price, v[i].orders@))
}

/// `a` is strictly nearer the front of `side`'s book than `b`:
/// bids are ordered by descending price, asks by ascending price.
pub open spec fn price_before(a: u64, b: u64, side: BidorAsk) -> bool {
    match side {
        BidorAsk::Bid => a > b,
        BidorAsk::Ask => a < b,
    }
}

/// The levels of one side are strictly ordered, best price first.
pub open spec fn levels_sorted(s: Seq<(Price, Seq<Order>)>, side: BidorAsk) -> bool {
    forall|i: int, j: int|
        0 <= i < j < s.len() ==> price_before(
            (#[trigger] s[i]).0.units,
            (#[trigger] s[j]).0.units,
            side,
        )
}

/// Every level of one side is non-empty and holds only valid, unfilled
/// orders of that side.
pub open spec fn levels_wf(s: Seq<(Price, Seq<Order>)>, side: BidorAsk) -> bool {
    forall|i: int|
        0 <= i < s.len() ==> (#[trigger] s[i]).1.len() >= 1 && queue_wf(s[i].1, side)
}

/// No order id repeats within any one level's queue.
pub open spec fn levels_ids_distinct(s: Seq<(Price, Seq<Order>)>) -> bool {
    forall|i: int, k1: int, k2: int|
        0 <= i < s.len() && 0 <= k1 < (#[trigger] s[i]).1.len() && 0 <= k2 < s[i].1.len() && k1
            != k2 ==> (#[trigger] s[i].1[k1]).id != (#[trigger] s[i].1[k2]).id
}

/// Every resting order id on this side is below `bound`.
pub open spec fn ids_below(s: Seq<(Price, Seq<Order>)>, bound: u64) -> bool {
    forall|i: int, k: int|
        0 <= i < s.len() && 0 <= k < (#[trigger] s[i]).1.len() ==> (#[trigger] s[i].1[k]).id
            < bound
}

/// Whether an order with the given id rests somewhere on this side.
pub open spec fn has_order(s: Seq<(Price, Seq<Order>)>, id: u64) -> bool {
    exists|i: int, k: int|
        0 <= i < s.len() && 0 <= k < s[i].1.len() && (#[trigger] s[i].1[k]).id == id
}

/// Sum of remaining sizes across all levels of one side.
pub open spec fn levels_volume(s: Seq<(Price, Seq<Order>)>) -> int
    decreases s.len(),
{
    if s.len() == 0 {
        0
    } else {
        sum_remaining(s[0].1) + levels_volume(s.drop_first())
    }
}

/// One entry of the reverse index: where the order with this id rests.
#[derive(Debug, Clone, Copy, PartialEq, Eq, Structural)]
pub struct IndexEntry {
    pub id: u64,
    pub bid_or_ask: BidorAsk,
    pub price: Price,
}

/// An order with the entry's id rests at the entry's price on `s`.
pub open spec fn side_has_entry(s: Seq<(Price, Seq<Order>)>, e: IndexEntry) -> bool {
    exists|i: int|
        0 <= i < s.len() && (#[trigger] s[i]).0 == e.price && exists|k: int|
            0 <= k < s[i].1.len() && (#[trigger] s[i].1[k]).id == e.id
}

/// The entry names an order actually resting at its side and price.
pub open spec fn entry_ok(
    bids: Seq<(Price, Seq<Order>)>,
    asks: Seq<(Price, Seq<Order>)>,
    e: IndexEntry,
) -> bool {
    if e.bid_or_ask == BidorAsk::Bid {
        side_has_entry(bids, e)
    } else {
        side_has_entry(asks, e)
    }
}

/// The exact index entry that a resting order at the given level must have.
pub open spec fn entry_for(s: Seq<(Price, Seq<Order>)>, side: BidorAsk, i: int, k: int) -> IndexEntry {
    IndexEntry { id: s[i].1[k].id, bid_or_ask: side, price: s[i].0 }
}

/// Every resting order of this side has its exact entry in the index.
pub open spec fn side_indexed(
    s: Seq<(Price, Seq<Order>)>,
    side: BidorAsk,
    idx: Seq<IndexEntry>,
) -> bool {
    forall|i: int, k: int|
        0 <= i < s.len() && 0 <= k < s[i].1.len() ==> idx.contains(
            #[trigger] entry_for(s, side, i, k),
        )
}

/// No two index entries share an id.
pub open spec fn index_ids_distinct(idx: Seq<IndexEntry>) -> bool {
    forall|j1: int, j2: int|
        0 <= j1 < idx.len() && 0 <= j2 < idx.len() && j1 != j2 ==> (#[trigger] idx[j1]).id != (
        #[trigger] idx[j2]).id
}

/// The order book of one market: bids best (highest) first, asks best
/// (lowest) first, a reverse index from order id to resting place, and
/// the next id to assign.
#[derive(Debug)]
pub struct OrderBook {
    pub bids: Vec<Limit>,
    pub asks: Vec<Limit>,
    pub order_index: Vec<IndexEntry>,
    pub next_order_id: u64,
}

impl OrderBook {
    /// The two sides are strictly price-ordered with no empty or
    /// malformed level, ids are unique and below the id counter, and
    /// the index and the book name exactly the same resting orders.
    pub open spec fn wf(self) -> bool {
        let b = side_view(self.bids@);
        let a = side_view(self.asks@);
        &&& levels_sorted(b, BidorAsk::Bid)
        &&& levels_sorted(a, BidorAsk::Ask)
        &&& levels_wf(b, BidorAsk::Bid)
        &&& levels_wf(a, BidorAsk::Ask)
        &&& levels_ids_distinct(b)
        &&& levels_ids_distinct(a)
        &&& ids_below(b, self.next_order_id)
        &&& ids_below(a, self.next_order_id)
        &&& (forall|j: int|
            0 <= j < self.order_index@.len() ==> entry_ok(b, a, #[trigger] self.order_index@[j]))
        &&& side_indexed(b, BidorAsk::Bid, self.order_index@)
        &&& side_indexed(a, BidorAsk::Ask, self.order_index@)
        &&& index_ids_distinct(self.order_index@)
    }

    /// The spread invariant: whenever both sides are non-empty, the
    /// best bid is strictly below the best ask.
    pub open spec fn uncrossed(self) -> bool {
        side_view(self.bids@).len() > 0 && side_view(self.asks@).len() > 0
            ==> side_view(self.bids@)[0].0.units < side_view(self.asks@)[0].0.units
    }

    /// Whether an order with this id is resting anywhere in the book.
    pub open spec fn resting(self, id: u64) -> bool {
        has_order(side_view(self.bids@), id) || has_order(side_view(self.asks@), id)
    }

    /// An empty book.
    pub fn new() -> (r: OrderBook)
        ensures
            r.wf(),
            r.uncrossed(),
            r.bids@.len() == 0,
            r.asks@.len() == 0,
            r.order_index@.len() == 0,
            r.next_order_id == 0,
    {
        OrderBook { bids: Vec::new(), asks: Vec::new(), order_index: Vec::new(), next_order_id: 0 }
    }

    /// The best (highest) bid price, if any bid rests.
    pub fn best_bid(&self) -> (r: Option<Price>)
        ensures
            r == (if self.bids@.len() > 0 {
                Some(side_view(self.bids@)[0].0)
            } else {
                Option::<Price>::None
            }),
    {
        if self.bids.len() > 0 {
            Some(self.bids[0].price)
        } else {
            None
        }
    }

    /// The best (lowest) ask price, if any ask rests.
    pub fn best_ask(&self) -> (r: Option<Price>)
        ensures
            r == (if self.asks@.len() > 0 {
                Some(side_view(self.asks@)[0].0)
            } else {
                Option::<Price>::None
            }),
    {
        if self.asks.len() > 0 {
            Some(self.asks[0].price)
        } else {
            None
        }
    }
}

/// Where a new resting order lands on one side: joined to the back of
/// the queue of an existing level of equal price, or in a fresh level
/// at its sorted position.
pub open spec fn insert_view(
    s: Seq<(Price, Seq<Order>)>,
    price: Price,
    order: Order,
    side: BidorAsk,
) -> Seq<(Price, Seq<Order>)>
    decreases s.len(),
{
    if s.len() == 0 {
        seq![(price, seq![order])]
    } else if s[0].0.units == price.units {
        s.update(0, (s[0].0, s[0].1.push(order)))
    } else if price_before(price.units, s[0].0.units, side) {
        seq![(price, seq![order])] + s
    } else {
        seq![s[0]] + insert_view(s.drop_first(), price, order, side)
    }
}

/// Whether an exact price and order value stand somewhere on a side.
pub open spec fn has_entry_at(s: Seq<(Price, Seq<Order>)>, price: Price, order: Order) -> bool {
    exists|i: int|
        0 <= i < s.len() && (#[trigger] s[i]).0 == price && exists|k: int|
            0 <= k < s[i].1.len() && (#[trigger] s[i].1[k]) == order
}

/// `insert_view` in closed form, at the scanned position `pos`: the
/// first level not strictly before the new price.
pub proof fn lemma_insert_view_at(
    s: Seq<(Price, Seq<Order>)>,
    price: Price,
    order: Order,
    side: BidorAsk,
    pos: int,
)
    requires
        0 <= pos <= s.len(),
        forall|i: int| 0 <= i < pos ==> price_before((#[trigger] s[i]).0.units, price.units, side),
        pos < s.len() ==> !price_before(s[pos].0.units, price.units, side),
    ensures
        pos < s.len() && s[pos].0.units == price.units ==> insert_view(s, price, order, side)
            == s.update(pos, (s[pos].0, s[pos].1.push(order))),
        (pos == s.len() || s[pos].0.units != price.units) ==> insert_view(s, price, order, side)
            == s.take(pos) + seq![(price, seq![order])] + s.skip(pos),
    decreases pos,
{
    if pos == 0 {
        if s.len() == 0 {
            assert(s.take(0) =~= Seq::<(Price, Seq<Order>)>::empty());
            assert(s.skip(0) =~= s);
            assert(insert_view(s, price, order, side) =~= s.take(0) + seq![(price, seq![order])]
                + s.skip(0));
        } else if s[0].0.units == price.units {
            assert(insert_view(s, price, order, side) == s.update(
                0,
                (s[0].0, s[0].1.push(order)),
            ));
        } else {
            assert(price_before(price.units, s[0].0.units, side));
            assert(seq![(price, seq![order])] + s =~= s.take(0) + seq![(price, seq![order])]
                + s.skip(0));
        }
    } else {
        assert(price_before(s[0].0.units, price.units, side));
        assert(s[0].0.units != price.units);
        assert(!price_before(price.units, s[0].0.units, side));
        let df = s.drop_first();
        assert(forall|i: int| 0 <= i < pos - 1 ==> #[trigger] df[i] == s[i + 1]);
        lemma_insert_view_at(df, price, order, side, pos - 1);
        if pos < s.len() && s[pos].0.units == price.units {
            assert(df[pos - 1] == s[pos]);
            assert(seq![s[0]] + df.update(pos - 1, (df[pos - 1].0, df[pos - 1].1.push(order)))
                =~= s.update(pos, (s[pos].0, s[pos].1.push(order))));
        } else {
            assert(seq![s[0]] + (df.take(pos - 1) + seq![(price, seq![order])] + df.skip(pos - 1))
                =~= s.take(pos) + seq![(price, seq![order])] + s.skip(pos));
        }
    }
}

/// The scanned insertion position: the number of levels strictly
/// nearer the front than the given price.
pub open spec fn scan_pos(s: Seq<(Price, Seq<Order>)>, units: u64, side: BidorAsk) -> int
    decreases s.len(),
{
    if s.len() == 0 || !price_before(s[0].0.units, units, side) {
        0
    } else {
        1 + scan_pos(s.drop_first(), units, side)
    }
}

/// `scan_pos` is the first position not strictly before the price.
pub proof fn lemma_scan_pos_props(s: Seq<(Price, Seq<Order>)>, units: u64, side: BidorAsk)
    ensures
        0 <= scan_pos(s, units, side) <= s.len(),
        forall|i: int|
            0 <= i < scan_pos(s, units, side) ==> price_before(
                (#[trigger] s[i]).0.units,
                units,
                side,
            ),
        scan_pos(s, units, side) < s.len() ==> !price_before(
            s[scan_pos(s, units, side)].0.units,
            units,
            side,
        ),
    decreases s.len(),
{
    if s.len() == 0 || !price_before(s[0].0.units, units, side) {
    } else {
        let df = s.drop_first();
        lemma_scan_pos_props(df, units, side);
        assert(forall|i: int| 0 <= i < df.len() ==> #[trigger] df[i] == s[i + 1]);
        assert forall|i: int| 0 <= i < scan_pos(s, units, side) implies price_before(
            (#[trigger] s[i]).0.units,
            units,
            side,
        ) by {
            if i > 0 {
                assert(price_before(df[i - 1].0.units, units, side));
            }
        }
    }
}

/// Sum of level volumes distributes over concatenation.
pub proof fn lemma_levels_volume_add(a: Seq<(Price, Seq<Order>)>, b: Seq<(Price, Seq<Order>)>)
    ensures
        levels_volume(a + b) == levels_volume(a) + levels_volume(b),
    decreases a.len(),
{
    if a.len() == 0 {
        assert(a + b =~= b);
    } else {
        lemma_levels_volume_add(a.drop_first(), b);
        assert((a + b).drop_first() =~= a.drop_first() + b);
        assert((a + b)[0] == a[0]);
    }
}

/// Shared premises of the insertion lemmas.
pub open spec fn insert_pre(
    s: Seq<(Price, Seq<Order>)>,
    order: Order,
    side: BidorAsk,
    bound: u64,
) -> bool {
    &&& levels_sorted(s, side)
    &&& levels_wf(s, side)
    &&& levels_ids_distinct(s)
    &&& ids_below(s, bound)
    &&& order_valid(order)
    &&& order.remaining_size >= 1
    &&& order.bid_or_ask == side
    &&& order.id < bound
    &&& !has_order(s, order.id)
}

/// `insert_view` keeps the side sorted and well formed, keeps all ids
/// below the counter, grows the side's volume by the new order's
/// remaining size, and leaves the best price either unchanged or equal
/// to the inserted price.
pub proof fn lemma_insert_basic(
    s: Seq<(Price, Seq<Order>)>,
    price: Price,
    order: Order,
    side: BidorAsk,
    bound: u64,
)
    requires
        insert_pre(s, order, side, bound),
    ensures
        ({
            let t = insert_view(s, price, order, side);
            &&& levels_sorted(t, side)
            &&& levels_wf(t, side)
            &&& ids_below(t, bound)
            &&& t.len() >= 1
            &&& levels_volume(t) == levels_volume(s) + order.remaining_size
            &&& (t[0].0.units == price.units || (s.len() > 0 && t[0].0 == s[0].0))
        }),
{
    let t = insert_view(s, price, order, side);
    let pos = scan_pos(s, price.units, side);
    lemma_scan_pos_props(s, price.units, side);
    lemma_insert_view_at(s, price, order, side, pos);
    reveal_with_fuel(sum_remaining, 2);
    reveal_with_fuel(levels_volume, 2);
    if pos < s.len() && s[pos].0.units == price.units {
        let q2 = s[pos].1.push(order);
        assert(t == s.update(pos, (s[pos].0, q2)));
        assert(forall|i: int| 0 <= i < t.len() && i != pos ==> t[i] == s[i]);
        assert(forall|i: int| 0 <= i < t.len() ==> (#[trigger] t[i]).0 == s[i].0);
        assert(forall|k: int| 0 <= k < s[pos].1.len() ==> #[trigger] q2[k] == s[pos].1[k]);
        assert(q2[s[pos].1.len() as int] == order);
        assert(queue_wf(q2, side));
        assert(levels_volume(t) == levels_volume(s) + order.remaining_size) by {
            assert(s =~= s.take(pos) + seq![s[pos]] + s.skip(pos + 1));
            assert(t =~= s.take(pos) + seq![(s[pos].0, q2)] + s.skip(pos + 1));
            lemma_levels_volume_add(s.take(pos) + seq![s[pos]], s.skip(pos + 1));
            lemma_levels_volume_add(s.take(pos), seq![s[pos]]);
            lemma_levels_volume_add(s.take(pos) + seq![(s[pos].0, q2)], s.skip(pos + 1));
            lemma_levels_volume_add(s.take(pos), seq![(s[pos].0, q2)]);
            lemma_sum_remaining_drop_last(q2);
            assert(q2.drop_last() =~= s[pos].1);
        }
    } else {
        let mid = (price, seq![order]);
        assert(t == s.take(pos) + seq![mid] + s.skip(pos));
        assert(forall|i: int| 0 <= i < pos ==> #[trigger] t[i] == s[i]);
        assert(t[pos] == mid);
        assert(forall|i: int| pos < i < t.len() ==> #[trigger] t[i] == s[i - 1]);
        assert(levels_sorted(t, side)) by {
            assert forall|i: int, j: int| 0 <= i < j < t.len() implies price_before(
                (#[trigger] t[i]).0.units,
                (#[trigger] t[j]).0.units,
                side,
            ) by {
                if i == pos && j > pos {
                    assert(t[j].0 == s[j - 1].0);
                    assert(!price_before(s[pos].0.units, price.units, side));
                    assert(s[pos].0.units != price.units);
                } else if i < pos && j > pos {
                    assert(price_before(s[i].0.units, s[j - 1].0.units, side));
                }
            }
        }
        assert(queue_wf(seq![order], side));
        assert(levels_wf(t, side));
        assert(levels_volume(t) == levels_volume(s) + order.remaining_size) by {
            assert(s =~= s.take(pos) + s.skip(pos));
            lemma_levels_volume_add(s.take(pos), s.skip(pos));
            lemma_levels_volume_add(s.take(pos) + seq![mid], s.skip(pos));
            lemma_levels_volume_add(s.take(pos), seq![mid]);
            assert(seq![order].drop_first() =~= Seq::<Order>::empty());
            assert(seq![mid].drop_first() =~= Seq::<(Price, Seq<Order>)>::empty());
        }
        if pos > 0 {
            assert(t[0] == s[0]);
        }
    }
}

/// `insert_view` adds exactly one resting id, and never duplicates an
/// id within a level.
pub proof fn lemma_insert_ids(
    s: Seq<(Price, Seq<Order>)>,
    price: Price,
    order: Order,
    side: BidorAsk,
    bound: u64,
)
    requires
        insert_pre(s, order, side, bound),
    ensures
        ({
            let t = insert_view(s, price, order, side);
            &&& levels_ids_distinct(t)
            &&& (forall|x: u64| has_order(t, x) == (has_order(s, x) || x == order.id))
        }),
{
    let t = insert_view(s, price, order, side);
    let pos = scan_pos(s, price.units, side);
    lemma_scan_pos_props(s, price.units, side);
    lemma_insert_view_at(s, price, order, side, pos);
    if pos < s.len() && s[pos].0.units == price.units {
        let q2 = s[pos].1.push(order);
        assert(t == s.update(pos, (s[pos].0, q2)));
        assert(forall|i: int| 0 <= i < t.len() && i != pos ==> t[i] == s[i]);
        assert(forall|k: int| 0 <= k < s[pos].1.len() ==> #[trigger] q2[k] == s[pos].1[k]);
        assert(q2[s[pos].1.len() as int] == order);
        assert forall|x: u64| has_order(t, x) implies (has_order(s, x) || x == order.id) by {
            let (i, k) = choose|i: int, k: int|
                0 <= i < t.len() && 0 <= k < t[i].1.len() && (#[trigger] t[i].1[k]).id == x;
            if i == pos && k == s[pos].1.len() {
            } else {
                assert(s[i].1[k].id == x);
            }
        }
        assert forall|x: u64| has_order(s, x) implies has_order(t, x) by {
            let (i, k) = choose|i: int, k: int|
                0 <= i < s.len() && 0 <= k < s[i].1.len() && (#[trigger] s[i].1[k]).id == x;
            assert(t[i].1[k].id == x);
        }
        assert(has_order(t, order.id)) by {
            assert(t[pos].1[s[pos].1.len() as int].id == order.id);
        }
        assert forall|i: int, k1: int, k2: int|
            0 <= i < t.len() && 0 <= k1 < (#[trigger] t[i]).1.len() && 0 <= k2 < t[i].1.len() && k1
            != k2 implies (#[trigger] t[i].1[k1]).id != (#[trigger] t[i].1[k2]).id by {
            if i == pos {
                if k1 == s[pos].1.len() || k2 == s[pos].1.len() {
                    let ko = if k1 == s[pos].1.len() {
                        k2
                    } else {
                        k1
                    };
                    if s[pos].1[ko].id == order.id {
                        assert(has_order(s, order.id));
                    }
                }
            }
        }
    } else {
        let mid = (price, seq![order]);
        assert(t == s.take(pos) + seq![mid] + s.skip(pos));
        assert(forall|i: int| 0 <= i < pos ==> #[trigger] t[i] == s[i]);
        assert(t[pos] == mid);
        assert(forall|i: int| pos < i < t.len() ==> #[trigger] t[i] == s[i - 1]);
        assert forall|x: u64| has_order(t, x) implies (has_order(s, x) || x == order.id) by {
            let (i, k) = choose|i: int, k: int|
                0 <= i < t.len() && 0 <= k < t[i].1.len() && (#[trigger] t[i].1[k]).id == x;
            if i < pos {
                assert(s[i].1[k].id == x);
            } else if i > pos {
                assert(s[i - 1].1[k].id == x);
            }
        }
        assert forall|x: u64| has_order(s, x) implies has_order(t, x) by {
            let (i, k) = choose|i: int, k: int|
                0 <= i < s.len() && 0 <= k < s[i].1.len() && (#[trigger] s[i].1[k]).id == x;
            if i < pos {
                assert(t[i].1[k].id == x);
            } else {
                assert(t[i + 1].1[k].id == x);
            }
        }
        assert(has_order(t, order.id)) by {
            assert(t[pos].1[0].id == order.id);
        }
        assert forall|i: int, k1: int, k2: int|
            0 <= i < t.len() && 0 <= k1 < (#[trigger] t[i]).1.len() && 0 <= k2 < t[i].1.len() && k1
            != k2 implies (#[trigger] t[i].1[k1]).id != (#[trigger] t[i].1[k2]).id by {
            if i < pos {
                assert(t[i].1[k1] == s[i].1[k1] && t[i].1[k2] == s[i].1[k2]);
            } else if i > pos {
                assert(t[i].1[k1] == s[i - 1].1[k1] && t[i].1[k2] == s[i - 1].1[k2]);
            }
        }
    }
}

/// The exact correspondence of resting orders across an insertion:
/// every old (price, order) entry survives, and every new entry is
/// either the inserted order at its price or an old entry.
pub proof fn lemma_insert_entries(
    s: Seq<(Price, Seq<Order>)>,
    price: Price,
    order: Order,
    side: BidorAsk,
    bound: u64,
)
    requires
        insert_pre(s, order, side, bound),
    ensures
        ({
            let t = insert_view(s, price, order, side);
            &&& has_entry_at(t, price, order)
            &&& (forall|i: int, k: int|
                0 <= i < t.len() && 0 <= k < t[i].1.len() ==> ((#[trigger] t[i].1[k]) == order
                    && t[i].0 == price) || has_entry_at(s, t[i].0, t[i].1[k]))
            &&& (forall|i: int, k: int|
                0 <= i < s.len() && 0 <= k < s[i].1.len() ==> has_entry_at(
                    t,
                    s[i].0,
                    #[trigger] s[i].1[k],
                ))
        }),
{
    let t = insert_view(s, price, order, side);
    let pos = scan_pos(s, price.units, side);
    lemma_scan_pos_props(s, price.units, side);
    lemma_insert_view_at(s, price, order, side, pos);
    if pos < s.len() && s[pos].0.units == price.units {
        assert(s[pos].0 == price) by {
            assert(s[pos].0 == Price { units: s[pos].0.units });
        }
        let q2 = s[pos].1.push(order);
        assert(t == s.update(pos, (s[pos].0, q2)));
        assert(forall|i: int| 0 <= i < t.len() && i != pos ==> t[i] == s[i]);
        assert(forall|k: int| 0 <= k < s[pos].1.len() ==> #[trigger] q2[k] == s[pos].1[k]);
        assert(q2[s[pos].1.len() as int] == order);
        assert(has_entry_at(t, price, order)) by {
            assert(t[pos].0 == price && t[pos].1[s[pos].1.len() as int] == order);
        }
        assert forall|i: int, k: int|
            0 <= i < t.len() && 0 <= k < t[i].1.len() implies ((#[trigger] t[i].1[k]) == order
            && t[i].0 == price) || has_entry_at(s, t[i].0, t[i].1[k]) by {
            if i == pos && k == s[pos].1.len() {
            } else {
                assert(s[i].0 == t[i].0 && s[i].1[k] == t[i].1[k]);
            }
        }
        assert forall|i: int, k: int|
            0 <= i < s.len() && 0 <= k < s[i].1.len() implies has_entry_at(
            t,
            s[i].0,
            #[trigger] s[i].1[k],
        ) by {
            assert(t[i].0 == s[i].0 && t[i].1[k] == s[i].1[k]);
        }
    } else {
        let mid = (price, seq![order]);
        assert(t == s.take(pos) + seq![mid] + s.skip(pos));
        assert(forall|i: int| 0 <= i < pos ==> #[trigger] t[i] == s[i]);
        assert(t[pos] == mid);
        assert(forall|i: int| pos < i < t.len() ==> #[trigger] t[i] == s[i - 1]);
        assert(has_entry_at(t, price, order)) by {
            assert(t[pos].0 == price && t[pos].1[0] == order);
        }
        assert forall|i: int, k: int|
            0 <= i < t.len() && 0 <= k < t[i].1.len() implies ((#[trigger] t[i].1[k]) == order
            && t[i].0 == price) || has_entry_at(s, t[i].0, t[i].1[k]) by {
            if i < pos {
                assert(t[i].0 == s[i].0 && t[i].1[k] == s[i].1[k]);
                assert(has_entry_at(s, s[i].0, s[i].1[k]));
            } else if i > pos {
                assert(t[i].0 == s[i - 1].0 && t[i].1[k] == s[i - 1].1[k]);
                assert(has_entry_at(s, s[i - 1].0, s[i - 1].1[k]));
            }
        }
        assert forall|i: int, k: int|
            0 <= i < s.len() && 0 <= k < s[i].1.len() implies has_entry_at(
            t,
            s[i].0,
            #[trigger] s[i].1[k],
        ) by {
            if i < pos {
                assert(t[i].0 == s[i].0 && t[i].1[k] == s[i].1[k]);
            } else {
                assert(t[i + 1].0 == s[i].0 && t[i + 1].1[k] == s[i].1[k]);
            }
        }
    }
}

/// Whether `a` would be consumed or joined strictly ahead of `b` on
/// `side`'s book.
fn comes_before(a: u64, b: u64, side: BidorAsk) -> (r: bool)
    ensures
        r == price_before(a, b, side),
{
    match side {
        BidorAsk::Bid => a > b,
        BidorAsk::Ask => a < b,
    }
}

/// Inserts a resting order into one side's levels at its sorted
/// position, creating the level if absent.
fn insert_into(levels: &mut Vec<Limit>, price: Price, order: Order)
    ensures
        side_view(final(levels)@) == insert_view(
            side_view(old(levels)@),
            price,
            order,
            order.bid_or_ask,
        ),
{
    let ghost s = side_view(old(levels)@);
    let side = order.bid_or_ask;
    let mut pos: usize = 0;
    loop
        invariant
            pos <= levels@.len(),
            *levels == *old(levels),
            s == side_view(levels@),
            forall|i: int|
                0 <= i < pos ==> price_before((#[trigger] s[i]).0.units, price.units, side),
        ensures
            pos <= levels@.len(),
            *levels == *old(levels),
            forall|i: int|
                0 <= i < pos ==> price_before((#[trigger] s[i]).0.units, price.units, side),
            pos == levels@.len() || !price_before(s[pos as int].0.units, price.units, side),
        decreases levels@.len() - pos,
    {
        if pos == levels.len() {
            break;
        }
        proof {
            assert(s[pos as int] == (levels@[pos as int].price, levels@[pos as int].orders@));
        }
        if !comes_before(levels[pos].price.units, price.units, side) {
            break;
        }
        pos = pos + 1;
    }
    proof {
        lemma_insert_view_at(s, price, order, side, pos as int);
        if pos < levels@.len() {
            assert(s[pos as int] == (levels@[pos as int].price, levels@[pos as int].orders@));
        }
    }
    if pos < levels.len() && levels[pos].price.units == price.units {
        let mut lvl = levels.remove(pos);
        lvl.add_order(order);
        levels.insert(pos, lvl);
        proof {
            assert(levels@ =~= old(levels)@.update(
                pos as int,
                Limit {
                    price: old(levels)@[pos as int].price,
                    orders: lvl.orders,
                },
            ));
            assert(side_view(levels@) =~~= s.update(
                pos as int,
                (s[pos as int].0, s[pos as int].1.push(order)),
            ));
        }
    } else {
        let mut lvl = Limit::new(price);
        lvl.add_order(order);
        levels.insert(pos, lvl);
        proof {
            assert(lvl.orders@ =~= seq![order]);
            assert(side_view(levels@) =~~= s.take(pos as int) + seq![(price, seq![order])]
                + s.skip(pos as int));
        }
    }
}

/// An entry that resolved before an insertion still resolves after it,
/// given the order-preserving correspondence of both sides.
pub proof fn lemma_entry_ok_preserved(
    b0: Seq<(Price, Seq<Order>)>,
    a0: Seq<(Price, Seq<Order>)>,
    b1: Seq<(Price, Seq<Order>)>,
    a1: Seq<(Price, Seq<Order>)>,
    e: IndexEntry,
)
    requires
        forall|i: int, k: int|
            0 <= i < b0.len() && 0 <= k < b0[i].1.len() ==> has_entry_at(
                b1,
                b0[i].0,
                #[trigger] b0[i].1[k],
            ),
        forall|i: int, k: int|
            0 <= i < a0.len() && 0 <= k < a0[i].1.len() ==> has_entry_at(
                a1,
                a0[i].0,
                #[trigger] a0[i].1[k],
            ),
        entry_ok(b0, a0, e),
    ensures
        entry_ok(b1, a1, e),
{
    if e.bid_or_ask == BidorAsk::Bid {
        let i = choose|i: int|
            0 <= i < b0.len() && (#[trigger] b0[i]).0 == e.price && exists|k: int|
                0 <= k < b0[i].1.len() && (#[trigger] b0[i].1[k]).id == e.id;
        let k = choose|k: int| 0 <= k < b0[i].1.len() && (#[trigger] b0[i].1[k]).id == e.id;
        assert(has_entry_at(b1, b0[i].0, b0[i].1[k]));
        let i2 = choose|i2: int|
            0 <= i2 < b1.len() && (#[trigger] b1[i2]).0 == b0[i].0 && exists|k2: int|
                0 <= k2 < b1[i2].1.len() && (#[trigger] b1[i2].1[k2]) == b0[i].1[k];
        let k2 = choose|k2: int|
            0 <= k2 < b1[i2].1.len() && (#[trigger] b1[i2].1[k2]) == b0[i].1[k];
        assert(b1[i2].0 == e.price && b1[i2].1[k2].id == e.id);
    } else {
        let i = choose|i: int|
            0 <= i < a0.len() && (#[trigger] a0[i]).0 == e.price && exists|k: int|
                0 <= k < a0[i].1.len() && (#[trigger] a0[i].1[k]).id == e.id;
        let k = choose|k: int| 0 <= k < a0[i].1.len() && (#[trigger] a0[i].1[k]).id == e.id;
        assert(has_entry_at(a1, a0[i].0, a0[i].1[k]));
        let i2 = choose|i2: int|
            0 <= i2 < a1.len() && (#[trigger] a1[i2]).0 == a0[i].0 && exists|k2: int|
                0 <= k2 < a1[i2].1.len() && (#[trigger] a1[i2].1[k2]) == a0[i].1[k];
        let k2 = choose|k2: int|
            0 <= k2 < a1[i2].1.len() && (#[trigger] a1[i2].1[k2]) == a0[i].1[k];
        assert(a1[i2].0 == e.price && a1[i2].1[k2].id == e.id);
    }
}

/// A side stays fully indexed after an insertion: old orders keep their
/// old entries, and the inserted order has the pushed entry.
pub proof fn lemma_side_indexed_after_insert(
    s0: Seq<(Price, Seq<Order>)>,
    t: Seq<(Price, Seq<Order>)>,
    side: BidorAsk,
    idx0: Seq<IndexEntry>,
    order: Order,
    price: Price,
)
    requires
        side_indexed(s0, side, idx0),
        forall|i: int, k: int|
            0 <= i < t.len() && 0 <= k < t[i].1.len() ==> ((#[trigger] t[i].1[k]) == order && t[i].0
                == price) || has_entry_at(s0, t[i].0, t[i].1[k]),
    ensures
        side_indexed(
            t,
            side,
            idx0.push(IndexEntry { id: order.id, bid_or_ask: side, price }),
        ),
{
    let entry = IndexEntry { id: order.id, bid_or_ask: side, price };
    let idx1 = idx0.push(entry);
    assert(forall|j: int| 0 <= j < idx0.len() ==> #[trigger] idx1[j] == idx0[j]);
    assert(idx1[idx0.len() as int] == entry);
    assert forall|i: int, k: int|
        0 <= i < t.len() && 0 <= k < t[i].1.len() implies idx1.contains(
        #[trigger] entry_for(t, side, i, k),
    ) by {
        if t[i].1[k] == order && t[i].0 == price {
            assert(entry_for(t, side, i, k) == entry);
        } else {
            assert(has_entry_at(s0, t[i].0, t[i].1[k]));
            let i2 = choose|i2: int|
                0 <= i2 < s0.len() && (#[trigger] s0[i2]).0 == t[i].0 && exists|k2: int|
                    0 <= k2 < s0[i2].1.len() && (#[trigger] s0[i2].1[k2]) == t[i].1[k];
            let k2 = choose|k2: int|
                0 <= k2 < s0[i2].1.len() && (#[trigger] s0[i2].1[k2]) == t[i].1[k];
            assert(idx0.contains(entry_for(s0, side, i2, k2)));
            assert(entry_for(s0, side, i2, k2) == entry_for(t, side, i, k));
            let j = choose|j: int| 0 <= j < idx0.len() && idx0[j] == entry_for(t, side, i, k);
            assert(idx1[j] == entry_for(t, side, i, k));
        }
    }
}

/// An untouched side stays fully indexed when the index only grows.
pub proof fn lemma_side_indexed_push(
    s: Seq<(Price, Seq<Order>)>,
    side: BidorAsk,
    idx0: Seq<IndexEntry>,
    entry: IndexEntry,
)
    requires
        side_indexed(s, side, idx0),
    ensures
        side_indexed(s, side, idx0.push(entry)),
{
    let idx1 = idx0.push(entry);
    assert forall|i: int, k: int|
        0 <= i < s.len() && 0 <= k < s[i].1.len() implies idx1.contains(
        #[trigger] entry_for(s, side, i, k),
    ) by {
        assert(idx0.contains(entry_for(s, side, i, k)));
        let j = choose|j: int| 0 <= j < idx0.len() && idx0[j] == entry_for(s, side, i, k);
        assert(idx1[j] == entry_for(s, side, i, k));
    }
}

/// Index ids stay distinct when the pushed entry's id rests nowhere.
pub proof fn lemma_index_distinct_push(
    b0: Seq<(Price, Seq<Order>)>,
    a0: Seq<(Price, Seq<Order>)>,
    idx0: Seq<IndexEntry>,
    entry: IndexEntry,
)
    requires
        index_ids_distinct(idx0),
        forall|j: int| 0 <= j < idx0.len() ==> entry_ok(b0, a0, #[trigger] idx0[j]),
        !has_order(b0, entry.id),
        !has_order(a0, entry.id),
    ensures
        index_ids_distinct(idx0.push(entry)),
{
    let idx1 = idx0.push(entry);
    assert forall|j1: int, j2: int|
        0 <= j1 < idx1.len() && 0 <= j2 < idx1.len() && j1 != j2 implies (#[trigger] idx1[j1]).id
        != (#[trigger] idx1[j2]).id by {
        if j1 == idx0.len() || j2 == idx0.len() {
            let jo = if j1 == idx0.len() {
                j2
            } else {
                j1
            };
            let e = idx0[jo];
            assert(entry_ok(b0, a0, e));
            if e.id == entry.id {
                let s0 = if e.bid_or_ask == BidorAsk::Bid {
                    b0
                } else {
                    a0
                };
                let i = choose|i: int|
                    0 <= i < s0.len() && (#[trigger] s0[i]).0 == e.price && exists|k: int|
                        0 <= k < s0[i].1.len() && (#[trigger] s0[i].1[k]).id == e.id;
                let k = choose|k: int|
                    0 <= k < s0[i].1.len() && (#[trigger] s0[i].1[k]).id == e.id;
                assert(has_order(s0, entry.id));
            }
        } else {
            assert(idx1[j1] == idx0[j1] && idx1[j2] == idx0[j2]);
        }
    }
}

impl OrderBook {
    /// Rests an already-stamped order at its price level and registers
    /// it in the reverse index.
    fn rest_stamped(&mut self, price: Price, order: Order)
        requires
            old(self).wf(),
            order_valid(order),
            order.remaining_size >= 1,
            order.id < old(self).next_order_id,
            !old(self).resting(order.id),
        ensures
            final(self).wf(),
            final(self).next_order_id == old(self).next_order_id,
            final(self).order_index@ == old(self).order_index@.push(
                IndexEntry { id: order.id, bid_or_ask: order.bid_or_ask, price },
            ),
            order.bid_or_ask == BidorAsk::Bid ==> side_view(final(self).bids@) == insert_view(
                side_view(old(self).bids@),
                price,
                order,
                BidorAsk::Bid,
            ) && final(self).asks@ == old(self).asks@,
            order.bid_or_ask == BidorAsk::Ask ==> side_view(final(self).asks@) == insert_view(
                side_view(old(self).asks@),
                price,
                order,
                BidorAsk::Ask,
            ) && final(self).bids@ == old(self).bids@,
            forall|x: u64| final(self).resting(x) == (old(self).resting(x) || x == order.id),
            final(self).uncrossed() || !old(self).uncrossed() || (match order.bid_or_ask {
                BidorAsk::Bid => old(self).asks@.len() > 0 && price.units >= side_view(
                    old(self).asks@,
                )[0].0.units,
                BidorAsk::Ask => old(self).bids@.len() > 0 && price.units <= side_view(
                    old(self).bids@,
                )[0].0.units,
            }),
    {
        let side = order.bid_or_ask;
        let entry = IndexEntry { id: order.id, bid_or_ask: side, price };
        let ghost s = match side {
            BidorAsk::Bid => side_view(self.bids@),
            BidorAsk::Ask => side_view(self.asks@),
        };
        let ghost other = match side {
            BidorAsk::Bid => side_view(self.asks@),
            BidorAsk::Ask => side_view(self.bids@),
        };
        proof {
            if has_order(s, order.id) {
                assert(old(self).resting(order.id));
            }
            lemma_insert_basic(s, price, order, side, old(self).next_order_id);
            lemma_insert_ids(s, price, order, side, old(self).next_order_id);
            lemma_insert_entries(s, price, order, side, old(self).next_order_id);
        }
        match side {
            BidorAsk::Bid => insert_into(&mut self.bids, price, order),
            BidorAsk::Ask => insert_into(&mut self.asks, price, order),
        }
        self.order_index.push(entry);
        proof {
            let t = insert_view(s, price, order, side);
            let idx0 = old(self).order_index@;
            let idx1 = self.order_index@;
            let b1 = side_view(self.bids@);
            let a1 = side_view(self.asks@);
            let b0 = side_view(old(self).bids@);
            let a0 = side_view(old(self).asks@);
            assert(!has_order(b0, order.id) && !has_order(a0, order.id));
            // the untouched side corresponds to itself
            assert forall|i: int, k: int|
                0 <= i < other.len() && 0 <= k < other[i].1.len() implies has_entry_at(
                other,
                other[i].0,
                #[trigger] other[i].1[k],
            ) by {
                assert(other[i].0 == other[i].0 && other[i].1[k] == other[i].1[k]);
            }
            assert forall|j: int| 0 <= j < idx1.len() implies entry_ok(
                b1,
                a1,
                #[trigger] idx1[j],
            ) by {
                if j < idx0.len() {
                    lemma_entry_ok_preserved(b0, a0, b1, a1, idx0[j]);
                    assert(idx1[j] == idx0[j]);
                } else {
                    assert(idx1[j] == entry);
                    assert(has_entry_at(t, price, order));
                    let i = choose|i: int|
                        0 <= i < t.len() && (#[trigger] t[i]).0 == price && exists|k: int|
                            0 <= k < t[i].1.len() && (#[trigger] t[i].1[k]) == order;
                    let k = choose|k: int|
                        0 <= k < t[i].1.len() && (#[trigger] t[i].1[k]) == order;
                    assert(t[i].1[k].id == entry.id);
                }
            }
            match side {
                BidorAsk::Bid => {
                    lemma_side_indexed_after_insert(b0, t, BidorAsk::Bid, idx0, order, price);
                    lemma_side_indexed_push(a0, BidorAsk::Ask, idx0, entry);
                },
                BidorAsk::Ask => {
                    lemma_side_indexed_after_insert(a0, t, BidorAsk::Ask, idx0, order, price);
                    lemma_side_indexed_push(b0, BidorAsk::Bid, idx0, entry);
                },
            }
            lemma_index_distinct_push(b0, a0, idx0, entry);
            assert(final(self).wf());
            assert(forall|x: u64|
                final(self).resting(x) == (old(self).resting(x) || x == order.id)) by {
                assert(forall|x: u64| has_order(t, x) == (has_order(s, x) || x == order.id));
            }
        }
    }

    /// Stamps the next order id on `order`, rests it at `price` on its
    /// own side, and returns the assigned id. Used for the non-crossing
    /// remainder of a submission or a pure resting order.
    pub fn add_order(&mut self, price: Price, order: Order) -> (r: u64)
        requires
            old(self).wf(),
            order_valid(order),
            order.remaining_size >= 1,
            old(self).next_order_id < u64::MAX,
        ensures
            final(self).wf(),
            r == old(self).next_order_id,
            final(self).next_order_id == old(self).next_order_id + 1,
            final(self).order_index@ == old(self).order_index@.push(
                IndexEntry { id: r, bid_or_ask: order.bid_or_ask, price },
            ),
            order.bid_or_ask == BidorAsk::Bid ==> side_view(final(self).bids@) == insert_view(
                side_view(old(self).bids@),
                price,
                Order { id: r, ..order },
                BidorAsk::Bid,
            ) && final(self).asks@ == old(self).asks@,
            order.bid_or_ask == BidorAsk::Ask ==> side_view(final(self).asks@) == insert_view(
                side_view(old(self).asks@),
                price,
                Order { id: r, ..order },
                BidorAsk::Ask,
            ) && final(self).bids@ == old(self).bids@,
            forall|x: u64| final(self).resting(x) == (old(self).resting(x) || x == r),
            final(self).uncrossed() || !old(self).uncrossed() || (match order.bid_or_ask {
                BidorAsk::Bid => old(self).asks@.len() > 0 && price.units >= side_view(
                    old(self).asks@,
                )[0].0.units,
                BidorAsk::Ask => old(self).bids@.len() > 0 && price.units <= side_view(
                    old(self).bids@,
                )[0].0.units,
            }),
    {
        let id = self.next_order_id;
        self.next_order_id = self.next_order_id + 1;
        let stamped = Order {
            id,
            bid_or_ask: order.bid_or_ask,
            original_size: order.original_size,
            remaining_size: order.remaining_size,
        };
        proof {
            if self.resting(id) {
                let s_e = side_view(self.bids@);
                let a_e = side_view(self.asks@);
                if has_order(s_e, id) {
                    let (i, k) = choose|i: int, k: int|
                        0 <= i < s_e.len() && 0 <= k < s_e[i].1.len() && (
                        #[trigger] s_e[i].1[k]).id == id;
                    assert(s_e[i].1[k].id < self.next_order_id);
                } else {
                    let (i, k) = choose|i: int, k: int|
                        0 <= i < a_e.len() && 0 <= k < a_e[i].1.len() && (
                        #[trigger] a_e[i].1[k]).id == id;
                    assert(a_e[i].1[k].id < self.next_order_id);
                }
            }
        }
        self.rest_stamped(price, stamped);
        id
    }

    /// The matching algorithm: assigns the next order id, matches the
    /// incoming order against the opposing side best price first while
    /// it crosses, rests any limit-order remainder, and reports the
    /// fills, the remainder, and how the submission ended. A market
    /// order's unfilled remainder is dropped.
    #[verifier::rlimit(100)]
    pub fn submit(
        &mut self,
        bid_or_ask: BidorAsk,
        limit_price: Option<Price>,
        size: u64,
    ) -> (r: Result<SubmitReport, EngineError>)
        requires
            old(self).wf(),
            old(self).uncrossed(),
            old(self).next_order_id < u64::MAX,
        ensures
            (size == 0) <==> r is Err,
            r is Err ==> *final(self) == *old(self) && r->Err_0 == EngineError::InvalidSize,
            r is Ok ==> submit_post(
                *old(self),
                *final(self),
                bid_or_ask,
                limit_price,
                size,
                r->Ok_0,
            ),
    {
        if size == 0 {
            return Err(EngineError::InvalidSize);
        }
        let id = self.next_order_id;
        self.next_order_id = self.next_order_id + 1;
        let mut taker = Order { id, bid_or_ask, original_size: size, remaining_size: size };
        let lim = match limit_price {
            Some(p) => Some(p.units),
            None => None,
        };
        let ghost next0 = old(self).next_order_id;
        let fills = match bid_or_ask {
            BidorAsk::Bid => {
                let f = match_loop(&mut self.asks, &mut taker, lim, Ghost(next0));
                prune_index_for(&mut self.order_index, &self.asks, BidorAsk::Ask);
                proof {
                    lemma_index_after_match(
                        side_view(self.bids@),
                        side_view(old(self).asks@),
                        side_view(self.asks@),
                        old(self).order_index@,
                        self.order_index@,
                        BidorAsk::Ask,
                    );
                }
                f
            },
            BidorAsk::Ask => {
                let f = match_loop(&mut self.bids, &mut taker, lim, Ghost(next0));
                prune_index_for(&mut self.order_index, &self.bids, BidorAsk::Bid);
                proof {
                    lemma_index_after_match(
                        side_view(self.asks@),
                        side_view(old(self).bids@),
                        side_view(self.bids@),
                        old(self).order_index@,
                        self.order_index@,
                        BidorAsk::Bid,
                    );
                }
                f
            },
        };
        proof {
            assert(self.wf());
            assert(self.uncrossed());
            assert(!old(self).resting(id)) by {
                if has_order(side_view(old(self).bids@), id) {
                    let (i, k) = choose|i: int, k: int|
                        0 <= i < side_view(old(self).bids@).len() && 0 <= k < side_view(
                            old(self).bids@,
                        )[i].1.len() && (#[trigger] side_view(old(self).bids@)[i].1[k]).id == id;
                }
                if has_order(side_view(old(self).asks@), id) {
                    let (i, k) = choose|i: int, k: int|
                        0 <= i < side_view(old(self).asks@).len() && 0 <= k < side_view(
                            old(self).asks@,
                        )[i].1.len() && (#[trigger] side_view(old(self).asks@)[i].1[k]).id == id;
                }
            }
            assert(!self.resting(id)) by {
                if self.resting(id) {
                    assert(old(self).resting(id));
                }
            }
            assert(forall|x: u64| self.resting(x) ==> old(self).resting(x));
        }
        let ghost mid = *self;
        let remaining = taker.remaining_size;
        let outcome: Outcome;
        if remaining > 0 {
            match limit_price {
                Some(p) => {
                    proof {
                        match bid_or_ask {
                            BidorAsk::Bid => {
                                lemma_insert_basic(
                                    side_view(mid.bids@),
                                    p,
                                    taker,
                                    BidorAsk::Bid,
                                    mid.next_order_id,
                                );
                            },
                            BidorAsk::Ask => {
                                lemma_insert_basic(
                                    side_view(mid.asks@),
                                    p,
                                    taker,
                                    BidorAsk::Ask,
                                    mid.next_order_id,
                                );
                            },
                        }
                    }
                    self.rest_stamped(p, taker);
                    proof {
                        assert(self.uncrossed()) by {
                            match bid_or_ask {
                                BidorAsk::Bid => {
                                    if mid.asks@.len() > 0 {
                                        assert(!price_crosses(
                                            BidorAsk::Bid,
                                            Some(p.units),
                                            side_view(mid.asks@)[0].0.units,
                                        ));
                                    }
                                },
                                BidorAsk::Ask => {
                                    if mid.bids@.len() > 0 {
                                        assert(!price_crosses(
                                            BidorAsk::Ask,
                                            Some(p.units),
                                            side_view(mid.bids@)[0].0.units,
                                        ));
                                    }
                                },
                            }
                        }
                    }
                    outcome = if fills.len() == 0 {
                        Outcome::Resting
                    } else {
                        Outcome::PartiallyFilled
                    };
                },
                None => {
                    outcome = Outcome::InsufficientLiquidity;
                },
            }
        } else {
            outcome = Outcome::Filled;
        }
        Ok(SubmitReport { order_id: id, outcome, fills, remaining_size: remaining })
    }

    /// Cancels the resting order with the given id: removes it from the
    /// reverse index and from its level's queue, dropping the level if
    /// it empties. Fails with `OrderNotFound` when no such order rests,
    /// so a second cancel of the same id always fails.
    #[verifier::rlimit(100)]
    pub fn cancel(&mut self, order_id: u64) -> (r: Result<(), EngineError>)
        requires
            old(self).wf(),
            old(self).uncrossed(),
        ensures
            r is Ok <==> old(self).resting(order_id),
            r is Err ==> *final(self) == *old(self) && r->Err_0 == EngineError::OrderNotFound,
            r is Ok ==> cancel_post(*old(self), *final(self), order_id),
    {
        let ghost idx0 = self.order_index@;
        let ghost b0 = side_view(self.bids@);
        let ghost a0 = side_view(self.asks@);
        let mut j: usize = 0;
        while j < self.order_index.len() && self.order_index[j].id != order_id
            invariant
                j <= idx0.len(),
                *self == *old(self),
                idx0 == self.order_index@,
                forall|j2: int| 0 <= j2 < j ==> (#[trigger] idx0[j2]).id != order_id,
            decreases idx0.len() - j,
        {
            j = j + 1;
        }
        if j == self.order_index.len() {
            proof {
                if old(self).resting(order_id) {
                    if has_order(b0, order_id) {
                        let (i, k) = choose|i: int, k: int|
                            0 <= i < b0.len() && 0 <= k < b0[i].1.len() && (
                            #[trigger] b0[i].1[k]).id == order_id;
                        assert(idx0.contains(entry_for(b0, BidorAsk::Bid, i, k)));
                        let j2 = choose|j2: int|
                            0 <= j2 < idx0.len() && idx0[j2] == entry_for(b0, BidorAsk::Bid, i, k);
                    } else {
                        let (i, k) = choose|i: int, k: int|
                            0 <= i < a0.len() && 0 <= k < a0[i].1.len() && (
                            #[trigger] a0[i].1[k]).id == order_id;
                        assert(idx0.contains(entry_for(a0, BidorAsk::Ask, i, k)));
                        let j2 = choose|j2: int|
                            0 <= j2 < idx0.len() && idx0[j2] == entry_for(a0, BidorAsk::Ask, i, k);
                    }
                }
            }
            return Err(EngineError::OrderNotFound);
        }
        let e = self.order_index[j];
        self.order_index.remove(j);
        let ghost idx1 = self.order_index@;
        proof {
            assert(idx1 =~= idx0.remove(j as int));
            assert(idx1 =~= idx0.take(j as int) + idx0.skip(j as int + 1));
            assert(forall|t: int| 0 <= t < j ==> #[trigger] idx1[t] == idx0[t]);
            assert(forall|t: int| j <= t < idx1.len() ==> #[trigger] idx1[t] == idx0[t + 1]);
            assert(index_ids_distinct(idx1)) by {
                assert forall|t1: int, t2: int|
                    0 <= t1 < idx1.len() && 0 <= t2 < idx1.len() && t1 != t2 implies (
                #[trigger] idx1[t1]).id != (#[trigger] idx1[t2]).id by {
                    let m1 = if t1 < j {
                        t1
                    } else {
                        t1 + 1
                    };
                    let m2 = if t2 < j {
                        t2
                    } else {
                        t2 + 1
                    };
                    assert(idx1[t1] == idx0[m1] && idx1[t2] == idx0[m2]);
                }
            }
            assert(entry_ok(b0, a0, e));
            // the entry's own side holds the order, and uniquely
            match e.bid_or_ask {
                BidorAsk::Bid => {
                    assert(side_has_entry(b0, e));
                    assert(has_id_at(b0, e.price, order_id));
                    assert forall|i1: int, k1: int, i2: int, k2: int|
                        0 <= i1 < b0.len() && 0 <= k1 < b0[i1].1.len() && 0 <= i2 < b0.len() && 0
                            <= k2 < b0[i2].1.len() && (#[trigger] b0[i1].1[k1]).id == (
                    #[trigger] b0[i2].1[k2]).id implies i1 == i2 && k1 == k2 by {
                        lemma_book_id_unique(b0, BidorAsk::Bid, idx0, i1, k1, i2, k2);
                    }
                },
                BidorAsk::Ask => {
                    assert(side_has_entry(a0, e));
                    assert(has_id_at(a0, e.price, order_id));
                    assert forall|i1: int, k1: int, i2: int, k2: int|
                        0 <= i1 < a0.len() && 0 <= k1 < a0[i1].1.len() && 0 <= i2 < a0.len() && 0
                            <= k2 < a0[i2].1.len() && (#[trigger] a0[i1].1[k1]).id == (
                    #[trigger] a0[i2].1[k2]).id implies i1 == i2 && k1 == k2 by {
                        lemma_book_id_unique(a0, BidorAsk::Ask, idx0, i1, k1, i2, k2);
                    }
                },
            }
        }
        match e.bid_or_ask {
            BidorAsk::Bid => {
                remove_from_side(&mut self.bids, e.price, order_id, Ghost(BidorAsk::Bid));
                proof {
                    assert forall|t: int|
                        0 <= t < idx1.len() implies idx0.contains(#[trigger] idx1[t]) && (
                    idx1[t].bid_or_ask != BidorAsk::Bid || has_order(
                        side_view(self.bids@),
                        idx1[t].id,
                    )) by {
                        let m = if t < j {
                            t
                        } else {
                            t + 1
                        };
                        assert(idx1[t] == idx0[m]);
                        if idx1[t].bid_or_ask == BidorAsk::Bid {
                            assert(entry_ok(b0, a0, idx0[m]));
                            assert(side_has_entry(b0, idx0[m]));
                            let i2 = choose|i2: int|
                                0 <= i2 < b0.len() && (#[trigger] b0[i2]).0 == idx0[m].price
                                    && exists|k2: int|
                                    0 <= k2 < b0[i2].1.len() && (#[trigger] b0[i2].1[k2]).id
                                        == idx0[m].id;
                            let k2 = choose|k2: int|
                                0 <= k2 < b0[i2].1.len() && (#[trigger] b0[i2].1[k2]).id
                                    == idx0[m].id;
                            assert(idx1[t].id != order_id);
                            assert(has_order(b0, idx1[t].id));
                        }
                    }
                    assert forall|j2: int|
                        0 <= j2 < idx0.len() && ((#[trigger] idx0[j2]).bid_or_ask != BidorAsk::Bid
                            || has_order(side_view(self.bids@), idx0[j2].id)) implies idx1.contains(
                        idx0[j2],
                    ) by {
                        if j2 != j {
                            let t = if j2 < j {
                                j2
                            } else {
                                j2 - 1
                            };
                            assert(idx1[t] == idx0[j2]);
                        } else {
                            assert(!has_order(side_view(self.bids@), order_id));
                        }
                    }
                    lemma_index_after_match(
                        a0,
                        b0,
                        side_view(self.bids@),
                        idx0,
                        idx1,
                        BidorAsk::Bid,
                    );
                    assert(self.wf());
                }
            },
            BidorAsk::Ask => {
                remove_from_side(&mut self.asks, e.price, order_id, Ghost(BidorAsk::Ask));
                proof {
                    assert forall|t: int|
                        0 <= t < idx1.len() implies idx0.contains(#[trigger] idx1[t]) && (
                    idx1[t].bid_or_ask != BidorAsk::Ask || has_order(
                        side_view(self.asks@),
                        idx1[t].id,
                    )) by {
                        let m = if t < j {
                            t
                        } else {
                            t + 1
                        };
                        assert(idx1[t] == idx0[m]);
                        if idx1[t].bid_or_ask == BidorAsk::Ask {
                            assert(entry_ok(b0, a0, idx0[m]));
                            assert(side_has_entry(a0, idx0[m]));
                            let i2 = choose|i2: int|
                                0 <= i2 < a0.len() && (#[trigger] a0[i2]).0 == idx0[m].price
                                    && exists|k2: int|
                                    0 <= k2 < a0[i2].1.len() && (#[trigger] a0[i2].1[k2]).id
                                        == idx0[m].id;
                            let k2 = choose|k2: int|
                                0 <= k2 < a0[i2].1.len() && (#[trigger] a0[i2].1[k2]).id
                                    == idx0[m].id;
                            assert(idx1[t].id != order_id);
                            assert(has_order(a0, idx1[t].id));
                        }
                    }
                    assert forall|j2: int|
                        0 <= j2 < idx0.len() && ((#[trigger] idx0[j2]).bid_or_ask != BidorAsk::Ask
                            || has_order(side_view(self.asks@), idx0[j2].id)) implies idx1.contains(
                        idx0[j2],
                    ) by {
                        if j2 != j {
                            let t = if j2 < j {
                                j2
                            } else {
                                j2 - 1
                            };
                            assert(idx1[t] == idx0[j2]);
                        } else {
                            assert(!has_order(side_view(self.asks@), order_id));
                        }
                    }
                    lemma_index_after_match(
                        b0,
                        a0,
                        side_view(self.asks@),
                        idx0,
                        idx1,
                        BidorAsk::Ask,
                    );
                    assert(self.wf());
                }
            },
        }
        proof {
            assert(old(self).resting(order_id)) by {
                match e.bid_or_ask {
                    BidorAsk::Bid => {
                        assert(has_id_at(b0, e.price, order_id));
                        let i2 = choose|i2: int|
                            0 <= i2 < b0.len() && (#[trigger] b0[i2]).0 == e.price && exists|
                                k2: int,
                            |
                                0 <= k2 < b0[i2].1.len() && (#[trigger] b0[i2].1[k2]).id
                                    == order_id;
                        let k2 = choose|k2: int|
                            0 <= k2 < b0[i2].1.len() && (#[trigger] b0[i2].1[k2]).id == order_id;
                        assert(has_order(b0, order_id));
                    },
                    BidorAsk::Ask => {
                        assert(has_id_at(a0, e.price, order_id));
                        let i2 = choose|i2: int|
                            0 <= i2 < a0.len() && (#[trigger] a0[i2]).0 == e.price && exists|
                                k2: int,
                            |
                                0 <= k2 < a0[i2].1.len() && (#[trigger] a0[i2].1[k2]).id
                                    == order_id;
                        let k2 = choose|k2: int|
                            0 <= k2 < a0[i2].1.len() && (#[trigger] a0[i2].1[k2]).id == order_id;
                        assert(has_order(a0, order_id));
                    },
                }
            }
            assert(self.uncrossed()) by {
                if side_view(self.bids@).len() > 0 && side_view(self.asks@).len() > 0 {
                    match e.bid_or_ask {
                        BidorAsk::Bid => {
                            assert(!price_before(
                                side_view(self.bids@)[0].0.units,
                                b0[0].0.units,
                                BidorAsk::Bid,
                            ));
                            assert(side_view(self.asks@) == a0);
                        },
                        BidorAsk::Ask => {
                            assert(!price_before(
                                side_view(self.asks@)[0].0.units,
                                a0[0].0.units,
                                BidorAsk::Ask,
                            ));
                            assert(side_view(self.bids@) == b0);
                        },
                    }
                }
            }
            assert forall|x: u64|
                final(self).resting(x) == (old(self).resting(x) && x != order_id) by {
                match e.bid_or_ask {
                    BidorAsk::Bid => {
                        assert(has_order(side_view(self.bids@), x) == (has_order(b0, x) && x
                            != order_id));
                        if has_order(a0, x) && x == order_id {
                            assert(has_order(b0, order_id));
                            let (i1, k1) = choose|i1: int, k1: int|
                                0 <= i1 < b0.len() && 0 <= k1 < b0[i1].1.len() && (
                                #[trigger] b0[i1].1[k1]).id == x;
                            let (i2, k2) = choose|i2: int, k2: int|
                                0 <= i2 < a0.len() && 0 <= k2 < a0[i2].1.len() && (
                                #[trigger] a0[i2].1[k2]).id == x;
                            assert(idx0.contains(entry_for(b0, BidorAsk::Bid, i1, k1)));
                            assert(idx0.contains(entry_for(a0, BidorAsk::Ask, i2, k2)));
                            let j1 = choose|j1: int|
                                0 <= j1 < idx0.len() && idx0[j1] == entry_for(
                                    b0,
                                    BidorAsk::Bid,
                                    i1,
                                    k1,
                                );
                            let j2 = choose|j2: int|
                                0 <= j2 < idx0.len() && idx0[j2] == entry_for(
                                    a0,
                                    BidorAsk::Ask,
                                    i2,
                                    k2,
                                );
                            assert(j1 != j2);
                            assert(idx0[j1].id != idx0[j2].id);
                        }
                    },
                    BidorAsk::Ask => {
                        assert(has_order(side_view(self.asks@), x) == (has_order(a0, x) && x
                            != order_id));
                        if has_order(b0, x) && x == order_id {
                            assert(has_order(a0, order_id));
                            let (i1, k1) = choose|i1: int, k1: int|
                                0 <= i1 < b0.len() && 0 <= k1 < b0[i1].1.len() && (
                                #[trigger] b0[i1].1[k1]).id == x;
                            let (i2, k2) = choose|i2: int, k2: int|
                                0 <= i2 < a0.len() && 0 <= k2 < a0[i2].1.len() && (
                                #[trigger] a0[i2].1[k2]).id == x;
                            assert(idx0.contains(entry_for(b0, BidorAsk::Bid, i1, k1)));
                            assert(idx0.contains(entry_for(a0, BidorAsk::Ask, i2, k2)));
                            let j1 = choose|j1: int|
                                0 <= j1 < idx0.len() && idx0[j1] == entry_for(
                                    b0,
                                    BidorAsk::Bid,
                                    i1,
                                    k1,
                                );
                            let j2 = choose|j2: int|
                                0 <= j2 < idx0.len() && idx0[j2] == entry_for(
                                    a0,
                                    BidorAsk::Ask,
                                    i2,
                                    k2,
                                );
                            assert(j1 != j2);
                            assert(idx0[j1].id != idx0[j2].id);
                        }
                    },
                }
            }
            assert forall|j2: int| 0 <= j2 < self.order_index@.len() implies (#[trigger] self
                .order_index@[j2]).id != order_id by {
                if self.order_index@[j2].id == order_id {
                    assert(entry_ok(
                        side_view(self.bids@),
                        side_view(self.asks@),
                        self.order_index@[j2],
                    ));
                    assert(!self.resting(order_id));
                }
            }
        }
        Ok(())
    }

    /// A depth-limited view of the book: for each side, the first
    /// `depth` price levels from the best, each with its aggregate
    /// resting volume and without any order identities.
    pub fn snapshot(&self, depth: usize) -> (r: (Vec<(Price, u128)>, Vec<(Price, u128)>))
        ensures
            snapshot_side_post(self.bids@, depth as int, r.0@),
            snapshot_side_post(self.asks@, depth as int, r.1@),
    {
        let bids = Self::side_snapshot(&self.bids, depth);
        let asks = Self::side_snapshot(&self.asks, depth);
        (bids, asks)
    }

    /// The first `depth` levels of one side as (price, volume) pairs.
    fn side_snapshot(levels: &Vec<Limit>, depth: usize) -> (r: Vec<(Price, u128)>)
        ensures
            snapshot_side_post(levels@, depth as int, r@),
    {
        let mut out: Vec<(Price, u128)> = Vec::new();
        let mut i: usize = 0;
        while i < depth && i < levels.len()
            invariant
                i <= levels@.len(),
                i <= depth,
                i < depth || out@.len() == depth,
                out@.len() == i as int,
                forall|j: int|
                    0 <= j < i ==> (#[trigger] out@[j]).0 == side_view(levels@)[j].0 && out@[j].1
                        as int == sum_remaining(side_view(levels@)[j].1),
            decreases levels@.len() - i,
        {
            let vol = queue_volume_wide(&levels[i].orders);
            out.push((levels[i].price, vol));
            proof {
                assert(side_view(levels@)[i as int] == (
                    levels@[i as int].price,
                    levels@[i as int].orders@,
                ));
            }
            i = i + 1;
        }
        out
    }
}

/// Whether a level at `units` is eligible to match a taker of `side`
/// with limit `lim` (`None` for a market order): crossing is inclusive
/// of an equal price.
pub open spec fn price_crosses(side: BidorAsk, lim: Option<u64>, units: u64) -> bool {
    match lim {
        Option::None => true,
        Option::Some(l) => match side {
            BidorAsk::Bid => units <= l,
            BidorAsk::Ask => units >= l,
        },
    }
}

/// Whether an order with the given id rests at the given price on `s`.
pub open spec fn has_id_at(s: Seq<(Price, Seq<Order>)>, price: Price, id: u64) -> bool {
    exists|i: int|
        0 <= i < s.len() && (#[trigger] s[i]).0 == price && exists|k: int|
            0 <= k < s[i].1.len() && (#[trigger] s[i].1[k]).id == id
}

/// Number of resting orders across all levels of one side.
pub open spec fn levels_order_count(s: Seq<(Price, Seq<Order>)>) -> int
    decreases s.len(),
{
    if s.len() == 0 {
        0
    } else {
        s[0].1.len() + levels_order_count(s.drop_first())
    }
}

/// A non-empty well-formed side holds at least one order, and a count
/// is never negative.
pub proof fn lemma_levels_order_count_pos(s: Seq<(Price, Seq<Order>)>, side: BidorAsk)
    requires
        levels_wf(s, side),
    ensures
        levels_order_count(s) >= 0,
        s.len() > 0 ==> levels_order_count(s) >= 1,
    decreases s.len(),
{
    if s.len() > 0 {
        assert(levels_wf(s.drop_first(), side)) by {
            assert(forall|i: int|
                0 <= i < s.len() - 1 ==> #[trigger] s.drop_first()[i] == s[i + 1]);
        }
        lemma_levels_order_count_pos(s.drop_first(), side);
    }
}

/// A level walk touches at most one maker beyond those it removes.
pub proof fn lemma_level_fill_count(q: Seq<Order>, taker_id: u64, price: Price, r: int)
    requires
        r >= 0,
    ensures
        level_fills(q, taker_id, price, r).len() <= q.len() - level_queue(q, r).len() + 1,
        level_queue(q, r).len() == 0 ==> level_fills(q, taker_id, price, r).len() <= q.len(),
    decreases q.len(),
{
    if r <= 0 || q.len() == 0 {
    } else if q[0].remaining_size <= r {
        lemma_level_fill_count(q.drop_first(), taker_id, price, r - q[0].remaining_size);
    }
}

/// Sum of fill sizes distributes over concatenation.
pub proof fn lemma_sum_fills_add(a: Seq<Fill>, b: Seq<Fill>)
    ensures
        sum_fills(a + b) == sum_fills(a) + sum_fills(b),
    decreases a.len(),
{
    if a.len() == 0 {
        assert(a + b =~= b);
    } else {
        lemma_sum_fills_add(a.drop_first(), b);
        assert((a + b).drop_first() =~= a.drop_first() + b);
        assert((a + b)[0] == a[0]);
    }
}

/// Whether the level at `units` may match the taker.
fn crosses(side: BidorAsk, lim: Option<u64>, units: u64) -> (r: bool)
    ensures
        r == price_crosses(side, lim, units),
{
    match lim {
        Option::None => true,
        Option::Some(l) => match side {
            BidorAsk::Bid => units <= l,
            BidorAsk::Ask => units >= l,
        },
    }
}

/// Walks the opposing side's levels from the best price while the
/// taker has size left and the best level crosses, filling each level
/// in strict arrival order and removing exhausted levels.
#[verifier::rlimit(100)]
fn match_loop(
    levels: &mut Vec<Limit>,
    taker: &mut Order,
    lim: Option<u64>,
    Ghost(bound): Ghost<u64>,
) -> (fills: Vec<Fill>)
    requires
        levels_sorted(side_view(old(levels)@), old(taker).bid_or_ask.opposite()),
        levels_wf(side_view(old(levels)@), old(taker).bid_or_ask.opposite()),
        levels_ids_distinct(side_view(old(levels)@)),
        ids_below(side_view(old(levels)@), bound),
        order_valid(*old(taker)),
    ensures
        ({
            let v0 = side_view(old(levels)@);
            let v1 = side_view(final(levels)@);
            let ms = old(taker).bid_or_ask.opposite();
            &&& final(taker).id == old(taker).id
            &&& final(taker).bid_or_ask == old(taker).bid_or_ask
            &&& final(taker).original_size == old(taker).original_size
            &&& final(taker).remaining_size <= old(taker).remaining_size
            &&& levels_sorted(v1, ms)
            &&& levels_wf(v1, ms)
            &&& levels_ids_distinct(v1)
            &&& ids_below(v1, bound)
            &&& levels_volume(v1) + sum_fills(fills@) == levels_volume(v0)
            &&& final(taker).remaining_size as int == old(taker).remaining_size - sum_fills(
                fills@,
            )
            &&& (forall|n: int|
                0 <= n < fills@.len() ==> {
                    let f = #[trigger] fills@[n];
                    f.taker_order_id == old(taker).id && 1 <= f.size && price_crosses(
                        old(taker).bid_or_ask,
                        lim,
                        f.price.units,
                    ) && has_order(v0, f.maker_order_id)
                })
            &&& (forall|x: u64| has_order(v1, x) ==> has_order(v0, x))
            &&& (forall|i: int, k: int|
                0 <= i < v1.len() && 0 <= k < v1[i].1.len() ==> has_id_at(
                    v0,
                    v1[i].0,
                    (#[trigger] v1[i].1[k]).id,
                ))
            &&& (final(taker).remaining_size > 0 ==> v1.len() == 0 || !price_crosses(
                old(taker).bid_or_ask,
                lim,
                v1[0].0.units,
            ))
            &&& (v1.len() > 0 ==> v0.len() > 0 && !price_before(v1[0].0.units, v0[0].0.units, ms))
            &&& (forall|n1: int, n2: int|
                0 <= n1 < n2 < fills@.len() ==> !price_before(
                    (#[trigger] fills@[n2]).price.units,
                    (#[trigger] fills@[n1]).price.units,
                    ms,
                ))
            &&& fills@.len() <= levels_order_count(v0)
        }),
{
    let ghost v0 = side_view(old(levels)@);
    let ghost ms = old(taker).bid_or_ask.opposite();
    let side = taker.bid_or_ask;
    let mut fills: Vec<Fill> = Vec::new();
    loop
        invariant
            taker.id == old(taker).id,
            taker.bid_or_ask == old(taker).bid_or_ask,
            taker.original_size == old(taker).original_size,
            taker.remaining_size <= old(taker).remaining_size,
            order_valid(*taker),
            side == taker.bid_or_ask,
            ms == side.opposite(),
            v0 == side_view(old(levels)@),
            levels_sorted(side_view(levels@), ms),
            levels_wf(side_view(levels@), ms),
            levels_ids_distinct(side_view(levels@)),
            ids_below(side_view(levels@), bound),
            levels_volume(side_view(levels@)) + sum_fills(fills@) == levels_volume(v0),
            taker.remaining_size as int == old(taker).remaining_size - sum_fills(fills@),
            forall|n: int|
                0 <= n < fills@.len() ==> {
                    let f = #[trigger] fills@[n];
                    f.taker_order_id == old(taker).id && 1 <= f.size && price_crosses(
                        side,
                        lim,
                        f.price.units,
                    ) && has_order(v0, f.maker_order_id)
                },
            forall|x: u64| has_order(side_view(levels@), x) ==> has_order(v0, x),
            forall|i: int, k: int|
                0 <= i < side_view(levels@).len() && 0 <= k < side_view(levels@)[i].1.len()
                    ==> has_id_at(
                    v0,
                    side_view(levels@)[i].0,
                    (#[trigger] side_view(levels@)[i].1[k]).id,
                ),
            side_view(levels@).len() > 0 ==> v0.len() > 0 && !price_before(
                side_view(levels@)[0].0.units,
                v0[0].0.units,
                ms,
            ),
            forall|n1: int, n2: int|
                0 <= n1 < n2 < fills@.len() ==> !price_before(
                    (#[trigger] fills@[n2]).price.units,
                    (#[trigger] fills@[n1]).price.units,
                    ms,
                ),
            forall|n: int|
                0 <= n < fills@.len() && side_view(levels@).len() > 0 ==> !price_before(
                    side_view(levels@)[0].0.units,
                    (#[trigger] fills@[n]).price.units,
                    ms,
                ),
            fills@.len() + levels_order_count(side_view(levels@)) <= levels_order_count(v0) + (
            if taker.remaining_size == 0 && side_view(levels@).len() > 0 {
                1int
            } else {
                0int
            }),
        ensures
            taker.id == old(taker).id,
            taker.bid_or_ask == old(taker).bid_or_ask,
            taker.original_size == old(taker).original_size,
            taker.remaining_size <= old(taker).remaining_size,
            levels_sorted(side_view(levels@), ms),
            levels_wf(side_view(levels@), ms),
            levels_ids_distinct(side_view(levels@)),
            ids_below(side_view(levels@), bound),
            levels_volume(side_view(levels@)) + sum_fills(fills@) == levels_volume(v0),
            taker.remaining_size as int == old(taker).remaining_size - sum_fills(fills@),
            forall|n: int|
                0 <= n < fills@.len() ==> {
                    let f = #[trigger] fills@[n];
                    f.taker_order_id == old(taker).id && 1 <= f.size && price_crosses(
                        side,
                        lim,
                        f.price.units,
                    ) && has_order(v0, f.maker_order_id)
                },
            forall|x: u64| has_order(side_view(levels@), x) ==> has_order(v0, x),
            forall|i: int, k: int|
                0 <= i < side_view(levels@).len() && 0 <= k < side_view(levels@)[i].1.len()
                    ==> has_id_at(
                    v0,
                    side_view(levels@)[i].0,
                    (#[trigger] side_view(levels@)[i].1[k]).id,
                ),
            taker.remaining_size > 0 ==> side_view(levels@).len() == 0 || !price_crosses(
                side,
                lim,
                side_view(levels@)[0].0.units,
            ),
            side_view(levels@).len() > 0 ==> v0.len() > 0 && !price_before(
                side_view(levels@)[0].0.units,
                v0[0].0.units,
                ms,
            ),
            forall|n1: int, n2: int|
                0 <= n1 < n2 < fills@.len() ==> !price_before(
                    (#[trigger] fills@[n2]).price.units,
                    (#[trigger] fills@[n1]).price.units,
                    ms,
                ),
            fills@.len() + levels_order_count(side_view(levels@)) <= levels_order_count(v0) + (
            if taker.remaining_size == 0 && side_view(levels@).len() > 0 {
                1int
            } else {
                0int
            }),
        decreases taker.remaining_size,
    {
        if taker.remaining_size == 0 {
            break;
        }
        if levels.len() == 0 {
            break;
        }
        proof {
            assert(side_view(levels@)[0] == (levels@[0].price, levels@[0].orders@));
        }
        if !crosses(side, lim, levels[0].price.units) {
            break;
        }
        let ghost v_pre = side_view(levels@);
        let ghost fills_pre = fills@;
        let ghost r_pre = taker.remaining_size as int;
        let mut lvl = levels.remove(0);
        let ghost q0 = lvl.orders@;
        let ghost p0 = lvl.price;
        let mut lf = lvl.fill_order(taker);
        let ghost lfv = lf@;
        fills.append(&mut lf);
        let emptied = lvl.orders.len() == 0;
        if !emptied {
            levels.insert(0, lvl);
        }
        proof {
            let v_now = side_view(levels@);
            let rest = v_pre.drop_first();
            assert(v_pre[0] == (p0, q0));
            assert(forall|i: int| 0 <= i < rest.len() ==> #[trigger] rest[i] == v_pre[i + 1]);
            lemma_level_conservation(q0, taker.id, p0, r_pre);
            lemma_level_fifo(q0, taker.id, p0, r_pre, ms);
            lemma_level_queue_structure(q0, r_pre, ms);
            lemma_sum_fills_add(fills_pre, lfv);
            assert(fills@ == fills_pre + lfv);
            let lq = level_queue(q0, r_pre);
            if emptied {
                assert(v_now =~= rest);
            } else {
                assert(v_now =~= seq![(p0, lq)] + rest);
                assert(v_now[0] == (p0, lq));
                assert(forall|i: int| 1 <= i < v_now.len() ==> #[trigger] v_now[i] == rest[i - 1]);
            }
            // volume bookkeeping
            assert(levels_volume(v_pre) == sum_remaining(q0) + levels_volume(rest));
            if !emptied {
                assert(levels_volume(v_now) == sum_remaining(lq) + levels_volume(rest)) by {
                    assert(v_now.drop_first() =~= rest);
                }
            }
            // fills properties
            assert forall|n: int| 0 <= n < fills@.len() implies {
                let f = #[trigger] fills@[n];
                f.taker_order_id == old(taker).id && 1 <= f.size && price_crosses(
                    side,
                    lim,
                    f.price.units,
                ) && has_order(v0, f.maker_order_id)
            } by {
                if n >= fills_pre.len() {
                    let f = lfv[n - fills_pre.len()];
                    assert(f == level_fills(q0, taker.id, p0, r_pre)[n - fills_pre.len()]);
                    assert(f.price == p0);
                    assert(q0[n - fills_pre.len()].id == f.maker_order_id);
                    assert(has_order(v_pre, f.maker_order_id)) by {
                        assert(v_pre[0].1[n - fills_pre.len()].id == f.maker_order_id);
                    }
                }
            }
            // structural invariants of the remaining levels
            assert forall|i: int, k: int|
                0 <= i < v_now.len() && 0 <= k < v_now[i].1.len() implies has_id_at(
                v0,
                v_now[i].0,
                (#[trigger] v_now[i].1[k]).id,
            ) by {
                if !emptied && i == 0 {
                    let d = q0.len() - lq.len();
                    assert(lq[k].id == q0[d + k].id || (k == 0 && lq[0].id == q0[d as int].id));
                    assert(has_id_at(v_pre, p0, lq[k].id)) by {
                        if k == 0 {
                            assert(v_pre[0].1[d as int].id == lq[0].id);
                        } else {
                            assert(v_pre[0].1[d + k].id == lq[k].id);
                        }
                    }
                } else {
                    let ip = if emptied {
                        i + 1
                    } else {
                        i
                    };
                    assert(v_now[i] == v_pre[ip]);
                    assert(has_id_at(v_pre, v_pre[ip].0, v_pre[ip].1[k].id)) by {
                        assert(v_pre[ip].1[k].id == v_pre[ip].1[k].id);
                    }
                }
            }
            assert forall|x: u64| has_order(v_now, x) implies has_order(v_pre, x) by {
                let (i, k) = choose|i: int, k: int|
                    0 <= i < v_now.len() && 0 <= k < v_now[i].1.len() && (
                    #[trigger] v_now[i].1[k]).id == x;
                if !emptied && i == 0 {
                    let d = q0.len() - lq.len();
                    if k == 0 {
                        assert(v_pre[0].1[d as int].id == x);
                    } else {
                        assert(v_pre[0].1[d + k].id == x);
                    }
                } else {
                    let ip = if emptied {
                        i + 1
                    } else {
                        i
                    };
                    assert(v_pre[ip].1[k].id == x);
                }
            }
            assert(levels_sorted(v_now, ms));
            assert(levels_wf(v_now, ms));
            assert(levels_ids_distinct(v_now)) by {
                assert forall|i: int, k1: int, k2: int|
                    0 <= i < v_now.len() && 0 <= k1 < (#[trigger] v_now[i]).1.len() && 0 <= k2
                        < v_now[i].1.len() && k1 != k2 implies (#[trigger] v_now[i].1[k1]).id != (
                #[trigger] v_now[i].1[k2]).id by {
                    if !emptied && i == 0 {
                        let d = q0.len() - lq.len();
                        let m1 = if k1 == 0 {
                            d
                        } else {
                            d + k1
                        };
                        let m2 = if k2 == 0 {
                            d
                        } else {
                            d + k2
                        };
                        assert(v_now[0].1[k1].id == q0[m1].id && v_now[0].1[k2].id == q0[m2].id);
                    }
                }
            }
            assert(ids_below(v_now, bound)) by {
                assert forall|i: int, k: int|
                    0 <= i < v_now.len() && 0 <= k < v_now[i].1.len() implies (
                #[trigger] v_now[i].1[k]).id < bound by {
                    assert(has_order(v_now, v_now[i].1[k].id));
                    assert(has_order(v_pre, v_now[i].1[k].id));
                    let (i2, k2) = choose|i2: int, k2: int|
                        0 <= i2 < v_pre.len() && 0 <= k2 < v_pre[i2].1.len() && (
                        #[trigger] v_pre[i2].1[k2]).id == v_now[i].1[k].id;
                }
            }
            // fill prices stay monotone toward worse prices
            assert(forall|m: int| 0 <= m < lfv.len() ==> (#[trigger] lfv[m]).price == p0);
            assert forall|n1: int, n2: int|
                0 <= n1 < n2 < fills@.len() implies !price_before(
                (#[trigger] fills@[n2]).price.units,
                (#[trigger] fills@[n1]).price.units,
                ms,
            ) by {
                if n2 >= fills_pre.len() {
                    assert(fills@[n2].price == p0);
                    if n1 < fills_pre.len() {
                        assert(!price_before(v_pre[0].0.units, fills_pre[n1].price.units, ms));
                        assert(fills@[n1] == fills_pre[n1]);
                    }
                } else {
                    assert(fills@[n1] == fills_pre[n1] && fills@[n2] == fills_pre[n2]);
                }
            }
            assert forall|n: int|
                0 <= n < fills@.len() && v_now.len() > 0 implies !price_before(
                v_now[0].0.units,
                (#[trigger] fills@[n]).price.units,
                ms,
            ) by {
                if emptied {
                    assert(v_now[0] == v_pre[1]);
                    assert(price_before(v_pre[0].0.units, v_pre[1].0.units, ms));
                } else {
                    assert(v_now[0].0 == p0);
                }
                if n < fills_pre.len() {
                    assert(!price_before(v_pre[0].0.units, fills_pre[n].price.units, ms));
                    assert(fills@[n] == fills_pre[n]);
                } else {
                    assert(fills@[n].price == p0);
                }
            }
            // the fill count stays bounded by the opposing population
            lemma_level_fill_count(q0, taker.id, p0, r_pre);
            assert(levels_order_count(v_pre) == q0.len() + levels_order_count(rest));
            if emptied {
                assert(levels_order_count(v_now) == levels_order_count(rest));
            } else {
                assert(levels_order_count(v_now) == lq.len() + levels_order_count(rest)) by {
                    assert(v_now.drop_first() =~= rest);
                }
            }
            // taker consumed at least one unit, for termination
            assert(sum_fills(lfv) >= 1) by {
                assert(lfv.len() >= 1);
                assert(lfv[0].size >= 1);
                assert(lfv =~= seq![lfv[0]] + lfv.drop_first());
                lemma_sum_fills_add(seq![lfv[0]], lfv.drop_first());
                reveal_with_fuel(sum_fills, 2);
                lemma_sum_fills_nonneg(lfv.drop_first());
            }
        }
    }
    proof {
        lemma_levels_order_count_pos(side_view(levels@), old(taker).bid_or_ask.opposite());
    }
    fills
}

/// A sum of fill sizes is never negative.
pub proof fn lemma_sum_fills_nonneg(fs: Seq<Fill>)
    ensures
        sum_fills(fs) >= 0,
    decreases fs.len(),
{
    if fs.len() > 0 {
        lemma_sum_fills_nonneg(fs.drop_first());
    }
}

/// Everything one successful submission guarantees, relating the book
/// before (`pre`) and after (`post`) the call to the returned report:
/// conservation, per-fill price crossing and positive size, fills in
/// best-price-first order and bounded by the opposing population, the
/// stop condition, the exact resting of a limit remainder, and the
/// outcome pinned by the remainder and the fills.
pub open spec fn submit_post(
    pre: OrderBook,
    post: OrderBook,
    bid_or_ask: BidorAsk,
    limit_price: Option<Price>,
    size: u64,
    rep: SubmitReport,
) -> bool {
    let opp0 = match bid_or_ask {
        BidorAsk::Bid => side_view(pre.asks@),
        BidorAsk::Ask => side_view(pre.bids@),
    };
    let opp1 = match bid_or_ask {
        BidorAsk::Bid => side_view(post.asks@),
        BidorAsk::Ask => side_view(post.bids@),
    };
    let own0 = match bid_or_ask {
        BidorAsk::Bid => side_view(pre.bids@),
        BidorAsk::Ask => side_view(pre.asks@),
    };
    let own1 = match bid_or_ask {
        BidorAsk::Bid => side_view(post.bids@),
        BidorAsk::Ask => side_view(post.asks@),
    };
    let lim = match limit_price {
        Option::Some(p) => Option::Some(p.units),
        Option::None => Option::<u64>::None,
    };
    &&& post.wf()
    &&& post.uncrossed()
    &&& rep.order_id == pre.next_order_id
    &&& post.next_order_id == pre.next_order_id + 1
    &&& rep.remaining_size as int == size - sum_fills(rep.fills@)
    &&& levels_volume(opp1) + sum_fills(rep.fills@) == levels_volume(opp0)
    &&& rep.fills@.len() <= levels_order_count(opp0)
    &&& (forall|n: int|
        0 <= n < rep.fills@.len() ==> {
            let f = #[trigger] rep.fills@[n];
            f.taker_order_id == rep.order_id && 1 <= f.size && price_crosses(
                bid_or_ask,
                lim,
                f.price.units,
            ) && has_order(opp0, f.maker_order_id)
        })
    &&& (forall|n1: int, n2: int|
        0 <= n1 < n2 < rep.fills@.len() ==> !price_before(
            (#[trigger] rep.fills@[n2]).price.units,
            (#[trigger] rep.fills@[n1]).price.units,
            bid_or_ask.opposite(),
        ))
    &&& (rep.remaining_size > 0 ==> opp1.len() == 0 || !price_crosses(
        bid_or_ask,
        lim,
        opp1[0].0.units,
    ))
    &&& (forall|x: u64| has_order(opp1, x) ==> has_order(opp0, x))
    &&& (rep.outcome == Outcome::Filled <==> rep.remaining_size == 0)
    &&& (limit_price is Some && rep.remaining_size > 0 ==> own1 == insert_view(
        own0,
        limit_price->Some_0,
        Order { id: rep.order_id, bid_or_ask, original_size: size, remaining_size: rep.remaining_size },
        bid_or_ask,
    ) && post.resting(rep.order_id) && levels_volume(own1) == levels_volume(own0)
        + rep.remaining_size && (rep.outcome == Outcome::Resting <==> rep.fills@.len() == 0) && (
    rep.outcome == Outcome::PartiallyFilled <==> rep.fills@.len() > 0))
    &&& (limit_price is None && rep.remaining_size > 0 ==> own1 == own0 && !post.resting(
        rep.order_id,
    ) && rep.outcome == Outcome::InsufficientLiquidity)
    &&& (rep.remaining_size == 0 ==> own1 == own0 && !post.resting(rep.order_id))
    &&& (forall|x: u64| post.resting(x) ==> pre.resting(x) || x == rep.order_id)
}

/// Everything one successful cancel guarantees: the id leaves the book
/// and the index, nothing else changes its resting state, and the book
/// stays well formed and uncrossed.
pub open spec fn cancel_post(pre: OrderBook, post: OrderBook, order_id: u64) -> bool {
    &&& post.wf()
    &&& post.uncrossed()
    &&& post.next_order_id == pre.next_order_id
    &&& !post.resting(order_id)
    &&& (forall|x: u64| post.resting(x) == (pre.resting(x) && x != order_id))
    &&& (forall|j: int|
        0 <= j < post.order_index@.len() ==> (#[trigger] post.order_index@[j]).id != order_id)
}

/// What a depth-limited view of one side must hold: the first `depth`
/// levels from the best, each with its price and aggregate volume.
pub open spec fn snapshot_side_post(
    levels: Seq<Limit>,
    depth: int,
    out: Seq<(Price, u128)>,
) -> bool {
    &&& out.len() == (if depth <= levels.len() {
        depth
    } else {
        levels.len() as int
    })
    &&& (forall|i: int|
        0 <= i < out.len() ==> (#[trigger] out[i]).0 == side_view(levels)[i].0 && out[i].1 as int
            == sum_remaining(side_view(levels)[i].1))
}

/// How a submission ended: fully filled, resting in whole or in part,
/// or a market order that the book could not satisfy.
#[derive(Debug, Clone, Copy, PartialEq, Eq, Structural)]
pub enum Outcome {
    Filled,
    Resting,
    PartiallyFilled,
    InsufficientLiquidity,
}

/// What a submission returns: the assigned order id, how it ended, the
/// fills it produced in match order, and the unfilled remainder.
#[derive(Debug, Clone, PartialEq, Eq)]
pub struct SubmitReport {
    pub order_id: u64,
    pub outcome: Outcome,
    pub fills: Vec<Fill>,
    pub remaining_size: u64,
}

/// One entry of the per-market event stream, in the order the matching
/// decisions were made. Level changes are read from `snapshot`.
#[derive(Debug, Clone, Copy, PartialEq, Eq, Structural)]
pub enum BookEvent {
    /// A submission entered the book's sequence and received its id.
    OrderAccepted { order_id: u64, remaining_size: u64 },
    /// One trade execution.
    Trade(Fill),
    /// A resting order left the book by cancellation.
    OrderCanceled { order_id: u64 },
}

impl SubmitReport {
    /// The event stream of this submission: the acceptance first, then
    /// each fill, in the order the matches were decided.
    pub fn events(&self) -> (r: Vec<BookEvent>)
        ensures
            r@.len() == 1 + self.fills@.len(),
            r@[0] == (BookEvent::OrderAccepted {
                order_id: self.order_id,
                remaining_size: self.remaining_size,
            }),
            forall|n: int| 1 <= n < r@.len() ==> r@[n] == BookEvent::Trade(self.fills@[n - 1]),
    {
        let mut out: Vec<BookEvent> = Vec::new();
        out.push(BookEvent::OrderAccepted {
            order_id: self.order_id,
            remaining_size: self.remaining_size,
        });
        let mut n: usize = 0;
        while n < self.fills.len()
            invariant
                n <= self.fills@.len(),
                out@.len() == 1 + n as int,
                out@[0] == (BookEvent::OrderAccepted {
                    order_id: self.order_id,
                    remaining_size: self.remaining_size,
                }),
                forall|m: int| 1 <= m < out@.len() ==> out@[m] == BookEvent::Trade(self.fills@[m - 1]),
            decreases self.fills@.len() - n,
        {
            out.push(BookEvent::Trade(self.fills[n]));
            n = n + 1;
        }
        out
    }
}

/// On one indexed side, an id determines its resting place uniquely.
pub proof fn lemma_book_id_unique(
    s: Seq<(Price, Seq<Order>)>,
    side: BidorAsk,
    idx: Seq<IndexEntry>,
    i1: int,
    k1: int,
    i2: int,
    k2: int,
)
    requires
        side_indexed(s, side, idx),
        index_ids_distinct(idx),
        levels_ids_distinct(s),
        levels_sorted(s, side),
        0 <= i1 < s.len(),
        0 <= k1 < s[i1].1.len(),
        0 <= i2 < s.len(),
        0 <= k2 < s[i2].1.len(),
        s[i1].1[k1].id == s[i2].1[k2].id,
    ensures
        i1 == i2 && k1 == k2,
{
    let e1 = entry_for(s, side, i1, k1);
    let e2 = entry_for(s, side, i2, k2);
    assert(idx.contains(e1));
    assert(idx.contains(e2));
    let j1 = choose|j: int| 0 <= j < idx.len() && idx[j] == e1;
    let j2 = choose|j: int| 0 <= j < idx.len() && idx[j] == e2;
    if j1 != j2 {
        assert(idx[j1].id != idx[j2].id);
    }
    assert(e1 == e2);
    assert(s[i1].0 == s[i2].0);
    if i1 < i2 {
        assert(price_before(s[i1].0.units, s[i2].0.units, side));
    } else if i2 < i1 {
        assert(price_before(s[i2].0.units, s[i1].0.units, side));
    }
}

/// Whether an order with the given id rests on this side.
fn side_has_id(levels: &Vec<Limit>, id: u64) -> (r: bool)
    ensures
        r == has_order(side_view(levels@), id),
{
    let ghost v = side_view(levels@);
    let mut i: usize = 0;
    while i < levels.len()
        invariant
            i <= levels@.len(),
            v == side_view(levels@),
            forall|i2: int, k2: int|
                0 <= i2 < i && 0 <= k2 < v[i2].1.len() ==> (#[trigger] v[i2].1[k2]).id != id,
        decreases levels@.len() - i,
    {
        let n = levels[i].orders.len();
        let mut k: usize = 0;
        while k < n
            invariant
                i < levels@.len(),
                k <= n,
                n == levels@[i as int].orders@.len(),
                v == side_view(levels@),
                forall|k2: int| 0 <= k2 < k ==> (#[trigger] v[i as int].1[k2]).id != id,
            decreases n - k,
        {
            proof {
                assert(v[i as int].1 == levels@[i as int].orders@);
            }
            if levels[i].orders[k].id == id {
                proof {
                    assert(v[i as int].1[k as int].id == id);
                }
                return true;
            }
            k = k + 1;
        }
        i = i + 1;
    }
    proof {
        if has_order(v, id) {
            let (i2, k2) = choose|i2: int, k2: int|
                0 <= i2 < v.len() && 0 <= k2 < v[i2].1.len() && (#[trigger] v[i2].1[k2]).id == id;
        }
    }
    false
}

/// Removes from the index every entry of side `opp` whose order no
/// longer rests in `levels`.
fn prune_index_for(index: &mut Vec<IndexEntry>, levels: &Vec<Limit>, opp: BidorAsk)
    requires
        index_ids_distinct(old(index)@),
    ensures
        index_ids_distinct(final(index)@),
        forall|t: int|
            0 <= t < final(index)@.len() ==> old(index)@.contains(#[trigger] final(index)@[t]) && (
            final(index)@[t].bid_or_ask != opp || has_order(
                side_view(levels@),
                final(index)@[t].id,
            )),
        forall|j: int|
            0 <= j < old(index)@.len() && ((#[trigger] old(index)@[j]).bid_or_ask != opp
                || has_order(side_view(levels@), old(index)@[j].id)) ==> final(index)@.contains(
                old(index)@[j],
            ),
{
    let ghost idx0 = index@;
    let mut kept: Vec<IndexEntry> = Vec::new();
    let mut j: usize = 0;
    while j < index.len()
        invariant
            j <= idx0.len(),
            index@ == idx0,
            index_ids_distinct(idx0),
            index_ids_distinct(kept@),
            forall|t: int|
                0 <= t < kept@.len() ==> (exists|j2: int|
                    0 <= j2 < j && idx0[j2] == #[trigger] kept@[t]),
            forall|t: int|
                0 <= t < kept@.len() ==> ((#[trigger] kept@[t]).bid_or_ask != opp || has_order(
                    side_view(levels@),
                    kept@[t].id,
                )),
            forall|j2: int|
                0 <= j2 < j && ((#[trigger] idx0[j2]).bid_or_ask != opp || has_order(
                    side_view(levels@),
                    idx0[j2].id,
                )) ==> kept@.contains(idx0[j2]),
        decreases idx0.len() - j,
    {
        let e = index[j];
        let keep = if matches!(e.bid_or_ask, BidorAsk::Bid) == matches!(opp, BidorAsk::Bid) {
            side_has_id(levels, e.id)
        } else {
            true
        };
        if keep {
            let ghost kept_pre = kept@;
            kept.push(e);
            proof {
                assert(forall|t: int| 0 <= t < kept_pre.len() ==> #[trigger] kept@[t] == kept_pre[t]);
                assert(kept@[kept_pre.len() as int] == e);
                assert forall|t1: int, t2: int|
                    0 <= t1 < kept@.len() && 0 <= t2 < kept@.len() && t1 != t2 implies (
                #[trigger] kept@[t1]).id != (#[trigger] kept@[t2]).id by {
                    if t1 == kept_pre.len() || t2 == kept_pre.len() {
                        let to = if t1 == kept_pre.len() {
                            t2
                        } else {
                            t1
                        };
                        let j2 = choose|j2: int| 0 <= j2 < j && idx0[j2] == kept_pre[to];
                        assert(idx0[j2].id != idx0[j as int].id);
                    }
                }
                assert forall|j2: int|
                    0 <= j2 < j + 1 && ((#[trigger] idx0[j2]).bid_or_ask != opp || has_order(
                        side_view(levels@),
                        idx0[j2].id,
                    )) implies kept@.contains(idx0[j2]) by {
                    if j2 < j {
                        assert(kept_pre.contains(idx0[j2]));
                        let t = choose|t: int| 0 <= t < kept_pre.len() && kept_pre[t] == idx0[j2];
                        assert(kept@[t] == idx0[j2]);
                    } else {
                        assert(kept@[kept_pre.len() as int] == idx0[j2]);
                    }
                }
            }
        } else {
            proof {
                assert(e.bid_or_ask == opp && !has_order(side_view(levels@), e.id));
            }
        }
        j = j + 1;
    }
    *index = kept;
    proof {
        assert forall|t: int| 0 <= t < index@.len() implies idx0.contains(#[trigger] index@[t]) by {
            let j2 = choose|j2: int| 0 <= j2 < idx0.len() && idx0[j2] == index@[t];
        }
    }
}

/// After matching removed orders only from the front of the opposing
/// side and the index was pruned accordingly, the index and the book
/// again name exactly the same resting orders.
#[verifier::rlimit(60)]
pub proof fn lemma_index_after_match(
    own: Seq<(Price, Seq<Order>)>,
    opp0: Seq<(Price, Seq<Order>)>,
    opp1: Seq<(Price, Seq<Order>)>,
    idx0: Seq<IndexEntry>,
    idx1: Seq<IndexEntry>,
    opp: BidorAsk,
)
    requires
        side_indexed(own, opp.opposite(), idx0),
        side_indexed(opp0, opp, idx0),
        index_ids_distinct(idx0),
        index_ids_distinct(idx1),
        levels_ids_distinct(opp0),
        levels_sorted(opp0, opp),
        forall|j: int|
            0 <= j < idx0.len() ==> if (#[trigger] idx0[j]).bid_or_ask == opp {
                side_has_entry(opp0, idx0[j])
            } else {
                side_has_entry(own, idx0[j])
            },
        forall|t: int|
            0 <= t < idx1.len() ==> idx0.contains(#[trigger] idx1[t]) && (idx1[t].bid_or_ask != opp
                || has_order(opp1, idx1[t].id)),
        forall|j: int|
            0 <= j < idx0.len() && ((#[trigger] idx0[j]).bid_or_ask != opp || has_order(
                opp1,
                idx0[j].id,
            )) ==> idx1.contains(idx0[j]),
        forall|i: int, k: int|
            0 <= i < opp1.len() && 0 <= k < opp1[i].1.len() ==> has_id_at(
                opp0,
                opp1[i].0,
                (#[trigger] opp1[i].1[k]).id,
            ),
    ensures
        forall|t: int|
            0 <= t < idx1.len() ==> if (#[trigger] idx1[t]).bid_or_ask == opp {
                side_has_entry(opp1, idx1[t])
            } else {
                side_has_entry(own, idx1[t])
            },
        side_indexed(own, opp.opposite(), idx1),
        side_indexed(opp1, opp, idx1),
{
    assert forall|t: int| 0 <= t < idx1.len() implies if (#[trigger] idx1[t]).bid_or_ask == opp {
        side_has_entry(opp1, idx1[t])
    } else {
        side_has_entry(own, idx1[t])
    } by {
        let e = idx1[t];
        let j = choose|j: int| 0 <= j < idx0.len() && idx0[j] == e;
        if e.bid_or_ask == opp {
            assert(side_has_entry(opp0, e));
            let i1 = choose|i1: int|
                0 <= i1 < opp0.len() && (#[trigger] opp0[i1]).0 == e.price && exists|k1: int|
                    0 <= k1 < opp0[i1].1.len() && (#[trigger] opp0[i1].1[k1]).id == e.id;
            let k1 = choose|k1: int|
                0 <= k1 < opp0[i1].1.len() && (#[trigger] opp0[i1].1[k1]).id == e.id;
            assert(has_order(opp1, e.id));
            let (i, k) = choose|i: int, k: int|
                0 <= i < opp1.len() && 0 <= k < opp1[i].1.len() && (#[trigger] opp1[i].1[k]).id
                    == e.id;
            assert(has_id_at(opp0, opp1[i].0, e.id));
            let i0 = choose|i0: int|
                0 <= i0 < opp0.len() && (#[trigger] opp0[i0]).0 == opp1[i].0 && exists|k0: int|
                    0 <= k0 < opp0[i0].1.len() && (#[trigger] opp0[i0].1[k0]).id == e.id;
            let k0 = choose|k0: int|
                0 <= k0 < opp0[i0].1.len() && (#[trigger] opp0[i0].1[k0]).id == e.id;
            lemma_book_id_unique(opp0, opp, idx0, i0, k0, i1, k1);
            assert(opp1[i].0 == e.price);
        }
    }
    assert forall|i: int, k: int|
        0 <= i < own.len() && 0 <= k < own[i].1.len() implies idx1.contains(
        #[trigger] entry_for(own, opp.opposite(), i, k),
    ) by {
        assert(idx0.contains(entry_for(own, opp.opposite(), i, k)));
        let j = choose|j: int|
            0 <= j < idx0.len() && idx0[j] == entry_for(own, opp.opposite(), i, k);
        assert(idx0[j].bid_or_ask != opp);
        assert(idx1.contains(idx0[j]));
    }
    assert forall|i: int, k: int|
        0 <= i < opp1.len() && 0 <= k < opp1[i].1.len() implies idx1.contains(
        #[trigger] entry_for(opp1, opp, i, k),
    ) by {
        let id = opp1[i].1[k].id;
        assert(has_id_at(opp0, opp1[i].0, id));
        let i0 = choose|i0: int|
            0 <= i0 < opp0.len() && (#[trigger] opp0[i0]).0 == opp1[i].0 && exists|k0: int|
                0 <= k0 < opp0[i0].1.len() && (#[trigger] opp0[i0].1[k0]).id == id;
        let k0 = choose|k0: int| 0 <= k0 < opp0[i0].1.len() && (#[trigger] opp0[i0].1[k0]).id == id;
        assert(idx0.contains(entry_for(opp0, opp, i0, k0)));
        assert(entry_for(opp0, opp, i0, k0) == entry_for(opp1, opp, i, k));
        let j = choose|j: int| 0 <= j < idx0.len() && idx0[j] == entry_for(opp1, opp, i, k);
        assert(has_order(opp1, idx0[j].id)) by {
            assert(opp1[i].1[k].id == idx0[j].id);
        }
        assert(idx1.contains(idx0[j]));
    }
}

/// Removes the one order with the given id from the level at the given
/// price on one side, dropping the level if it empties.
#[verifier::rlimit(100)]
fn remove_from_side(levels: &mut Vec<Limit>, price: Price, id: u64, Ghost(sd): Ghost<BidorAsk>)
    requires
        levels_sorted(side_view(old(levels)@), sd),
        levels_wf(side_view(old(levels)@), sd),
        levels_ids_distinct(side_view(old(levels)@)),
        has_id_at(side_view(old(levels)@), price, id),
        forall|i1: int, k1: int, i2: int, k2: int|
            0 <= i1 < side_view(old(levels)@).len() && 0 <= k1 < side_view(old(levels)@)[i1].1.len()
                && 0 <= i2 < side_view(old(levels)@).len() && 0 <= k2 < side_view(
                old(levels)@,
            )[i2].1.len() && (#[trigger] side_view(old(levels)@)[i1].1[k1]).id == (
            #[trigger] side_view(old(levels)@)[i2].1[k2]).id ==> i1 == i2 && k1 == k2,
    ensures
        ({
            let v0 = side_view(old(levels)@);
            let v1 = side_view(final(levels)@);
            &&& levels_sorted(v1, sd)
            &&& levels_wf(v1, sd)
            &&& levels_ids_distinct(v1)
            &&& (forall|x: u64| has_order(v1, x) == (has_order(v0, x) && x != id))
            &&& (forall|i: int, k: int|
                0 <= i < v1.len() && 0 <= k < v1[i].1.len() ==> has_id_at(
                    v0,
                    v1[i].0,
                    (#[trigger] v1[i].1[k]).id,
                ))
            &&& (v1.len() > 0 ==> v0.len() > 0 && !price_before(v1[0].0.units, v0[0].0.units, sd))
        }),
{
    let ghost v0 = side_view(old(levels)@);
    let ghost wi = choose|i: int|
        0 <= i < v0.len() && (#[trigger] v0[i]).0 == price && exists|k: int|
            0 <= k < v0[i].1.len() && (#[trigger] v0[i].1[k]).id == id;
    let ghost wk = choose|k: int| 0 <= k < v0[wi].1.len() && (#[trigger] v0[wi].1[k]).id == id;
    let mut pos: usize = 0;
    while pos < levels.len() && levels[pos].price.units != price.units
        invariant
            pos <= levels@.len(),
            *levels == *old(levels),
            v0 == side_view(levels@),
            forall|i: int| 0 <= i < pos ==> (#[trigger] v0[i]).0.units != price.units,
        decreases levels@.len() - pos,
    {
        proof {
            assert(v0[pos as int] == (levels@[pos as int].price, levels@[pos as int].orders@));
        }
        pos = pos + 1;
    }
    proof {
        assert(pos < levels@.len()) by {
            assert(v0[wi].0.units == price.units);
        }
        assert(v0[pos as int] == (levels@[pos as int].price, levels@[pos as int].orders@));
        assert(pos as int == wi) by {
            assert(v0[pos as int].0 == Price { units: v0[pos as int].0.units });
            if pos as int != wi {
                if (pos as int) < wi {
                    assert(price_before(v0[pos as int].0.units, v0[wi].0.units, sd));
                } else {
                    assert(price_before(v0[wi].0.units, v0[pos as int].0.units, sd));
                }
            }
        }
    }
    let mut lvl = levels.remove(pos);
    let ghost q0 = lvl.orders@;
    let mut k: usize = 0;
    while k < lvl.orders.len() && lvl.orders[k].id != id
        invariant
            k <= q0.len(),
            lvl.orders@ == q0,
            lvl.price == price,
            forall|k2: int| 0 <= k2 < k ==> (#[trigger] q0[k2]).id != id,
        decreases q0.len() - k,
    {
        k = k + 1;
    }
    proof {
        assert(k < q0.len()) by {
            assert(q0[wk].id == id);
        }
        assert(k as int == wk) by {
            if k as int != wk {
                assert(v0[wi].1[k as int].id == v0[wi].1[wk].id);
            }
        }
    }
    lvl.orders.remove(k);
    let ghost q1 = lvl.orders@;
    let emptied = lvl.orders.len() == 0;
    if !emptied {
        levels.insert(pos, lvl);
    }
    proof {
        let v1 = side_view(levels@);
        assert(q1 =~= q0.take(wk) + q0.skip(wk + 1));
        assert(forall|k2: int| 0 <= k2 < wk ==> #[trigger] q1[k2] == q0[k2]);
        assert(forall|k2: int| wk <= k2 < q1.len() ==> #[trigger] q1[k2] == q0[k2 + 1]);
        if emptied {
            assert(v1 =~= v0.remove(wi));
            assert(v0.remove(wi) =~= v0.take(wi) + v0.skip(wi + 1));
            assert(forall|i: int| 0 <= i < wi ==> #[trigger] v1[i] == v0[i]);
            assert(forall|i: int| wi <= i < v1.len() ==> #[trigger] v1[i] == v0[i + 1]);
            assert(q0.len() == 1);
        } else {
            assert(v1 =~= v0.update(wi, (price, q1)));
            assert(forall|i: int| 0 <= i < v1.len() && i != wi ==> #[trigger] v1[i] == v0[i]);
            assert(v1[wi] == (price, q1));
        }
        assert forall|x: u64| has_order(v1, x) implies (has_order(v0, x) && x != id) by {
            let (i, k2) = choose|i: int, k2: int|
                0 <= i < v1.len() && 0 <= k2 < v1[i].1.len() && (#[trigger] v1[i].1[k2]).id == x;
            if emptied {
                let ip = if i < wi {
                    i
                } else {
                    i + 1
                };
                assert(v0[ip].1[k2].id == x);
                if x == id {
                    assert(ip == wi && k2 == wk);
                }
            } else {
                if i == wi {
                    let kp = if k2 < wk {
                        k2
                    } else {
                        k2 + 1
                    };
                    assert(v0[wi].1[kp].id == x);
                    if x == id {
                        assert(kp == wk);
                    }
                } else {
                    assert(v0[i].1[k2].id == x);
                    if x == id {
                        assert(i == wi);
                    }
                }
            }
        }
        assert forall|x: u64| has_order(v0, x) && x != id implies has_order(v1, x) by {
            let (i, k2) = choose|i: int, k2: int|
                0 <= i < v0.len() && 0 <= k2 < v0[i].1.len() && (#[trigger] v0[i].1[k2]).id == x;
            if emptied {
                if i == wi {
                    assert(k2 == wk);
                    assert(false);
                } else if i < wi {
                    assert(v1[i].1[k2].id == x);
                } else {
                    assert(v1[i - 1].1[k2].id == x);
                }
            } else {
                if i == wi {
                    if k2 < wk {
                        assert(v1[wi].1[k2].id == x);
                    } else if k2 == wk {
                        assert(false);
                    } else {
                        assert(v1[wi].1[k2 - 1].id == x);
                    }
                } else {
                    assert(v1[i].1[k2].id == x);
                }
            }
        }
        assert forall|i: int, k2: int|
            0 <= i < v1.len() && 0 <= k2 < v1[i].1.len() implies has_id_at(
            v0,
            v1[i].0,
            (#[trigger] v1[i].1[k2]).id,
        ) by {
            if emptied {
                let ip = if i < wi {
                    i
                } else {
                    i + 1
                };
                assert(v1[i] == v0[ip]);
                assert(v0[ip].1[k2].id == v1[i].1[k2].id);
            } else {
                if i == wi {
                    let kp = if k2 < wk {
                        k2
                    } else {
                        k2 + 1
                    };
                    assert(v0[wi].0 == price && v0[wi].1[kp].id == v1[i].1[k2].id);
                } else {
                    assert(v1[i] == v0[i]);
                    assert(v0[i].1[k2].id == v1[i].1[k2].id);
                }
            }
        }
        assert(levels_sorted(v1, sd));
        assert(levels_wf(v1, sd));
        assert(levels_ids_distinct(v1)) by {
            assert forall|i: int, k1: int, k2: int|
                0 <= i < v1.len() && 0 <= k1 < (#[trigger] v1[i]).1.len() && 0 <= k2
                    < v1[i].1.len() && k1 != k2 implies (#[trigger] v1[i].1[k1]).id != (
            #[trigger] v1[i].1[k2]).id by {
                if !emptied && i == wi {
                    let m1 = if k1 < wk {
                        k1
                    } else {
                        k1 + 1
                    };
                    let m2 = if k2 < wk {
                        k2
                    } else {
                        k2 + 1
                    };
                    assert(v1[i].1[k1].id == q0[m1].id && v1[i].1[k2].id == q0[m2].id);
                }
            }
        }
    }
}

/// A queue's volume is bounded by its length times the largest order.
pub proof fn lemma_sum_remaining_le(q: Seq<Order>)
    ensures
        sum_remaining(q) <= q.len() * u64::MAX,
    decreases q.len(),
{
    if q.len() > 0 {
        lemma_sum_remaining_le(q.drop_first());
        assert(q.len() * u64::MAX == (q.len() - 1) * u64::MAX + u64::MAX) by (nonlinear_arith);
    }
}

/// Sum of remaining sizes of one level's queue, in a width that cannot
/// overflow.
fn queue_volume_wide(orders: &Vec<Order>) -> (r: u128)
    ensures
        r as int == sum_remaining(orders@),
{
    let mut total: u128 = 0;
    let mut i: usize = 0;
    proof {
        lemma_sum_remaining_take(orders@, 0);
    }
    while i < orders.len()
        invariant
            i <= orders@.len(),
            total as int == sum_remaining(orders@.take(i as int)),
        decreases orders@.len() - i,
    {
        proof {
            lemma_sum_remaining_take(orders@, i + 1);
            lemma_sum_remaining_take(orders@, i as int);
            assert(orders@.take(i + 1).drop_last() =~= orders@.take(i as int));
            assert(orders@.take(i + 1).last() == orders@[i as int]);
            lemma_sum_remaining_le(orders@.take(i + 1));
            lemma_sum_remaining_nonneg(orders@.take(i + 1));
            assert(orders@.take(i + 1).len() * u64::MAX < u128::MAX) by (nonlinear_arith)
                requires
                    0 <= orders@.take(i + 1).len() <= u64::MAX,
            ;
        }
        total = total + orders[i].remaining_size as u128;
        i = i + 1;
    }
    proof {
        assert(orders@.take(orders@.len() as int) =~= orders@);
    }
    total
}

/// Law: volume is conserved at one price level. Whatever the taker
/// takes out of the queue reappears, unit for unit, in the fills, and
/// the taker's own loss equals the total of the fills.
pub proof fn lemma_level_conservation(q: Seq<Order>, taker_id: u64, price: Price, r: int)
    requires
        r >= 0,
    ensures
        sum_remaining(level_queue(q, r)) + sum_fills(level_fills(q, taker_id, price, r))
            == sum_remaining(q),
        r - level_taker_left(q, r) == sum_fills(level_fills(q, taker_id, price, r)),
        0 <= level_taker_left(q, r) <= r,
    decreases q.len(),
{
    if r <= 0 || q.len() == 0 {
    } else if q[0].remaining_size <= r {
        lemma_level_conservation(q.drop_first(), taker_id, price, r - q[0].remaining_size);
        let f = Fill {
            maker_order_id: q[0].id,
            taker_order_id: taker_id,
            price,
            size: q[0].remaining_size,
        };
        let rest = level_fills(q.drop_first(), taker_id, price, r - q[0].remaining_size);
        assert((seq![f] + rest).drop_first() =~= rest);
        assert((seq![f] + rest)[0] == f);
        assert(level_fills(q, taker_id, price, r) == seq![f] + rest);
        assert(sum_fills(seq![f] + rest) == f.size + sum_fills(rest));
        assert(level_queue(q, r) == level_queue(q.drop_first(), r - q[0].remaining_size));
        assert(level_taker_left(q, r) == level_taker_left(
            q.drop_first(),
            r - q[0].remaining_size,
        ));
        assert(sum_remaining(q) == q[0].remaining_size + sum_remaining(q.drop_first()));
    } else {
        reveal_with_fuel(sum_fills, 2);
        let reduced = Order { remaining_size: (q[0].remaining_size - r) as u64, ..q[0] };
        let out = q.update(0, reduced);
        assert(out.drop_first() =~= q.drop_first());
        let f = Fill { maker_order_id: q[0].id, taker_order_id: taker_id, price, size: r as u64 };
        assert(seq![f].drop_first() =~= Seq::<Fill>::empty());
    }
}

/// Law: strict price-time priority within one level. Fill `i` goes to
/// the order at queue position `i`; every fill but possibly the last
/// fully consumes its maker; all fills carry the level's price, the
/// taker's id, and a positive size.
pub proof fn lemma_level_fifo(q: Seq<Order>, taker_id: u64, price: Price, r: int, side: BidorAsk)
    requires
        queue_wf(q, side),
    ensures
        level_fills(q, taker_id, price, r).len() <= q.len(),
        forall|i: int|
            0 <= i < level_fills(q, taker_id, price, r).len() ==> {
                let f = #[trigger] level_fills(q, taker_id, price, r)[i];
                f.maker_order_id == q[i].id && f.taker_order_id == taker_id && f.price == price
                    && 1 <= f.size <= q[i].remaining_size
            },
        forall|i: int|
            0 <= i < level_fills(q, taker_id, price, r).len() - 1
                ==> (#[trigger] level_fills(q, taker_id, price, r)[i]).size
                == q[i].remaining_size,
    decreases q.len(),
{
    if r <= 0 || q.len() == 0 {
    } else if q[0].remaining_size <= r {
        lemma_level_fifo(q.drop_first(), taker_id, price, r - q[0].remaining_size, side);
        let f = Fill {
            maker_order_id: q[0].id,
            taker_order_id: taker_id,
            price,
            size: q[0].remaining_size,
        };
        let rest = level_fills(q.drop_first(), taker_id, price, r - q[0].remaining_size);
        let all = seq![f] + rest;
        assert(all[0] == f);
        assert(forall|i: int| 1 <= i < all.len() ==> all[i] == rest[i - 1]);
        assert(forall|i: int| 1 <= i < q.len() ==> q.drop_first()[i - 1] == q[i]);
    } else {
    }
}

/// Law: what a level walk leaves behind is a suffix of the old queue,
/// with at most its head partially reduced; nothing is reordered and no
/// identity changes. If the taker has anything left, the queue is empty.
pub proof fn lemma_level_queue_structure(q: Seq<Order>, r: int, side: BidorAsk)
    requires
        queue_wf(q, side),
        r >= 0,
    ensures
        level_queue(q, r).len() <= q.len(),
        queue_wf(level_queue(q, r), side),
        level_taker_left(q, r) > 0 ==> level_queue(q, r).len() == 0,
        forall|j: int|
            1 <= j < level_queue(q, r).len() ==> #[trigger] level_queue(q, r)[j] == q[
                q.len() - level_queue(q, r).len() + j
            ],
        level_queue(q, r).len() > 0 ==> {
            let k = q.len() - level_queue(q, r).len();
            level_queue(q, r)[0].id == q[k].id && level_queue(q, r)[0].bid_or_ask
                == q[k].bid_or_ask && level_queue(q, r)[0].original_size == q[k].original_size
                && level_queue(q, r)[0].remaining_size <= q[k].remaining_size
        },
    decreases q.len(),
{
    if r <= 0 || q.len() == 0 {
    } else if q[0].remaining_size <= r {
        lemma_level_queue_structure(q.drop_first(), r - q[0].remaining_size, side);
        assert(forall|i: int| 0 <= i < q.len() - 1 ==> #[trigger] q.drop_first()[i] == q[i + 1]);
    } else {
        let reduced = Order { remaining_size: (q[0].remaining_size - r) as u64, ..q[0] };
        let out = q.update(0, reduced);
        assert(forall|j: int| 1 <= j < out.len() ==> out[j] == q[j]);
    }
}

/// `sum_remaining` over a prefix grows by the last element.
pub proof fn lemma_sum_remaining_take(q: Seq<Order>, i: int)
    requires
        0 <= i <= q.len(),
    ensures
        i > 0 ==> sum_remaining(q.take(i)) == sum_remaining(q.take(i - 1)) + q[i - 1].remaining_size,
        i == 0 ==> sum_remaining(q.take(i)) == 0,
    decreases i,
{
    if i > 0 {
        lemma_sum_remaining_drop_last(q.take(i));
        assert(q.take(i).drop_last() =~= q.take(i - 1));
    } else {
        assert(q.take(0) =~= Seq::<Order>::empty());
    }
}

/// `sum_remaining` splits off the last element.
pub proof fn lemma_sum_remaining_drop_last(q: Seq<Order>)
    requires
        q.len() > 0,
    ensures
        sum_remaining(q) == sum_remaining(q.drop_last()) + q.last().remaining_size,
    decreases q.len(),
{
    if q.len() == 1 {
        assert(q.drop_first() =~= Seq::<Order>::empty());
        assert(q.drop_last() =~= Seq::<Order>::empty());
    } else {
        lemma_sum_remaining_drop_last(q.drop_first());
        assert(q.drop_first().drop_last() =~= q.drop_last().drop_first());
        assert(q.drop_last()[0] == q[0]);
        assert(q.drop_first().last() == q.last());
    }
}

/// Every partial sum of remaining sizes is at least any single element
/// position's contribution and never negative.
pub proof fn lemma_sum_remaining_bounds(q: Seq<Order>, i: int)
    requires
        0 <= i < q.len(),
    ensures
        sum_remaining(q) >= sum_remaining(q.take(i)) + q[i].remaining_size,
        sum_remaining(q.take(i)) >= 0,
    decreases q.len(),
{
    lemma_sum_remaining_nonneg(q.take(i));
    lemma_sum_remaining_split(q, i + 1);
    lemma_sum_remaining_take(q, i + 1);
    lemma_sum_remaining_nonneg(q.skip(i + 1));
}

/// A sum of remaining sizes is never negative.
pub proof fn lemma_sum_remaining_nonneg(q: Seq<Order>)
    ensures
        sum_remaining(q) >= 0,
    decreases q.len(),
{
    if q.len() > 0 {
        lemma_sum_remaining_nonneg(q.drop_first());
    }
}

/// `sum_remaining` splits at any position.
pub proof fn lemma_sum_remaining_split(q: Seq<Order>, i: int)
    requires
        0 <= i <= q.len(),
    ensures
        sum_remaining(q) == sum_remaining(q.take(i)) + sum_remaining(q.skip(i)),
    decreases i,
{
    if i == 0 {
        assert(q.take(0) =~= Seq::<Order>::empty());
        assert(q.skip(0) =~= q);
    } else {
        lemma_sum_remaining_split(q, i - 1);
        lemma_sum_remaining_take(q, i);
        assert(q.skip(i - 1).len() > 0);
        assert(q.skip(i - 1)[0] == q[i - 1]);
        assert(q.skip(i - 1).drop_first() =~= q.skip(i));
        assert(sum_remaining(q.skip(i - 1)) == q[i - 1].remaining_size + sum_remaining(q.skip(i)));
    }
}

} // verus!
