use matchbook::orderbook::{BidorAsk, BookEvent, EngineError, Limit, Order, OrderBook, Outcome, Price};

fn price(integral: u64) -> Price {
    Price::new(integral, 0).unwrap()
}

#[test]
fn total_volume() {
    let price = Price::new(10000, 0).unwrap();
    let mut limit = Limit::new(price);
    let buy_order = Order::new(BidorAsk::Bid, 100).unwrap();
    let buy_order_1 = Order::new(BidorAsk::Bid, 50).unwrap();
    limit.add_order(buy_order);
    limit.add_order(buy_order_1);

    assert_eq!(limit.total_volume(), 150);
}

#[test]
fn limit_order_single_fill() {
    let price = Price::new(10000, 0).unwrap();
    let mut limit = Limit::new(price);
    let buy_limit_order = Order::new(BidorAsk::Bid, 100).unwrap();
    limit.add_order(buy_limit_order);

    let mut market_sell_order = Order::new(BidorAsk::Ask, 99).unwrap();
    let fills = limit.fill_order(&mut market_sell_order);

    assert_eq!(market_sell_order.is_filled(), true);
    assert_eq!(fills.len(), 1);
    assert_eq!(fills[0].size, 99);
    assert_eq!(limit.order_at(0).remaining_size, 1);
}

#[test]
fn limit_order_multi_fill() {
    let price = Price::new(10000, 0).unwrap();
    let mut limit = Limit::new(price);
    let buy_limit_order_a = Order::new(BidorAsk::Bid, 100).unwrap();
    let buy_limit_order_b = Order::new(BidorAsk::Bid, 100).unwrap();
    limit.add_order(buy_limit_order_a);
    limit.add_order(buy_limit_order_b);

    let mut market_sell_order = Order::new(BidorAsk::Ask, 199).unwrap();
    let fills = limit.fill_order(&mut market_sell_order);

    assert_eq!(market_sell_order.is_filled(), true);
    assert_eq!(fills.len(), 2);
    // the first resting order is fully consumed and removed; the second
    // keeps one unit and now stands at the front of the queue
    assert_eq!(limit.order_count(), 1);
    assert_eq!(limit.order_at(0).remaining_size, 1);
}

#[test]
fn fills_follow_arrival_order() {
    let p = price(10);
    let mut limit = Limit::new(p);
    let first = Order {
        id: 7,
        bid_or_ask: BidorAsk::Bid,
        original_size: 5,
        remaining_size: 5,
    };
    let second = Order {
        id: 8,
        bid_or_ask: BidorAsk::Bid,
        original_size: 5,
        remaining_size: 5,
    };
    limit.add_order(first);
    limit.add_order(second);
    let mut taker = Order {
        id: 9,
        bid_or_ask: BidorAsk::Ask,
        original_size: 6,
        remaining_size: 6,
    };
    let fills = limit.fill_order(&mut taker);
    assert_eq!(fills.len(), 2);
    assert_eq!(fills[0].maker_order_id, 7);
    assert_eq!(fills[0].size, 5);
    assert_eq!(fills[1].maker_order_id, 8);
    assert_eq!(fills[1].size, 1);
}

#[test]
fn partial_fill_then_rest() {
    // resting Ask 10 @ 100; incoming Bid 4 @ 100
    let mut book = OrderBook::new();
    let ask = book.submit(BidorAsk::Ask, Some(price(100)), 10).unwrap();
    assert_eq!(ask.outcome, Outcome::Resting);
    assert_eq!(ask.fills.len(), 0);

    let bid = book.submit(BidorAsk::Bid, Some(price(100)), 4).unwrap();
    assert_eq!(bid.outcome, Outcome::Filled);
    assert_eq!(bid.remaining_size, 0);
    assert_eq!(bid.fills.len(), 1);
    assert_eq!(bid.fills[0].price, price(100));
    assert_eq!(bid.fills[0].size, 4);
    assert_eq!(bid.fills[0].maker_order_id, ask.order_id);
    assert_eq!(bid.fills[0].taker_order_id, bid.order_id);

    let (bids, asks) = book.snapshot(10);
    assert!(bids.is_empty());
    assert_eq!(asks, vec![(price(100), 6)]);
}

#[test]
fn market_order_walks_price_levels() {
    // resting Ask 5 @ 100 and Ask 5 @ 101; incoming market Bid of 8
    let mut book = OrderBook::new();
    let a0 = book.submit(BidorAsk::Ask, Some(price(100)), 5).unwrap();
    let a1 = book.submit(BidorAsk::Ask, Some(price(101)), 5).unwrap();

    let bid = book.submit(BidorAsk::Bid, None, 8).unwrap();
    assert_eq!(bid.outcome, Outcome::Filled);
    assert_eq!(bid.remaining_size, 0);
    assert_eq!(bid.fills.len(), 2);
    assert_eq!(bid.fills[0].price, price(100));
    assert_eq!(bid.fills[0].size, 5);
    assert_eq!(bid.fills[0].maker_order_id, a0.order_id);
    assert_eq!(bid.fills[1].price, price(101));
    assert_eq!(bid.fills[1].size, 3);
    assert_eq!(bid.fills[1].maker_order_id, a1.order_id);

    let (bids, asks) = book.snapshot(10);
    assert!(bids.is_empty());
    assert_eq!(asks, vec![(price(101), 2)]);
}

#[test]
fn cancel_removes_resting_order() {
    // submit Bid 3 @ 50, cancel it before any match
    let mut book = OrderBook::new();
    let bid = book.submit(BidorAsk::Bid, Some(price(50)), 3).unwrap();
    assert_eq!(bid.outcome, Outcome::Resting);

    assert_eq!(book.cancel(bid.order_id), Ok(()));
    assert_eq!(book.best_bid(), None);
    assert_eq!(book.best_ask(), None);
    let (bids, asks) = book.snapshot(10);
    assert!(bids.is_empty());
    assert!(asks.is_empty());

    // a second cancel of the same id fails
    assert_eq!(book.cancel(bid.order_id), Err(EngineError::OrderNotFound));
}

#[test]
fn market_order_without_liquidity() {
    let mut book = OrderBook::new();
    let rep = book.submit(BidorAsk::Bid, None, 5).unwrap();
    assert_eq!(rep.outcome, Outcome::InsufficientLiquidity);
    assert_eq!(rep.remaining_size, 5);
    assert!(rep.fills.is_empty());
    // the remainder is dropped, not rested
    assert_eq!(book.best_bid(), None);
}

#[test]
fn limit_price_is_respected() {
    let mut book = OrderBook::new();
    book.submit(BidorAsk::Ask, Some(price(105)), 5).unwrap();
    // a bid below the best ask must not trade, and rests
    let bid = book.submit(BidorAsk::Bid, Some(price(104)), 5).unwrap();
    assert_eq!(bid.outcome, Outcome::Resting);
    assert!(bid.fills.is_empty());
    assert_eq!(book.best_bid(), Some(price(104)));
    assert_eq!(book.best_ask(), Some(price(105)));
}

#[test]
fn partial_fill_rests_remainder() {
    let mut book = OrderBook::new();
    book.submit(BidorAsk::Ask, Some(price(100)), 3).unwrap();
    let bid = book.submit(BidorAsk::Bid, Some(price(100)), 10).unwrap();
    assert_eq!(bid.outcome, Outcome::PartiallyFilled);
    assert_eq!(bid.remaining_size, 7);
    assert_eq!(bid.fills.len(), 1);
    assert_eq!(bid.fills[0].size, 3);
    let (bids, asks) = book.snapshot(10);
    assert_eq!(bids, vec![(price(100), 7)]);
    assert!(asks.is_empty());
}

#[test]
fn best_prices_track_the_book() {
    let mut book = OrderBook::new();
    book.submit(BidorAsk::Bid, Some(price(98)), 1).unwrap();
    book.submit(BidorAsk::Bid, Some(price(99)), 1).unwrap();
    book.submit(BidorAsk::Ask, Some(price(101)), 1).unwrap();
    book.submit(BidorAsk::Ask, Some(price(102)), 1).unwrap();
    assert_eq!(book.best_bid(), Some(price(99)));
    assert_eq!(book.best_ask(), Some(price(101)));
}

#[test]
fn price_rejects_malformed_parts() {
    assert_eq!(Price::new(1, 100000), Err(EngineError::InvalidPrice));
    assert_eq!(Price::new(u64::MAX, 0), Err(EngineError::InvalidPrice));
    let p = Price::new(4, 40000).unwrap();
    assert_eq!(p.units, 440000);
    assert_eq!(Price::new(4, 40000).unwrap(), p);
    assert_eq!(Price::from_units(440000), p);
}

#[test]
fn order_size_validation() {
    assert_eq!(Order::new(BidorAsk::Bid, 0), Err(EngineError::InvalidSize));
    let mut o = Order::new(BidorAsk::Bid, 5).unwrap();
    assert!(!o.is_filled());
    assert_eq!(o.reduce(6), Err(EngineError::OverFill));
    assert_eq!(o.remaining_size, 5);
    assert_eq!(o.reduce(5), Ok(()));
    assert!(o.is_filled());
}

#[test]
fn submit_rejects_zero_size() {
    let mut book = OrderBook::new();
    let r = book.submit(BidorAsk::Bid, Some(price(10)), 0);
    assert_eq!(r.unwrap_err(), EngineError::InvalidSize);
    assert_eq!(book.best_bid(), None);
}

#[test]
fn volume_is_conserved_across_a_trade() {
    let mut book = OrderBook::new();
    book.submit(BidorAsk::Ask, Some(price(100)), 7).unwrap();
    book.submit(BidorAsk::Ask, Some(price(101)), 9).unwrap();
    let bid = book.submit(BidorAsk::Bid, Some(price(101)), 10).unwrap();
    let traded: u64 = bid.fills.iter().map(|f| f.size).sum();
    let (_, asks) = book.snapshot(10);
    let resting: u128 = asks.iter().map(|l| l.1).sum();
    assert_eq!(traded, 10);
    assert_eq!(resting as u64 + traded, 16);
}

#[test]
fn submission_event_stream() {
    let mut book = OrderBook::new();
    book.submit(BidorAsk::Ask, Some(price(100)), 5).unwrap();
    let bid = book.submit(BidorAsk::Bid, Some(price(100)), 3).unwrap();
    let events = bid.events();
    assert_eq!(events.len(), 2);
    assert_eq!(
        events[0],
        BookEvent::OrderAccepted {
            order_id: bid.order_id,
            remaining_size: 0
        }
    );
    assert_eq!(events[1], BookEvent::Trade(bid.fills[0]));
    let canceled = BookEvent::OrderCanceled { order_id: 9 };
    assert_ne!(events[0], canceled);
}
