use matchbook::engine::{MatchingEngine, TradingPair};
use matchbook::orderbook::{BidorAsk, EngineError, Order, Outcome, Price};

fn btc_usdc() -> TradingPair {
    TradingPair::new("BTC".to_string(), "USDC".to_string())
}

#[test]
fn pair_rendering_and_equality() {
    let pair = btc_usdc();
    assert!(pair.same_pair(&btc_usdc()));
    let other = TradingPair::new("ETH".to_string(), "USDT".to_string());
    assert!(!pair.same_pair(&other));
    assert_eq!(pair.to_string(), "BTC to USDC");
}

#[test]
fn duplicate_market_is_rejected() {
    let mut engine = MatchingEngine::new();
    assert_eq!(engine.add_new_market(btc_usdc()), Ok(()));
    assert_eq!(
        engine.add_new_market(btc_usdc()),
        Err(EngineError::MarketAlreadyExists)
    );
}

#[test]
fn orders_route_to_their_market() {
    let mut engine = MatchingEngine::new();
    engine.add_new_market(btc_usdc()).unwrap();

    let ask = Order::new(BidorAsk::Ask, 10).unwrap();
    let rep = engine
        .place_limit_order(btc_usdc(), Price::new(100, 0).unwrap(), ask)
        .unwrap();
    assert_eq!(rep.outcome, Outcome::Resting);

    let bid = Order::new(BidorAsk::Bid, 4).unwrap();
    let rep = engine
        .place_limit_order(btc_usdc(), Price::new(100, 0).unwrap(), bid)
        .unwrap();
    assert_eq!(rep.outcome, Outcome::Filled);
    assert_eq!(rep.fills.len(), 1);
    assert_eq!(rep.fills[0].size, 4);

    let (bids, asks) = engine.snapshot(btc_usdc(), 5).unwrap();
    assert!(bids.is_empty());
    assert_eq!(asks, vec![(Price::new(100, 0).unwrap(), 6)]);
}

#[test]
fn unknown_market_is_reported() {
    let mut engine = MatchingEngine::new();
    let order = Order::new(BidorAsk::Bid, 1).unwrap();
    let missing = TradingPair::new("ETH".to_string(), "USDT".to_string());
    assert_eq!(
        engine
            .place_limit_order(missing.clone(), Price::new(1, 0).unwrap(), order)
            .unwrap_err(),
        EngineError::UnknownMarket
    );
    assert_eq!(
        engine.cancel(missing.clone(), 0).unwrap_err(),
        EngineError::UnknownMarket
    );
    assert_eq!(
        engine.snapshot(missing, 1).unwrap_err(),
        EngineError::UnknownMarket
    );
}

#[test]
fn engine_cancel_reaches_the_book() {
    let mut engine = MatchingEngine::new();
    engine.add_new_market(btc_usdc()).unwrap();
    let bid = Order::new(BidorAsk::Bid, 3).unwrap();
    let rep = engine
        .place_limit_order(btc_usdc(), Price::new(50, 0).unwrap(), bid)
        .unwrap();
    assert_eq!(engine.cancel(btc_usdc(), rep.order_id), Ok(()));
    assert_eq!(
        engine.cancel(btc_usdc(), rep.order_id),
        Err(EngineError::OrderNotFound)
    );
    let (bids, asks) = engine.snapshot(btc_usdc(), 5).unwrap();
    assert!(bids.is_empty());
    assert!(asks.is_empty());
}

#[test]
fn market_order_through_engine() {
    let mut engine = MatchingEngine::new();
    engine.add_new_market(btc_usdc()).unwrap();
    let ask = Order::new(BidorAsk::Ask, 5).unwrap();
    engine
        .place_limit_order(btc_usdc(), Price::new(100, 0).unwrap(), ask)
        .unwrap();
    let rep = engine
        .place_market_order(btc_usdc(), BidorAsk::Bid, 8)
        .unwrap();
    assert_eq!(rep.outcome, Outcome::InsufficientLiquidity);
    assert_eq!(rep.remaining_size, 3);
    assert_eq!(rep.fills.len(), 1);
    assert_eq!(rep.fills[0].size, 5);
}
