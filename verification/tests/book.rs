use limit_order_book::lob::{match_level, LimitOrderBook};
use limit_order_book::skiplist::SkipList;
use limit_order_book::types::{
    LimitOrder, OrderError, OrderOutcome, OrderRequest, OrderType, PriceLevel, Side,
};

fn order(id: u64, side: Side, price: u64, qty: u64, arrival: u64) -> LimitOrder {
    LimitOrder { order_id: id, side, price, quantity: qty, arrival_sequence: arrival }
}

fn limit(id: u64, side: Side, price: u64, qty: u64) -> OrderRequest {
    OrderRequest { order_id: id, side, order_type: OrderType::Limit, price: Some(price), quantity: qty }
}

fn market(id: u64, side: Side, qty: u64) -> OrderRequest {
    OrderRequest { order_id: id, side, order_type: OrderType::Market, price: None, quantity: qty }
}

fn level(price: u64, ids: &[u64]) -> PriceLevel {
    let mut l = PriceLevel::new(price);
    for (k, id) in ids.iter().enumerate() {
        l.push_back(order(*id, Side::Sell, price, 5, k as u64 + 1));
    }
    l
}

#[test]
fn index_ordering_after_inserts_and_deletes() {
    let mut sl = SkipList::new(42);
    for p in [50u64, 10, 90, 30, 70, 20, 80, 60, 40, 100] {
        assert!(sl.insert(level(p, &[p])).is_ok());
    }
    sl.delete(30);
    sl.delete(100);
    sl.delete(10);
    let keys = sl.keys_in_order();
    assert_eq!(keys, vec![20, 40, 50, 60, 70, 80, 90]);
    assert_eq!(sl.len(), 7);
}

#[test]
fn search_finds_inserted_and_misses_absent() {
    let mut sl = SkipList::new(7);
    for p in [5u64, 15, 25] {
        assert!(sl.insert(level(p, &[p])).is_ok());
    }
    assert!(sl.search(15).is_some());
    assert_eq!(sl.search(15).unwrap().price, 15);
    assert!(sl.search(16).is_none());
    assert!(sl.search(0).is_none());
    assert!(sl.search(u64::MAX).is_none());
    let by_price = sl.search_by_price(25).unwrap();
    assert_eq!(by_price.price, 25);
    assert_eq!(by_price.len(), 1);
}

#[test]
fn insert_then_delete_restores_traversal_and_length() {
    let mut sl = SkipList::new(3);
    for p in [11u64, 22, 33] {
        assert!(sl.insert(level(p, &[p])).is_ok());
    }
    let before_keys = sl.keys_in_order();
    let before_len = sl.len();
    assert!(sl.insert(level(27, &[27])).is_ok());
    assert!(sl.delete(27).is_some());
    assert_eq!(sl.keys_in_order(), before_keys);
    assert_eq!(sl.len(), before_len);
}

#[test]
fn duplicate_key_is_rejected() {
    let mut sl = SkipList::new(9);
    assert!(sl.insert(level(10, &[1])).is_ok());
    assert!(sl.insert(level(10, &[2])).is_err());
    assert_eq!(sl.len(), 1);
}

#[test]
fn min_max_of_index() {
    let mut sl = SkipList::new(1);
    assert_eq!(sl.min(), None);
    assert_eq!(sl.max(), None);
    for p in [40u64, 10, 30] {
        assert!(sl.insert(level(p, &[p])).is_ok());
    }
    assert_eq!(sl.min(), Some(10));
    assert_eq!(sl.max(), Some(40));
    sl.delete(40);
    assert_eq!(sl.max(), Some(30));
}

#[test]
fn price_time_priority_fills_earliest_first() {
    // two resting buys at one price, arrival 1 then 2; an incoming sell for
    // no more than the first order's quantity fills order 1 exclusively
    let queue = vec![
        order(1, Side::Buy, 100, 10, 1),
        order(2, Side::Buy, 100, 8, 2),
    ];
    let (q2, trades, filled, rem) = match_level(queue, 10, 99, 0);
    assert_eq!(trades.len(), 1);
    assert_eq!(trades[0].resting_order_id, 1);
    assert_eq!(trades[0].quantity, 10);
    assert_eq!(filled, vec![1]);
    assert_eq!(rem, 0);
    assert_eq!(q2.len(), 1);
    assert_eq!(q2[0].order_id, 2);
    assert_eq!(q2[0].quantity, 8);
}

#[test]
fn level_drain_consumes_whole_queue_in_order() {
    let queue = vec![
        order(1, Side::Sell, 50, 3, 1),
        order(2, Side::Sell, 50, 4, 2),
        order(3, Side::Sell, 50, 5, 3),
    ];
    let (q2, trades, filled, rem) = match_level(queue, 20, 77, 5);
    assert!(q2.is_empty());
    assert_eq!(trades.len(), 3);
    assert_eq!(trades[0].resting_order_id, 1);
    assert_eq!(trades[1].resting_order_id, 2);
    assert_eq!(trades[2].resting_order_id, 3);
    assert_eq!(trades[0].sequence, 5);
    assert_eq!(trades[1].sequence, 6);
    assert_eq!(trades[2].sequence, 7);
    assert_eq!(filled, vec![1, 2, 3]);
    assert_eq!(rem, 20 - 12);
}

#[test]
fn concrete_scenario_add_match_cancel() {
    // empty book -> buy id=1 @100 x10 -> best_bid 100, best_ask none
    let mut book = LimitOrderBook::new(11);
    let r1 = book.add_order(limit(1, Side::Buy, 100, 10)).unwrap();
    assert!(r1.trades.is_empty());
    assert_eq!(r1.outcome, OrderOutcome::Rested);
    assert_eq!(book.best_bid(), Some(100));
    assert_eq!(book.best_ask(), None);
    // sell id=2 @99 x4 -> trade at 100 for 4, order 1 keeps 6, nothing rests
    let r2 = book.add_order(limit(2, Side::Sell, 99, 4)).unwrap();
    assert_eq!(r2.trades.len(), 1);
    assert_eq!(r2.trades[0].price, 100);
    assert_eq!(r2.trades[0].quantity, 4);
    assert_eq!(r2.trades[0].resting_order_id, 1);
    assert_eq!(r2.trades[0].aggressor_order_id, 2);
    assert_eq!(r2.outcome, OrderOutcome::FullyFilled);
    assert_eq!(book.best_ask(), None);
    assert_eq!(book.best_bid(), Some(100));
    // cancel order 1 -> book empty
    assert!(book.cancel_order(1).is_ok());
    assert_eq!(book.best_bid(), None);
    assert_eq!(book.best_ask(), None);
}

#[test]
fn partial_fill_leaves_exact_remainder_resting() {
    let mut book = LimitOrderBook::new(11);
    book.add_order(limit(1, Side::Buy, 100, 10)).unwrap();
    book.add_order(limit(2, Side::Sell, 99, 4)).unwrap();
    // order 1 must have exactly 6 left: a sell for 6 fills it completely
    let r3 = book.add_order(limit(3, Side::Sell, 100, 6)).unwrap();
    assert_eq!(r3.trades.len(), 1);
    assert_eq!(r3.trades[0].quantity, 6);
    assert_eq!(r3.trades[0].resting_order_id, 1);
    assert_eq!(r3.outcome, OrderOutcome::FullyFilled);
    assert_eq!(book.best_bid(), None);
}

#[test]
fn no_self_crossing_after_mixed_flow() {
    let mut book = LimitOrderBook::new(5);
    book.add_order(limit(1, Side::Buy, 95, 10)).unwrap();
    book.add_order(limit(2, Side::Buy, 100, 10)).unwrap();
    book.add_order(limit(3, Side::Sell, 105, 10)).unwrap();
    book.add_order(limit(4, Side::Sell, 101, 10)).unwrap();
    // marketable both ways, partially consuming each side
    book.add_order(limit(5, Side::Sell, 100, 4)).unwrap();
    book.add_order(limit(6, Side::Buy, 101, 4)).unwrap();
    book.cancel_order(1).unwrap();
    let bb = book.best_bid();
    let ba = book.best_ask();
    if let (Some(b), Some(a)) = (bb, ba) {
        assert!(b < a);
    }
}

#[test]
fn partial_fill_walks_levels_and_rests_remainder() {
    let mut book = LimitOrderBook::new(8);
    book.add_order(limit(1, Side::Sell, 100, 3)).unwrap();
    book.add_order(limit(2, Side::Sell, 101, 4)).unwrap();
    // larger than the best level's aggregate: drains 100, continues at 101,
    // rests the true remainder at its own price
    let r = book.add_order(limit(3, Side::Buy, 101, 10)).unwrap();
    assert_eq!(r.trades.len(), 2);
    assert_eq!(r.trades[0].price, 100);
    assert_eq!(r.trades[0].quantity, 3);
    assert_eq!(r.trades[1].price, 101);
    assert_eq!(r.trades[1].quantity, 4);
    assert_eq!(r.outcome, OrderOutcome::Rested);
    assert_eq!(book.best_ask(), None);
    assert_eq!(book.best_bid(), Some(101));
    // the rested remainder is exactly 3
    let r2 = book.add_order(limit(4, Side::Sell, 101, 3)).unwrap();
    assert_eq!(r2.trades.len(), 1);
    assert_eq!(r2.trades[0].quantity, 3);
    assert_eq!(r2.outcome, OrderOutcome::FullyFilled);
    assert_eq!(book.best_bid(), None);
}

#[test]
fn cancel_of_filled_order_returns_not_found() {
    let mut book = LimitOrderBook::new(2);
    book.add_order(limit(1, Side::Buy, 100, 5)).unwrap();
    let r = book.add_order(limit(2, Side::Sell, 100, 5)).unwrap();
    assert_eq!(r.outcome, OrderOutcome::FullyFilled);
    // order 1 was fully filled and removed: canceling it fails
    assert_eq!(book.cancel_order(1), Err(OrderError::OrderNotFound));
    assert_eq!(book.cancel_order(42), Err(OrderError::OrderNotFound));
}

#[test]
fn validation_errors_change_nothing() {
    let mut book = LimitOrderBook::new(4);
    assert_eq!(
        book.add_order(limit(1, Side::Buy, 100, 0)),
        Err(OrderError::InvalidQuantity)
    );
    assert_eq!(
        book.add_order(OrderRequest {
            order_id: 1,
            side: Side::Buy,
            order_type: OrderType::Limit,
            price: None,
            quantity: 5,
        }),
        Err(OrderError::InvalidPrice)
    );
    assert_eq!(
        book.add_order(limit(1, Side::Buy, 0, 5)),
        Err(OrderError::InvalidPrice)
    );
    book.add_order(limit(1, Side::Buy, 100, 5)).unwrap();
    assert_eq!(
        book.add_order(limit(1, Side::Sell, 105, 5)),
        Err(OrderError::DuplicateOrderId)
    );
    assert_eq!(
        book.add_order(market(2, Side::Buy, 5)),
        Err(OrderError::UnfillableMarketOrder)
    );
    assert_eq!(book.best_bid(), Some(100));
}

#[test]
fn market_order_partial_fill_then_discard() {
    let mut book = LimitOrderBook::new(6);
    book.add_order(limit(1, Side::Sell, 100, 4)).unwrap();
    let r = book.add_order(market(2, Side::Buy, 10)).unwrap();
    assert_eq!(r.trades.len(), 1);
    assert_eq!(r.trades[0].quantity, 4);
    assert_eq!(r.outcome, OrderOutcome::Discarded);
    // the unfilled remainder did not rest
    assert_eq!(book.best_bid(), None);
    assert_eq!(book.best_ask(), None);
}

#[test]
fn boundary_price_crosses() {
    // incoming price equal to the contra best is marketable
    let mut book = LimitOrderBook::new(10);
    book.add_order(limit(1, Side::Sell, 100, 5)).unwrap();
    let r = book.add_order(limit(2, Side::Buy, 100, 5)).unwrap();
    assert_eq!(r.trades.len(), 1);
    assert_eq!(r.outcome, OrderOutcome::FullyFilled);
}

#[test]
fn price_level_queue_operations() {
    let mut l = PriceLevel::new(10);
    assert!(l.is_empty());
    l.push_back(order(1, Side::Buy, 10, 2, 1));
    l.push_back(order(2, Side::Buy, 10, 3, 2));
    l.push_back(order(3, Side::Buy, 10, 4, 3));
    assert_eq!(l.len(), 3);
    let front = l.pop_front();
    assert_eq!(front.order_id, 1);
    let out = l.remove(3).unwrap();
    assert_eq!(out.order_id, 3);
    assert!(l.remove(99).is_none());
    assert_eq!(l.len(), 1);
    let c = l.clone();
    assert_eq!(c.len(), 1);
    assert_eq!(c.price, 10);
}
