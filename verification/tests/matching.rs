use exchange_core::orderbook::OrderBook;
use exchange_core::types::{
    EnrichedOrderRequest, EventType, MarketType, MatchEvent, OrderKind, OrderType, Price,
};

fn order(
    id: &str,
    user: &str,
    kind: OrderKind,
    side: OrderType,
    price: u64,
    quantity: u64,
) -> EnrichedOrderRequest {
    EnrichedOrderRequest {
        user_id: user.to_string(),
        order_id: id.to_string(),
        kind,
        order_type: side,
        price,
        quantity,
        market: MarketType::TATA_INR,
    }
}

fn limit_buy(id: &str, price: u64, quantity: u64) -> EnrichedOrderRequest {
    order(id, "buyer", OrderKind::Limit, OrderType::Buy, price, quantity)
}

fn limit_sell(id: &str, price: u64, quantity: u64) -> EnrichedOrderRequest {
    order(id, "seller", OrderKind::Limit, OrderType::Sell, price, quantity)
}

fn quantities(orders: &[EnrichedOrderRequest]) -> Vec<u64> {
    orders.iter().map(|o| o.quantity).collect()
}

fn ids(orders: &[EnrichedOrderRequest]) -> Vec<String> {
    orders.iter().map(|o| o.order_id.clone()).collect()
}

fn total(events: &[MatchEvent]) -> u64 {
    events.iter().filter(|e| !e.matched_with.is_empty()).map(|e| e.quantity).sum()
}

#[test]
fn new_book_is_empty() {
    let book = OrderBook::new();
    assert_eq!(book.level_count(OrderType::Buy), 0);
    assert_eq!(book.level_count(OrderType::Sell), 0);
    assert_eq!(book.best_price(OrderType::Buy), None);
    assert_eq!(book.best_price(OrderType::Sell), None);
    assert!(book.orders_at(OrderType::Buy, 100).is_empty());
}

#[test]
fn empty_book_limit_buy_rests() {
    let mut book = OrderBook::new();
    let events = book.match_order(limit_buy("b1", 100, 10));
    assert!(events.is_empty());
    let resting = book.orders_at(OrderType::Buy, 100);
    assert_eq!(resting.len(), 1);
    assert_eq!(resting[0].quantity, 10);
    assert_eq!(resting[0].order_id, "b1");
    assert_eq!(resting[0].price, 100);
    assert_eq!(book.level_count(OrderType::Buy), 1);
    assert_eq!(book.level_count(OrderType::Sell), 0);
}

#[test]
fn exact_cross_full_fill() {
    let mut book = OrderBook::new();
    assert!(book.match_order(limit_sell("s1", 100, 10)).is_empty());
    let events = book.match_order(limit_buy("b1", 100, 10));
    assert_eq!(events.len(), 1);
    assert_eq!(
        events[0],
        MatchEvent {
            order_id: "b1".to_string(),
            user_id: "buyer".to_string(),
            matched_with: "s1".to_string(),
            quantity: 10,
            price: 100,
            order_kind: OrderKind::Limit,
            market: MarketType::TATA_INR,
            event_type: EventType::FullFill,
        }
    );
    assert_eq!(book.level_count(OrderType::Buy), 0);
    assert_eq!(book.level_count(OrderType::Sell), 0);
}

#[test]
fn walk_the_book() {
    let mut book = OrderBook::new();
    book.match_order(limit_sell("s100", 100, 4));
    book.match_order(limit_sell("s101", 101, 3));
    book.match_order(limit_sell("s102", 102, 5));
    let events = book.match_order(limit_buy("b1", 101, 6));
    assert_eq!(events.len(), 2);
    assert_eq!((events[0].quantity, events[0].price), (4, 100));
    assert_eq!(events[0].event_type, EventType::PartialFill);
    assert_eq!(events[0].matched_with, "s100");
    assert_eq!((events[1].quantity, events[1].price), (2, 101));
    assert_eq!(events[1].event_type, EventType::FullFill);
    assert_eq!(events[1].matched_with, "s101");
    assert!(book.orders_at(OrderType::Sell, 100).is_empty());
    assert_eq!(quantities(&book.orders_at(OrderType::Sell, 101)), vec![1]);
    assert_eq!(quantities(&book.orders_at(OrderType::Sell, 102)), vec![5]);
    assert_eq!(book.level_count(OrderType::Sell), 2);
    assert_eq!(book.level_count(OrderType::Buy), 0);
    assert_eq!(book.best_price(OrderType::Sell), Some(101));
}

#[test]
fn limit_with_residual() {
    let mut book = OrderBook::new();
    book.match_order(limit_sell("s1", 100, 3));
    let events = book.match_order(limit_buy("b1", 100, 10));
    assert_eq!(events.len(), 1);
    assert_eq!((events[0].quantity, events[0].price), (3, 100));
    assert_eq!(events[0].event_type, EventType::PartialFill);
    assert!(book.orders_at(OrderType::Sell, 100).is_empty());
    assert_eq!(book.level_count(OrderType::Sell), 0);
    let resting = book.orders_at(OrderType::Buy, 100);
    assert_eq!(quantities(&resting), vec![7]);
    assert_eq!(resting[0].order_id, "b1");
    assert_eq!(resting[0].user_id, "buyer");
}

#[test]
fn market_with_unfilled_tail() {
    let mut book = OrderBook::new();
    book.match_order(limit_sell("s1", 100, 2));
    let events =
        book.match_order(order("m1", "buyer", OrderKind::Market, OrderType::Buy, 0, 5));
    assert_eq!(events.len(), 2);
    assert_eq!((events[0].quantity, events[0].price), (2, 100));
    assert_eq!(events[0].event_type, EventType::PartialFill);
    assert_eq!(events[0].matched_with, "s1");
    assert_eq!(
        events[1],
        MatchEvent {
            order_id: "m1".to_string(),
            user_id: "buyer".to_string(),
            matched_with: String::new(),
            quantity: 0,
            price: 0,
            order_kind: OrderKind::Market,
            market: MarketType::TATA_INR,
            event_type: EventType::MarketPartialFill,
        }
    );
    assert_eq!(book.level_count(OrderType::Buy), 0);
    assert_eq!(book.level_count(OrderType::Sell), 0);
}

#[test]
fn market_order_on_empty_book_only_signals() {
    let mut book = OrderBook::new();
    let events =
        book.match_order(order("m1", "seller", OrderKind::Market, OrderType::Sell, 55, 5));
    assert_eq!(events.len(), 1);
    assert_eq!(events[0].event_type, EventType::MarketPartialFill);
    assert_eq!(events[0].quantity, 0);
    assert_eq!(events[0].price, 0);
    assert_eq!(events[0].matched_with, "");
    assert_eq!(book.level_count(OrderType::Buy), 0);
    assert_eq!(book.level_count(OrderType::Sell), 0);
}

#[test]
fn market_buy_ignores_its_price() {
    let mut book = OrderBook::new();
    book.match_order(limit_sell("s1", 500, 2));
    let events = book.match_order(order("m1", "buyer", OrderKind::Market, OrderType::Buy, 1, 2));
    assert_eq!(events.len(), 1);
    assert_eq!((events[0].quantity, events[0].price), (2, 500));
    assert_eq!(events[0].event_type, EventType::FullFill);
    assert_eq!(events[0].order_kind, OrderKind::Market);
}

#[test]
fn limit_buy_below_the_ask_rests_without_trading() {
    let mut book = OrderBook::new();
    book.match_order(limit_sell("s1", 100, 5));
    let events = book.match_order(limit_buy("b1", 99, 5));
    assert!(events.is_empty());
    assert_eq!(book.best_price(OrderType::Buy), Some(99));
    assert_eq!(book.best_price(OrderType::Sell), Some(100));
}

#[test]
fn limit_sell_walks_the_bids_from_the_highest() {
    let mut book = OrderBook::new();
    book.match_order(limit_buy("b98", 98, 5));
    book.match_order(limit_buy("b100", 100, 4));
    book.match_order(limit_buy("b99", 99, 3));
    let events = book.match_order(limit_sell("s1", 99, 10));
    assert_eq!(events.len(), 2);
    assert_eq!((events[0].quantity, events[0].price), (4, 100));
    assert_eq!(events[0].matched_with, "b100");
    assert_eq!(events[0].event_type, EventType::PartialFill);
    assert_eq!((events[1].quantity, events[1].price), (3, 99));
    assert_eq!(events[1].matched_with, "b99");
    assert_eq!(events[1].event_type, EventType::PartialFill);
    assert_eq!(quantities(&book.orders_at(OrderType::Sell, 99)), vec![3]);
    assert_eq!(quantities(&book.orders_at(OrderType::Buy, 98)), vec![5]);
    assert_eq!(book.level_count(OrderType::Buy), 1);
    assert_eq!(book.level_count(OrderType::Sell), 1);
}

#[test]
fn market_sell_takes_every_bid() {
    let mut book = OrderBook::new();
    book.match_order(limit_buy("b1", 100, 4));
    book.match_order(limit_buy("b2", 90, 4));
    let events =
        book.match_market_sell(order("m1", "seller", OrderKind::Market, OrderType::Sell, 0, 6));
    assert_eq!(events.len(), 2);
    assert_eq!((events[0].quantity, events[0].price), (4, 100));
    assert_eq!((events[1].quantity, events[1].price), (2, 90));
    assert_eq!(events[1].event_type, EventType::FullFill);
    assert_eq!(quantities(&book.orders_at(OrderType::Buy, 90)), vec![2]);
    assert_eq!(book.level_count(OrderType::Buy), 1);
}

#[test]
fn time_priority_within_a_level() {
    let mut book = OrderBook::new();
    book.match_order(limit_sell("first", 100, 5));
    book.match_order(limit_sell("second", 100, 5));
    book.match_order(limit_sell("third", 100, 5));
    assert_eq!(ids(&book.orders_at(OrderType::Sell, 100)), vec!["first", "second", "third"]);
    let events = book.match_order(limit_buy("b1", 100, 7));
    assert_eq!(events.len(), 2);
    assert_eq!((events[0].matched_with.as_str(), events[0].quantity), ("first", 5));
    assert_eq!((events[1].matched_with.as_str(), events[1].quantity), ("second", 2));
    let left = book.orders_at(OrderType::Sell, 100);
    assert_eq!(ids(&left), vec!["second", "third"]);
    assert_eq!(quantities(&left), vec![3, 5]);
    let events = book.match_order(limit_buy("b2", 100, 1));
    assert_eq!(events[0].matched_with, "second");
    assert_eq!(quantities(&book.orders_at(OrderType::Sell, 100)), vec![2, 5]);
}

#[test]
fn trades_execute_at_the_resting_price() {
    let mut book = OrderBook::new();
    book.match_order(limit_sell("s1", 90, 1));
    let events = book.match_order(limit_buy("b1", 120, 1));
    assert_eq!(events.len(), 1);
    assert_eq!(events[0].price, 90);
}

#[test]
fn conservation_of_quantity() {
    let mut book = OrderBook::new();
    book.match_order(limit_sell("s1", 100, 4));
    book.match_order(limit_sell("s2", 101, 3));
    let events = book.match_order(limit_buy("b1", 101, 12));
    let rested: u64 = quantities(&book.orders_at(OrderType::Buy, 101)).iter().sum();
    assert_eq!(total(&events), 7);
    assert_eq!(rested, 5);
    assert_eq!(total(&events) + rested, 12);
    let events =
        book.match_order(order("m1", "seller", OrderKind::Market, OrderType::Sell, 0, 9));
    assert_eq!(total(&events), 5);
    assert_eq!(events.len(), 2);
    assert_eq!(events[1].event_type, EventType::MarketPartialFill);
}

#[test]
fn book_never_crosses_and_holds_no_empty_level() {
    let mut book = OrderBook::new();
    let stream = vec![
        limit_sell("a", 105, 3),
        limit_buy("b", 100, 4),
        limit_buy("c", 106, 2),
        limit_sell("d", 99, 5),
        limit_sell("e", 101, 1),
        limit_buy("f", 101, 1),
        order("g", "buyer", OrderKind::Market, OrderType::Buy, 0, 10),
        limit_buy("h", 104, 2),
        limit_sell("i", 103, 7),
    ];
    for next in stream {
        book.match_order(next);
        if let (Some(bid), Some(ask)) =
            (book.best_price(OrderType::Buy), book.best_price(OrderType::Sell))
        {
            assert!(bid < ask);
        }
        for side in [OrderType::Buy, OrderType::Sell] {
            if let Some(best) = book.best_price(side) {
                let resting = book.orders_at(side, best);
                assert!(!resting.is_empty());
                assert!(resting.iter().all(|o| o.quantity > 0));
            }
        }
    }
    assert_eq!(book.best_price(OrderType::Buy), None);
    assert_eq!(book.best_price(OrderType::Sell), Some(103));
    assert_eq!(quantities(&book.orders_at(OrderType::Sell, 103)), vec![5]);
    assert_eq!(book.level_count(OrderType::Sell), 1);
}

#[test]
fn resting_orders_are_kept_by_price() {
    let mut book = OrderBook::new();
    book.match_order(limit_buy("b1", 100, 1));
    book.match_order(limit_buy("b2", 102, 1));
    book.match_order(limit_buy("b3", 101, 1));
    book.match_order(limit_buy("b4", 102, 1));
    assert_eq!(book.level_count(OrderType::Buy), 3);
    assert_eq!(book.best_price(OrderType::Buy), Some(102));
    assert_eq!(ids(&book.orders_at(OrderType::Buy, 102)), vec!["b2", "b4"]);
    book.match_order(limit_sell("s1", 110, 1));
    book.match_order(limit_sell("s2", 108, 1));
    book.match_order(limit_sell("s3", 109, 1));
    assert_eq!(book.best_price(OrderType::Sell), Some(108));
    assert_eq!(book.level_count(OrderType::Sell), 3);
}

#[test]
fn order_without_quantity_trades_nothing() {
    let mut book = OrderBook::new();
    book.match_order(limit_sell("s1", 100, 3));
    let events = book.match_order(limit_buy("b0", 100, 0));
    assert_eq!(events.len(), 1);
    assert_eq!(events[0].quantity, 0);
    assert_eq!(events[0].event_type, EventType::FullFill);
    assert_eq!(quantities(&book.orders_at(OrderType::Sell, 100)), vec![3]);
    assert_eq!(book.level_count(OrderType::Buy), 0);
    let events = book.match_order(limit_buy("b00", 50, 0));
    assert!(events.is_empty());
    assert_eq!(book.level_count(OrderType::Buy), 0);
}

#[test]
fn copies_of_an_order() {
    let whole = limit_buy("b1", 100, 10);
    assert_eq!(whole.duplicate(), whole);
    let smaller = whole.with_quantity(4);
    assert_eq!(smaller.quantity, 4);
    assert_eq!(smaller.order_id, "b1");
    assert_eq!(smaller.price, 100);
    assert_eq!(Price::from(7), Price(7));
    assert!(Price(7) < Price(8));
}
