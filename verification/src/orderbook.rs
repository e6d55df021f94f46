//! The order book of one market and the matcher that applies an incoming
//! order to it.

use std::collections::VecDeque;
use vstd::prelude::*;
use crate::types::{
    EnrichedOrderRequest, MatchEvent, OrderKind, OrderType, EventType, EventView, OrderView,
    events_view, orders_view,
};
use crate::model::{LevelView, SideView, BookView};
use crate::model;
use crate::laws::{lemma_match_keeps_book_in_order, lemma_sweep_side_keeps_order};

verus! {

/// The resting orders of one side at one price, oldest first.
struct PriceLevel {
    price: u64,
    orders: VecDeque<EnrichedOrderRequest>,
}

impl View for PriceLevel {
    type V = LevelView;

    closed spec fn view(&self) -> LevelView {
        LevelView { price: self.price as nat, orders: orders_view(self.orders@) }
    }
}

/// The values of the levels of one side, in order.
spec fn levels_view(levels: Seq<PriceLevel>) -> SideView {
    Seq::new(levels.len(), |i: int| levels[i]@)
}

/// The incoming order `taker`, still wanting `remaining`, trades against one
/// level from its head. Returns what is left of the level and of the incoming
/// order, and appends one event for each trade.
fn take_from_level(
    level: PriceLevel,
    remaining: u64,
    taker: &EnrichedOrderRequest,
    events: &mut Vec<MatchEvent>,
) -> (out: (PriceLevel, u64))
    ensures
        out.0@ == model::sweep_level(level@, remaining as nat, taker@).left,
        out.1 as nat == model::sweep_level(level@, remaining as nat, taker@).remaining,
        events_view(final(events)@) == events_view(old(events)@) + model::sweep_level(
            level@,
            remaining as nat,
            taker@,
        ).events,
{
    let price = level.price;
    let mut orders = level.orders;
    let mut remaining = remaining;
    let ghost start = events_view(events@);
    let ghost goal = model::sweep_level(level@, remaining as nat, taker@);
    let mut done = false;
    while !done
        invariant
            !done ==> ({
                let s = model::sweep_level(
                    LevelView { price: price as nat, orders: orders_view(orders@) },
                    remaining as nat,
                    taker@,
                );
                &&& goal.left == s.left
                &&& goal.remaining == s.remaining
                &&& start + goal.events == events_view(events@) + s.events
            }),
            done ==> ({
                &&& goal.left == LevelView { price: price as nat, orders: orders_view(orders@) }
                &&& goal.remaining == remaining as nat
                &&& start + goal.events == events_view(events@)
            }),
        decreases orders.len() + (if done { 0int } else { 1int }),
    {
        let ghost before = orders_view(orders@);
        let ghost seen = events_view(events@);
        match orders.pop_front() {
            None => {
                proof {
                    assert(seen + Seq::<EventView>::empty() =~= seen);
                }
                done = true;
            },
            Some(resting) => {
                let mut resting = resting;
                let traded = if remaining < resting.quantity {
                    remaining
                } else {
                    resting.quantity
                };
                remaining = remaining - traded;
                let kept = resting.quantity - traded;
                let event = MatchEvent {
                    order_id: taker.order_id.clone(),
                    user_id: taker.user_id.clone(),
                    matched_with: resting.order_id.clone(),
                    quantity: traded,
                    price,
                    order_kind: taker.kind,
                    market: taker.market,
                    event_type: if remaining == 0 {
                        EventType::FullFill
                    } else {
                        EventType::PartialFill
                    },
                };
                let ghost made = event@;
                events.push(event);
                proof {
                    assert(orders_view(orders@) =~= before.drop_first());
                    assert(events_view(events@) =~= seen.push(made));
                    assert(seen.push(made) =~= seen + seq![made]);
                    assert(before[0] == resting@);
                }
                if kept > 0 {
                    resting.quantity = kept;
                    orders.push_front(resting);
                    proof {
                        assert(orders_view(orders@) =~= before.update(0, resting@));
                    }
                    done = true;
                } else if remaining == 0 {
                    done = true;
                } else {
                    proof {
                        let rest = model::sweep_level(
                            LevelView { price: price as nat, orders: before.drop_first() },
                            remaining as nat,
                            taker@,
                        );
                        assert(seen + (seq![made] + rest.events) =~= (seen + seq![made])
                            + rest.events);
                    }
                }
            },
        }
    }
    (PriceLevel { price, orders }, remaining)
}

/// The incoming order trades against the levels of the other side, best price
/// first, while it crosses and wants more. Returns what it still wants, and
/// appends one event for each trade.
fn take_from_side(
    levels: &mut VecDeque<PriceLevel>,
    remaining: u64,
    taker: &EnrichedOrderRequest,
    side: OrderType,
    kind: OrderKind,
    events: &mut Vec<MatchEvent>,
) -> (left: u64)
    ensures
        levels_view(final(levels)@) == model::sweep_side(
            levels_view(old(levels)@),
            remaining as nat,
            taker@,
            side,
            kind,
        ).left,
        left as nat == model::sweep_side(
            levels_view(old(levels)@),
            remaining as nat,
            taker@,
            side,
            kind,
        ).remaining,
        events_view(final(events)@) == events_view(old(events)@) + model::sweep_side(
            levels_view(old(levels)@),
            remaining as nat,
            taker@,
            side,
            kind,
        ).events,
{
    let mut remaining = remaining;
    let ghost start = events_view(events@);
    let ghost goal = model::sweep_side(
        levels_view(levels@),
        remaining as nat,
        taker@,
        side,
        kind,
    );
    let mut done = false;
    while !done
        invariant
            !done ==> ({
                let s = model::sweep_side(
                    levels_view(levels@),
                    remaining as nat,
                    taker@,
                    side,
                    kind,
                );
                &&& goal.left == s.left
                &&& goal.remaining == s.remaining
                &&& start + goal.events == events_view(events@) + s.events
            }),
            done ==> ({
                &&& goal.left == levels_view(levels@)
                &&& goal.remaining == remaining as nat
                &&& start + goal.events == events_view(events@)
            }),
        decreases levels.len() + (if done { 0int } else { 1int }),
    {
        let ghost before = levels_view(levels@);
        let ghost seen = events_view(events@);
        match levels.pop_front() {
            None => {
                proof {
                    assert(seen + Seq::<EventView>::empty() =~= seen);
                }
                done = true;
            },
            Some(level) => {
                proof {
                    assert(levels_view(levels@) =~= before.drop_first());
                    assert(before[0] == level@);
                }
                if !price_crosses(side, kind, taker.price, level.price) {
                    levels.push_front(level);
                    proof {
                        assert(levels_view(levels@) =~= before);
                        assert(seen + Seq::<EventView>::empty() =~= seen);
                    }
                    done = true;
                } else {
                    let ghost first = model::sweep_level(level@, remaining as nat, taker@);
                    let (level, wanted) = take_from_level(level, remaining, taker, events);
                    remaining = wanted;
                    if level.orders.len() > 0 {
                        levels.push_front(level);
                        proof {
                            assert(levels_view(levels@) =~= before.update(0, first.left));
                        }
                        done = true;
                    } else if remaining == 0 {
                        done = true;
                    } else {
                        proof {
                            let rest = model::sweep_side(
                                before.drop_first(),
                                remaining as nat,
                                taker@,
                                side,
                                kind,
                            );
                            assert(seen + (first.events + rest.events) =~= (seen + first.events)
                                + rest.events);
                        }
                    }
                }
            },
        }
    }
    remaining
}

/// Whether an incoming order of the given side and kind, with limit `limit`,
/// may trade at the resting price `resting`.
fn price_crosses(side: OrderType, kind: OrderKind, limit: u64, resting: u64) -> (yes: bool)
    ensures
        yes == model::crosses(side, kind, limit as nat, resting as nat),
{
    match kind {
        OrderKind::Market => true,
        OrderKind::Limit => match side {
            OrderType::Buy => resting <= limit,
            OrderType::Sell => resting >= limit,
        },
    }
}

/// Whether, on the side `side`, price `a` has priority over price `b`.
fn price_ahead(side: OrderType, a: u64, b: u64) -> (yes: bool)
    ensures
        yes == model::ahead(side, a as nat, b as nat),
{
    match side {
        OrderType::Buy => a > b,
        OrderType::Sell => a < b,
    }
}

/// Puts `order` to rest among the levels of its own side: at the tail of the
/// level of its price, or alone in a new level at the place its price gives
/// it.
fn place(levels: &mut VecDeque<PriceLevel>, side: OrderType, order: EnrichedOrderRequest)
    ensures
        levels_view(final(levels)@) == model::rest(side, levels_view(old(levels)@), order@),
{
    let ghost before = levels_view(levels@);
    let price = order.price;
    let mut at: usize = 0;
    while at < levels.len() && price_ahead(side, levels[at].price, price)
        invariant
            0 <= at <= levels.len(),
            before == levels_view(levels@),
            model::rest_index(side, before, price as nat, 0) == model::rest_index(
                side,
                before,
                price as nat,
                at as int,
            ),
        decreases levels.len() - at,
    {
        proof {
            assert(before[at as int] == levels@[at as int]@);
        }
        at = at + 1;
    }
    proof {
        if at < levels.len() {
            assert(before[at as int] == levels@[at as int]@);
        }
    }
    if at < levels.len() && levels[at].price == price {
        match levels.remove(at) {
            Some(level) => {
                let mut level = level;
                let ghost resting = level@;
                level.orders.push_back(order);
                proof {
                    assert(level@.orders =~= resting.orders.push(order@));
                }
                levels.insert(at, level);
                proof {
                    assert(levels_view(levels@) =~= before.update(at as int, level@));
                }
            },
            None => {},
        }
    } else {
        let mut orders: VecDeque<EnrichedOrderRequest> = VecDeque::new();
        let ghost alone = order@;
        orders.push_back(order);
        let level = PriceLevel { price, orders };
        proof {
            assert(level@.orders =~= seq![alone]);
        }
        levels.insert(at, level);
        proof {
            assert(levels_view(levels@) =~= before.insert(at as int, level@));
        }
    }
}

/// The order book of one market: the resting buy orders and the resting
/// sell orders, each side by price and, within a price, by arrival.
pub struct OrderBook {
    /// The bids, the highest price first.
    buy: VecDeque<PriceLevel>,
    /// The asks, the lowest price first.
    sell: VecDeque<PriceLevel>,
}

impl View for OrderBook {
    type V = BookView;

    closed spec fn view(&self) -> BookView {
        BookView { bids: levels_view(self.buy@), asks: levels_view(self.sell@) }
    }
}

impl OrderBook {
    /// Every book is in order, at all times.
    #[verifier::type_invariant]
    spec fn in_order(&self) -> bool {
        self@.wf()
    }

    /// The book is in order: no level is empty, every resting order is open,
    /// each side is sorted by price, and the best bid is below the best ask.
    pub open spec fn wf(&self) -> bool {
        self@.wf()
    }

    /// Shows that the book is in order, as every book is.
    pub fn in_order_always(&self)
        ensures
            self.wf(),
    {
        proof {
            use_type_invariant(self);
        }
    }

    /// A book in which nothing rests.
    pub fn new() -> (book: OrderBook)
        ensures
            book@.bids == Seq::<LevelView>::empty(),
            book@.asks == Seq::<LevelView>::empty(),
            book.wf(),
    {
        let book = OrderBook { buy: VecDeque::new(), sell: VecDeque::new() };
        proof {
            assert(book@.bids =~= Seq::<LevelView>::empty());
            assert(book@.asks =~= Seq::<LevelView>::empty());
        }
        book
    }

    /// Matches `order` against the book by the side and kind that it carries,
    /// and returns the events of the trades in the order they were made.
    pub fn match_order(&mut self, order: EnrichedOrderRequest) -> (events: Vec<MatchEvent>)
        ensures
            final(self)@ == model::match_order(old(self)@, order@).book,
            events_view(events@) == model::match_order(old(self)@, order@).events,
            final(self).wf(),
    {
        match order.order_type {
            OrderType::Buy => match order.kind {
                OrderKind::Limit => self.match_limit_buy(order),
                OrderKind::Market => self.match_market_buy(order),
            },
            OrderType::Sell => match order.kind {
                OrderKind::Limit => self.match_limit_sell(order),
                OrderKind::Market => self.match_market_sell(order),
            },
        }
    }

    /// Matches `order` as a limit buy: against the asks from the lowest up
    /// to its limit; what is left rests among the bids.
    fn match_limit_buy(&mut self, order: EnrichedOrderRequest) -> (events: Vec<MatchEvent>)
        ensures
            final(self)@ == model::match_as(
                old(self)@,
                order@,
                OrderType::Buy,
                OrderKind::Limit,
            ).book,
            events_view(events@) == model::match_as(
                old(self)@,
                order@,
                OrderType::Buy,
                OrderKind::Limit,
            ).events,
            final(self).wf(),
    {
        self.match_as(order, OrderType::Buy, OrderKind::Limit)
    }

    /// Matches `order` as a market buy: against the asks from the lowest up,
    /// whatever their price; what is left is dropped.
    fn match_market_buy(&mut self, order: EnrichedOrderRequest) -> (events: Vec<MatchEvent>)
        ensures
            final(self)@ == model::match_as(
                old(self)@,
                order@,
                OrderType::Buy,
                OrderKind::Market,
            ).book,
            events_view(events@) == model::match_as(
                old(self)@,
                order@,
                OrderType::Buy,
                OrderKind::Market,
            ).events,
            final(self).wf(),
    {
        self.match_as(order, OrderType::Buy, OrderKind::Market)
    }

    /// Matches `order` as a limit sell: against the bids from the highest
    /// down to its limit; what is left rests among the asks.
    fn match_limit_sell(&mut self, order: EnrichedOrderRequest) -> (events: Vec<MatchEvent>)
        ensures
            final(self)@ == model::match_as(
                old(self)@,
                order@,
                OrderType::Sell,
                OrderKind::Limit,
            ).book,
            events_view(events@) == model::match_as(
                old(self)@,
                order@,
                OrderType::Sell,
                OrderKind::Limit,
            ).events,
            final(self).wf(),
    {
        self.match_as(order, OrderType::Sell, OrderKind::Limit)
    }

    /// Matches `order` as a market sell, whatever side and kind it carries:
    /// against the bids from the highest down; what is left is dropped.
    pub fn match_market_sell(&mut self, order: EnrichedOrderRequest) -> (events: Vec<MatchEvent>)
        ensures
            final(self)@ == model::match_as(
                old(self)@,
                order@,
                OrderType::Sell,
                OrderKind::Market,
            ).book,
            events_view(events@) == model::match_as(
                old(self)@,
                order@,
                OrderType::Sell,
                OrderKind::Market,
            ).events,
            final(self).wf(),
    {
        self.match_as(order, OrderType::Sell, OrderKind::Market)
    }

    /// Matches `order` as an order of the given side and kind.
    fn match_as(&mut self, order: EnrichedOrderRequest, side: OrderType, kind: OrderKind) -> (events:
        Vec<MatchEvent>)
        ensures
            final(self)@ == model::match_as(old(self)@, order@, side, kind).book,
            events_view(events@) == model::match_as(old(self)@, order@, side, kind).events,
            final(self).wf(),
    {
        let ghost before = self@;
        let ghost taker = order@;
        proof {
            use_type_invariant(&*self);
            lemma_match_keeps_book_in_order(before, taker, side, kind);
            lemma_sweep_side_keeps_order(
                before.side(model::opposite(side)),
                taker.quantity,
                taker,
                side,
                kind,
            );
        }
        let mut events: Vec<MatchEvent> = Vec::new();
        proof {
            assert(events_view(events@) =~= Seq::<EventView>::empty());
        }
        let mut there: VecDeque<PriceLevel> = VecDeque::new();
        proof {
            assert(levels_view(there@) =~= Seq::<LevelView>::empty());
        }
        match side {
            OrderType::Buy => core::mem::swap(&mut self.sell, &mut there),
            OrderType::Sell => core::mem::swap(&mut self.buy, &mut there),
        }
        let left = take_from_side(&mut there, order.quantity, &order, side, kind, &mut events);
        match side {
            OrderType::Buy => core::mem::swap(&mut self.sell, &mut there),
            OrderType::Sell => core::mem::swap(&mut self.buy, &mut there),
        }
        let ghost swept = model::sweep_side(
            before.side(model::opposite(side)),
            taker.quantity,
            taker,
            side,
            kind,
        );
        proof {
            assert(events_view(events@) =~= swept.events);
        }
        if left > 0 {
            match kind {
                OrderKind::Limit => {
                    let mut rested = order;
                    rested.quantity = left;
                    let mut here: VecDeque<PriceLevel> = VecDeque::new();
                    proof {
                        assert(levels_view(here@) =~= Seq::<LevelView>::empty());
                    }
                    match side {
                        OrderType::Buy => core::mem::swap(&mut self.buy, &mut here),
                        OrderType::Sell => core::mem::swap(&mut self.sell, &mut here),
                    }
                    place(&mut here, side, rested);
                    match side {
                        OrderType::Buy => core::mem::swap(&mut self.buy, &mut here),
                        OrderType::Sell => core::mem::swap(&mut self.sell, &mut here),
                    }
                },
                OrderKind::Market => {
                    let ghost seen = events_view(events@);
                    let signal = MatchEvent {
                        order_id: order.order_id.clone(),
                        user_id: order.user_id.clone(),
                        matched_with: String::new(),
                        quantity: 0,
                        price: 0,
                        order_kind: order.kind,
                        market: order.market,
                        event_type: EventType::MarketPartialFill,
                    };
                    events.push(signal);
                    proof {
                        assert(events_view(events@) =~= seen.push(model::unfilled_event(taker)));
                    }
                },
            }
        }
        events
    }

    /// The best price of one side: the highest bid or the lowest ask.
    pub fn best_price(&self, side: OrderType) -> (best: Option<u64>)
        ensures
            match best {
                Some(price) => self@.best(side) == Some(price as nat),
                None => self@.best(side).is_none(),
            },
    {
        let levels = match side {
            OrderType::Buy => &self.buy,
            OrderType::Sell => &self.sell,
        };
        if levels.len() > 0 {
            Some(levels[0].price)
        } else {
            None
        }
    }

    /// How many price levels one side holds.
    pub fn level_count(&self, side: OrderType) -> (count: usize)
        ensures
            count == self@.side(side).len(),
    {
        match side {
            OrderType::Buy => self.buy.len(),
            OrderType::Sell => self.sell.len(),
        }
    }

    /// Copies of the orders that rest on `side` at `price`, oldest first;
    /// none where the side has no level at that price.
    pub fn orders_at(&self, side: OrderType, price: u64) -> (orders: Vec<EnrichedOrderRequest>)
        ensures
            orders_view(orders@) == self@.orders_at(side, price as nat),
    {
        let levels = match side {
            OrderType::Buy => &self.buy,
            OrderType::Sell => &self.sell,
        };
        let ghost all = self@.side(side);
        let mut found: Vec<EnrichedOrderRequest> = Vec::new();
        let mut at: usize = 0;
        while at < levels.len() && levels[at].price != price
            invariant
                0 <= at <= levels.len(),
                all == levels_view(levels@),
                found@.len() == 0,
                model::orders_from(all, price as nat, 0) == model::orders_from(
                    all,
                    price as nat,
                    at as int,
                ),
            decreases levels.len() - at,
        {
            proof {
                assert(all[at as int] == levels@[at as int]@);
            }
            at = at + 1;
        }
        if at < levels.len() {
            proof {
                assert(all[at as int] == levels@[at as int]@);
            }
            let level = &levels[at];
            let mut i: usize = 0;
            while i < level.orders.len()
                invariant
                    0 <= i <= level.orders.len(),
                    found@.len() == i,
                    forall|k: int| 0 <= k < i ==> (#[trigger] found@[k])@ == level.orders@[k]@,
                decreases level.orders.len() - i,
            {
                found.push(level.orders[i].duplicate());
                i = i + 1;
            }
            proof {
                assert(orders_view(found@) =~= level@.orders);
            }
        } else {
            proof {
                assert(orders_view(found@) =~= Seq::<OrderView>::empty());
            }
        }
        found
    }
}

} // verus!
