//! The matching rules as mathematics: what a book is, and what one incoming
//! order does to it.

use vstd::prelude::*;
use crate::types::{OrderKind, OrderType, EventType, OrderView, EventView};

verus! {

/// All resting orders of one side at one price, oldest first.
pub struct LevelView {
    pub price: nat,
    pub orders: Seq<OrderView>,
}

/// One side of a book: its price levels, the best price first.
pub type SideView = Seq<LevelView>;

/// A book: the bids from the highest price down, the asks from the lowest
/// price up.
pub struct BookView {
    pub bids: SideView,
    pub asks: SideView,
}

/// The side that an order of side `side` trades against.
pub open spec fn opposite(side: OrderType) -> OrderType {
    match side {
        OrderType::Buy => OrderType::Sell,
        OrderType::Sell => OrderType::Buy,
    }
}

/// On the side `side` of a book, price `a` has priority over price `b`:
/// the higher bid, the lower ask.
pub open spec fn ahead(side: OrderType, a: nat, b: nat) -> bool {
    match side {
        OrderType::Buy => a > b,
        OrderType::Sell => a < b,
    }
}

/// An incoming order of the given side and kind, with limit `limit`, may
/// trade at a resting price `resting`.
pub open spec fn crosses(side: OrderType, kind: OrderKind, limit: nat, resting: nat) -> bool {
    match kind {
        OrderKind::Market => true,
        OrderKind::Limit => match side {
            OrderType::Buy => resting <= limit,
            OrderType::Sell => resting >= limit,
        },
    }
}

/// Every order of the level is open and stands at the level's price.
pub open spec fn level_open(level: LevelView) -> bool {
    forall|i: int|
        0 <= i < level.orders.len() ==> (#[trigger] level.orders[i]).quantity > 0
            && level.orders[i].price == level.price
}

/// The level holds at least one order, and each of them is open and stands
/// at the level's price.
pub open spec fn level_wf(level: LevelView) -> bool {
    &&& level.orders.len() > 0
    &&& level_open(level)
}

/// The levels of one side are well formed and strictly ordered, the best
/// price first.
pub open spec fn side_wf(side: OrderType, levels: SideView) -> bool {
    &&& forall|i: int| 0 <= i < levels.len() ==> level_wf(#[trigger] levels[i])
    &&& forall|i: int, j: int|
        0 <= i < j < levels.len() ==> ahead(side, (#[trigger] levels[i]).price, (#[trigger] levels[j]).price)
}

/// Some order of the level has the identifier `id`.
pub open spec fn level_holds(level: LevelView, id: Seq<char>) -> bool {
    exists|k: int| 0 <= k < level.orders.len() && (#[trigger] level.orders[k]).order_id == id
}

/// Some order resting on the side has the identifier `id`.
pub open spec fn side_holds(levels: SideView, id: Seq<char>) -> bool {
    exists|i: int| 0 <= i < levels.len() && level_holds(#[trigger] levels[i], id)
}

impl BookView {
    /// No identifier is that of a resting bid and of a resting ask.
    pub open spec fn sides_disjoint(self) -> bool {
        forall|id: Seq<char>| !(#[trigger] side_holds(self.bids, id) && side_holds(self.asks, id))
    }

    /// The levels of one side.
    pub open spec fn side(self, side: OrderType) -> SideView {
        match side {
            OrderType::Buy => self.bids,
            OrderType::Sell => self.asks,
        }
    }

    /// The book with one side replaced.
    pub open spec fn with_side(self, side: OrderType, levels: SideView) -> BookView {
        match side {
            OrderType::Buy => BookView { bids: levels, asks: self.asks },
            OrderType::Sell => BookView { bids: self.bids, asks: levels },
        }
    }

    /// The orders that rest on `side` at `price`, oldest first.
    pub open spec fn orders_at(self, side: OrderType, price: nat) -> Seq<OrderView> {
        orders_from(self.side(side), price, 0)
    }

    /// The best price of `side`, where the side holds an order.
    pub open spec fn best(self, side: OrderType) -> Option<nat> {
        if self.side(side).len() > 0 {
            Some(self.side(side)[0].price)
        } else {
            None
        }
    }

    /// No bid reaches an ask: the best bid is below the best ask.
    pub open spec fn non_crossing(self) -> bool {
        self.bids.len() > 0 && self.asks.len() > 0 ==> self.bids[0].price < self.asks[0].price
    }

    /// No level is empty, every resting order is open, each side is ordered
    /// by price, and the book does not cross.
    pub open spec fn wf(self) -> bool {
        &&& side_wf(OrderType::Buy, self.bids)
        &&& side_wf(OrderType::Sell, self.asks)
        &&& self.non_crossing()
    }
}

/// What is left after the incoming order has gone through some resting
/// orders: the resting orders that remain, the quantity the incoming order
/// still wants, and the events of the trades made.
pub struct Sweep<T> {
    pub left: T,
    pub remaining: nat,
    pub events: Seq<EventView>,
}

/// The event of one trade of `quantity` at `price` between the incoming
/// order and `resting`; `remaining` is what the incoming order wants after it.
pub open spec fn trade_event(
    taker: OrderView,
    resting: OrderView,
    price: nat,
    quantity: nat,
    remaining: nat,
) -> EventView {
    EventView {
        order_id: taker.order_id,
        user_id: taker.user_id,
        matched_with: resting.order_id,
        quantity,
        price,
        order_kind: taker.kind,
        market: taker.market,
        event_type: if remaining == 0 {
            EventType::FullFill
        } else {
            EventType::PartialFill
        },
    }
}

/// The closing signal of a market order that found too little liquidity.
pub open spec fn unfilled_event(taker: OrderView) -> EventView {
    EventView {
        order_id: taker.order_id,
        user_id: taker.user_id,
        matched_with: Seq::empty(),
        quantity: 0,
        price: 0,
        order_kind: taker.kind,
        market: taker.market,
        event_type: EventType::MarketPartialFill,
    }
}

/// The incoming order, wanting `remaining`, trades against one level from
/// its head: each resting order in turn, until one outlasts the incoming
/// order, the incoming order is filled, or the level is exhausted.
pub open spec fn sweep_level(level: LevelView, remaining: nat, taker: OrderView) -> Sweep<
    LevelView,
>
    decreases level.orders.len(),
{
    if level.orders.len() == 0 {
        Sweep { left: level, remaining, events: Seq::empty() }
    } else {
        let head = level.orders[0];
        let traded = if remaining < head.quantity {
            remaining
        } else {
            head.quantity
        };
        let after = (remaining - traded) as nat;
        let event = trade_event(taker, head, level.price, traded, after);
        if head.quantity > traded {
            Sweep {
                left: LevelView {
                    price: level.price,
                    orders: level.orders.update(
                        0,
                        head.with_quantity((head.quantity - traded) as nat),
                    ),
                },
                remaining: after,
                events: seq![event],
            }
        } else if after == 0 {
            Sweep {
                left: LevelView { price: level.price, orders: level.orders.drop_first() },
                remaining: after,
                events: seq![event],
            }
        } else {
            let rest = sweep_level(
                LevelView { price: level.price, orders: level.orders.drop_first() },
                after,
                taker,
            );
            Sweep { left: rest.left, remaining: rest.remaining, events: seq![event] + rest.events }
        }
    }
}

/// The incoming order trades against the levels of the other side, best
/// price first, as long as it crosses and something is left of it. A level
/// that it exhausts leaves the side.
pub open spec fn sweep_side(
    levels: SideView,
    remaining: nat,
    taker: OrderView,
    side: OrderType,
    kind: OrderKind,
) -> Sweep<SideView>
    decreases levels.len(),
{
    if levels.len() == 0 || !crosses(side, kind, taker.price, levels[0].price) {
        Sweep { left: levels, remaining, events: Seq::empty() }
    } else {
        let first = sweep_level(levels[0], remaining, taker);
        if first.left.orders.len() > 0 {
            Sweep {
                left: levels.update(0, first.left),
                remaining: first.remaining,
                events: first.events,
            }
        } else if first.remaining == 0 {
            Sweep { left: levels.drop_first(), remaining: 0, events: first.events }
        } else {
            let rest = sweep_side(levels.drop_first(), first.remaining, taker, side, kind);
            Sweep {
                left: rest.left,
                remaining: rest.remaining,
                events: first.events + rest.events,
            }
        }
    }
}

/// Where an order at `price` comes to stand among the levels of its own
/// side: the index of the first level, from `from` on, that `price` is not
/// behind.
pub open spec fn rest_index(side: OrderType, levels: SideView, price: nat, from: int) -> int
    decreases levels.len() - from,
{
    if from < 0 || from >= levels.len() || !ahead(side, levels[from].price, price) {
        from
    } else {
        rest_index(side, levels, price, from + 1)
    }
}

/// The side after `order` has come to rest on it: at the tail of the level
/// of its price, or alone in a new level at the place its price gives it.
pub open spec fn rest(side: OrderType, levels: SideView, order: OrderView) -> SideView {
    let at = rest_index(side, levels, order.price, 0);
    if 0 <= at < levels.len() && levels[at].price == order.price {
        levels.update(
            at,
            LevelView { price: order.price, orders: levels[at].orders.push(order) },
        )
    } else {
        levels.insert(at, LevelView { price: order.price, orders: seq![order] })
    }
}

/// The orders that rest at `price` among `levels`, looking from the level
/// `from` on, oldest first; none where no level has that price.
pub open spec fn orders_from(levels: SideView, price: nat, from: int) -> Seq<OrderView>
    decreases levels.len() - from,
{
    if from < 0 || from >= levels.len() {
        Seq::empty()
    } else if levels[from].price == price {
        levels[from].orders
    } else {
        orders_from(levels, price, from + 1)
    }
}

/// The outcome of matching one order: the book afterwards and the events
/// in the order they were made.
pub struct Outcome {
    pub book: BookView,
    pub events: Seq<EventView>,
}

/// What the incoming order still wants after it has traded against the
/// book, taken as an order of the given side and kind.
pub open spec fn residual(book: BookView, order: OrderView, side: OrderType, kind: OrderKind) -> nat {
    sweep_side(book.side(opposite(side)), order.quantity, order, side, kind).remaining
}

/// Matching `order` against `book` as an order of the given side and kind:
/// it trades against the other side; what is left of a limit order comes
/// to rest on its own side, what is left of a market order is dropped with
/// a closing signal.
pub open spec fn match_as(book: BookView, order: OrderView, side: OrderType, kind: OrderKind) -> Outcome {
    let swept = sweep_side(book.side(opposite(side)), order.quantity, order, side, kind);
    let taken = book.with_side(opposite(side), swept.left);
    if swept.remaining == 0 {
        Outcome { book: taken, events: swept.events }
    } else {
        match kind {
            OrderKind::Limit => Outcome {
                book: taken.with_side(
                    side,
                    rest(side, book.side(side), order.with_quantity(swept.remaining)),
                ),
                events: swept.events,
            },
            OrderKind::Market => Outcome {
                book: taken,
                events: swept.events.push(unfilled_event(order)),
            },
        }
    }
}

/// Matching `order` against `book`, by the side and kind that it carries.
pub open spec fn match_order(book: BookView, order: OrderView) -> Outcome {
    match_as(book, order, order.order_type, order.kind)
}

} // verus!
