//! What holds of the matching rules, proved once for every book and every
//! order.

use vstd::prelude::*;
use crate::types::{OrderKind, OrderType, EventType, OrderView, EventView};
use crate::model::{
    LevelView, SideView, BookView, ahead, crosses, opposite, level_open, level_wf, side_wf,
    sweep_level, sweep_side, rest_index, rest, residual, match_as, match_order, unfilled_event,
    orders_from, level_holds, side_holds,
};

verus! {

/// The part of a level below an order that left it is a level in order too.
proof fn lemma_level_tail(level: LevelView)
    requires
        level_open(level),
        level.orders.len() > 0,
    ensures
        level_open(LevelView { price: level.price, orders: level.orders.drop_first() }),
{
    let tail = LevelView { price: level.price, orders: level.orders.drop_first() };
    assert forall|i: int| 0 <= i < tail.orders.len() implies (#[trigger] tail.orders[i]).quantity
        > 0 && tail.orders[i].price == tail.price by {
        assert(tail.orders[i] == level.orders[i + 1]);
    }
}

/// What is left of a level after an order went through it stands at the same
/// price and is in order; where anything is left of it, the order was filled.
pub proof fn lemma_sweep_level_keeps_order(level: LevelView, remaining: nat, taker: OrderView)
    requires
        level_open(level),
    ensures
        sweep_level(level, remaining, taker).left.price == level.price,
        level_open(sweep_level(level, remaining, taker).left),
        sweep_level(level, remaining, taker).left.orders.len() > 0 ==> sweep_level(
            level,
            remaining,
            taker,
        ).remaining == 0,
        sweep_level(level, remaining, taker).remaining <= remaining,
    decreases level.orders.len(),
{
    if level.orders.len() > 0 {
        let head = level.orders[0];
        let traded = if remaining < head.quantity {
            remaining
        } else {
            head.quantity
        };
        let after = (remaining - traded) as nat;
        let tail = LevelView { price: level.price, orders: level.orders.drop_first() };
        lemma_level_tail(level);
        if head.quantity > traded {
            let kept = head.with_quantity((head.quantity - traded) as nat);
            let left = LevelView { price: level.price, orders: level.orders.update(0, kept) };
            assert forall|i: int| 0 <= i < left.orders.len() implies (
            #[trigger] left.orders[i]).quantity > 0 && left.orders[i].price == left.price by {
                if i > 0 {
                    assert(left.orders[i] == level.orders[i]);
                }
            }
        } else if after == 0 {
        } else {
            lemma_sweep_level_keeps_order(tail, after, taker);
        }
    }
}

/// A side without its best level is a side in order.
proof fn lemma_side_tail(side: OrderType, levels: SideView)
    requires
        side_wf(side, levels),
        levels.len() > 0,
    ensures
        side_wf(side, levels.drop_first()),
{
    let tail = levels.drop_first();
    assert forall|i: int| 0 <= i < tail.len() implies level_wf(#[trigger] tail[i]) by {
        assert(tail[i] == levels[i + 1]);
    }
    assert forall|i: int, j: int| 0 <= i < j < tail.len() implies ahead(
        side,
        (#[trigger] tail[i]).price,
        (#[trigger] tail[j]).price,
    ) by {
        assert(tail[i] == levels[i + 1]);
        assert(tail[j] == levels[j + 1]);
    }
}

/// What an incoming order leaves of the side it trades against is a side in
/// order, whose best price is no better than the best price before; and
/// where the order still wants more, nothing is left that it crosses.
pub proof fn lemma_sweep_side_keeps_order(
    levels: SideView,
    remaining: nat,
    taker: OrderView,
    side: OrderType,
    kind: OrderKind,
)
    requires
        side_wf(opposite(side), levels),
    ensures
        side_wf(opposite(side), sweep_side(levels, remaining, taker, side, kind).left),
        sweep_side(levels, remaining, taker, side, kind).left.len() > 0 ==> levels.len() > 0
            && !ahead(
            opposite(side),
            sweep_side(levels, remaining, taker, side, kind).left[0].price,
            levels[0].price,
        ),
        sweep_side(levels, remaining, taker, side, kind).remaining > 0 ==> sweep_side(
            levels,
            remaining,
            taker,
            side,
            kind,
        ).left.len() == 0 || !crosses(
            side,
            kind,
            taker.price,
            sweep_side(levels, remaining, taker, side, kind).left[0].price,
        ),
        sweep_side(levels, remaining, taker, side, kind).remaining <= remaining,
    decreases levels.len(),
{
    let there = opposite(side);
    if levels.len() == 0 || !crosses(side, kind, taker.price, levels[0].price) {
    } else {
        let first = sweep_level(levels[0], remaining, taker);
        assert(level_wf(levels[0]));
        lemma_sweep_level_keeps_order(levels[0], remaining, taker);
        lemma_side_tail(there, levels);
        if first.left.orders.len() > 0 {
            let left = levels.update(0, first.left);
            assert forall|i: int| 0 <= i < left.len() implies level_wf(#[trigger] left[i]) by {
                if i > 0 {
                    assert(left[i] == levels[i]);
                    assert(level_wf(levels[i]));
                }
            }
            assert forall|i: int, j: int| 0 <= i < j < left.len() implies ahead(
                there,
                (#[trigger] left[i]).price,
                (#[trigger] left[j]).price,
            ) by {
                assert(left[i].price == levels[i].price);
                assert(left[j].price == levels[j].price);
                assert(ahead(there, levels[i].price, levels[j].price));
            }
        } else if first.remaining == 0 {
            let left = levels.drop_first();
            if left.len() > 0 {
                assert(left[0] == levels[1]);
                assert(ahead(there, levels[0].price, levels[1].price));
            }
        } else {
            let tail = levels.drop_first();
            lemma_sweep_side_keeps_order(tail, first.remaining, taker, side, kind);
            let rest = sweep_side(tail, first.remaining, taker, side, kind);
            if rest.left.len() > 0 {
                assert(tail[0] == levels[1]);
                assert(ahead(there, levels[0].price, levels[1].price));
            }
        }
    }
}

/// The place that a price is given on a side lies within the side, behind
/// every level that is ahead of the price and at the first that is not.
pub proof fn lemma_rest_index(side: OrderType, levels: SideView, price: nat, from: int)
    requires
        0 <= from <= levels.len(),
    ensures
        from <= rest_index(side, levels, price, from) <= levels.len(),
        forall|j: int|
            from <= j < rest_index(side, levels, price, from) ==> ahead(
                side,
                (#[trigger] levels[j]).price,
                price,
            ),
        rest_index(side, levels, price, from) < levels.len() ==> !ahead(
            side,
            levels[rest_index(side, levels, price, from)].price,
            price,
        ),
    decreases levels.len() - from,
{
    if from < levels.len() && ahead(side, levels[from].price, price) {
        lemma_rest_index(side, levels, price, from + 1);
    }
}

/// A side on which an open order came to rest is a side in order, and its
/// best price is the best price before or the order's own.
pub proof fn lemma_rest_keeps_order(side: OrderType, levels: SideView, order: OrderView)
    requires
        side_wf(side, levels),
        order.quantity > 0,
    ensures
        side_wf(side, rest(side, levels, order)),
        rest(side, levels, order).len() > 0,
        rest(side, levels, order)[0].price == order.price || (levels.len() > 0 && rest(
            side,
            levels,
            order,
        )[0].price == levels[0].price),
{
    let at = rest_index(side, levels, order.price, 0);
    lemma_rest_index(side, levels, order.price, 0);
    let after = rest(side, levels, order);
    if 0 <= at < levels.len() && levels[at].price == order.price {
        let grown = LevelView { price: order.price, orders: levels[at].orders.push(order) };
        assert(level_wf(levels[at]));
        assert forall|i: int| 0 <= i < grown.orders.len() implies (
        #[trigger] grown.orders[i]).quantity > 0 && grown.orders[i].price == grown.price by {
            if i < levels[at].orders.len() {
                assert(grown.orders[i] == levels[at].orders[i]);
            }
        }
        assert forall|i: int| 0 <= i < after.len() implies level_wf(#[trigger] after[i]) by {
            if i != at {
                assert(after[i] == levels[i]);
                assert(level_wf(levels[i]));
            }
        }
        assert forall|i: int, j: int| 0 <= i < j < after.len() implies ahead(
            side,
            (#[trigger] after[i]).price,
            (#[trigger] after[j]).price,
        ) by {
            assert(after[i].price == levels[i].price);
            assert(after[j].price == levels[j].price);
            assert(ahead(side, levels[i].price, levels[j].price));
        }
    } else {
        let alone = LevelView { price: order.price, orders: seq![order] };
        assert(level_wf(alone));
        assert forall|i: int| 0 <= i < after.len() implies level_wf(#[trigger] after[i]) by {
            if i < at {
                assert(after[i] == levels[i]);
                assert(level_wf(levels[i]));
            } else if i > at {
                assert(after[i] == levels[i - 1]);
                assert(level_wf(levels[i - 1]));
            }
        }
        assert forall|i: int, j: int| 0 <= i < j < after.len() implies ahead(
            side,
            (#[trigger] after[i]).price,
            (#[trigger] after[j]).price,
        ) by {
            if at < levels.len() {
                assert(ahead(side, order.price, levels[at].price));
            }
            if j < at {
                assert(after[i] == levels[i] && after[j] == levels[j]);
                assert(ahead(side, levels[i].price, levels[j].price));
            } else if j == at {
                assert(after[i] == levels[i]);
                assert(ahead(side, levels[i].price, order.price));
            } else if i < at {
                assert(after[i] == levels[i] && after[j] == levels[j - 1]);
                if i < j - 1 {
                    assert(ahead(side, levels[i].price, levels[j - 1].price));
                }
            } else if i == at {
                assert(after[j] == levels[j - 1]);
                if at < j - 1 {
                    assert(ahead(side, levels[at].price, levels[j - 1].price));
                }
            } else {
                assert(after[i] == levels[i - 1] && after[j] == levels[j - 1]);
                assert(ahead(side, levels[i - 1].price, levels[j - 1].price));
            }
        }
        if at > 0 {
            assert(after[0] == levels[0]);
        }
    }
}

/// A book in order is in order after any order has been matched against it:
/// no level is empty, every resting order is open, each side is sorted, and
/// the best bid is below the best ask.
pub proof fn lemma_match_keeps_book_in_order(
    book: BookView,
    order: OrderView,
    side: OrderType,
    kind: OrderKind,
)
    requires
        book.wf(),
    ensures
        match_as(book, order, side, kind).book.wf(),
{
    let there = opposite(side);
    let swept = sweep_side(book.side(there), order.quantity, order, side, kind);
    lemma_sweep_side_keeps_order(book.side(there), order.quantity, order, side, kind);
    let taken = book.with_side(there, swept.left);
    assert(taken.wf());
    if swept.remaining > 0 && kind == OrderKind::Limit {
        lemma_rest_keeps_order(side, book.side(side), order.with_quantity(swept.remaining));
    }
}

/// The book after the orders of `orders` have been matched against `book`
/// one after another.
pub open spec fn after_all(book: BookView, orders: Seq<OrderView>) -> BookView
    decreases orders.len(),
{
    if orders.len() == 0 {
        book
    } else {
        match_order(after_all(book, orders.drop_last()), orders.last()).book
    }
}

/// Non-crossing book and level cleanup. After any sequence of orders has
/// been matched against a book in order, the best bid is below the best
/// ask where both sides hold orders, no level of either side is empty, and
/// every resting order is open.
pub proof fn lemma_book_stays_in_order(book: BookView, orders: Seq<OrderView>)
    requires
        book.wf(),
    ensures
        after_all(book, orders).wf(),
        after_all(book, orders).bids.len() > 0 && after_all(book, orders).asks.len() > 0
            ==> after_all(book, orders).bids[0].price < after_all(book, orders).asks[0].price,
        forall|i: int|
            0 <= i < after_all(book, orders).bids.len() ==> (#[trigger] after_all(
                book,
                orders,
            ).bids[i]).orders.len() > 0,
        forall|i: int|
            0 <= i < after_all(book, orders).asks.len() ==> (#[trigger] after_all(
                book,
                orders,
            ).asks[i]).orders.len() > 0,
    decreases orders.len(),
{
    if orders.len() > 0 {
        let before = after_all(book, orders.drop_last());
        lemma_book_stays_in_order(book, orders.drop_last());
        lemma_match_keeps_book_in_order(
            before,
            orders.last(),
            orders.last().order_type,
            orders.last().kind,
        );
    }
    let last = after_all(book, orders);
    assert forall|i: int| 0 <= i < last.bids.len() implies (#[trigger] last.bids[i]).orders.len()
        > 0 by {
        assert(level_wf(last.bids[i]));
    }
    assert forall|i: int| 0 <= i < last.asks.len() implies (#[trigger] last.asks[i]).orders.len()
        > 0 by {
        assert(level_wf(last.asks[i]));
    }
}

/// The quantities of all events together.
pub open spec fn total_quantity(events: Seq<EventView>) -> nat
    decreases events.len(),
{
    if events.len() == 0 {
        0
    } else {
        events[0].quantity + total_quantity(events.drop_first())
    }
}

/// The quantities of the events that name a resting order: the trades.
pub open spec fn traded_quantity(events: Seq<EventView>) -> nat
    decreases events.len(),
{
    if events.len() == 0 {
        0
    } else if events[0].matched_with.len() > 0 {
        events[0].quantity + traded_quantity(events.drop_first())
    } else {
        traded_quantity(events.drop_first())
    }
}

/// Every resting order of the side has an identifier that is not empty.
pub open spec fn ids_present(levels: SideView) -> bool {
    forall|i: int, k: int|
        0 <= i < levels.len() && 0 <= k < levels[i].orders.len() ==> (
        #[trigger] levels[i].orders[k]).order_id.len() > 0
}

/// The quantities of two runs of events add up.
pub proof fn lemma_total_of_both(a: Seq<EventView>, b: Seq<EventView>)
    ensures
        total_quantity(a + b) == total_quantity(a) + total_quantity(b),
    decreases a.len(),
{
    if a.len() == 0 {
        assert(a + b =~= b);
    } else {
        assert((a + b).drop_first() =~= a.drop_first() + b);
        lemma_total_of_both(a.drop_first(), b);
    }
}

/// Where every event names a resting order or has quantity zero, the trades
/// hold all the quantity.
pub proof fn lemma_traded_is_total(events: Seq<EventView>)
    requires
        forall|i: int|
            0 <= i < events.len() ==> (#[trigger] events[i]).matched_with.len() > 0
                || events[i].quantity == 0,
    ensures
        traded_quantity(events) == total_quantity(events),
    decreases events.len(),
{
    if events.len() > 0 {
        let tail = events.drop_first();
        assert forall|i: int| 0 <= i < tail.len() implies (#[trigger] tail[i]).matched_with.len()
            > 0 || tail[i].quantity == 0 by {
            assert(tail[i] == events[i + 1]);
        }
        lemma_traded_is_total(tail);
    }
}

/// Time priority within a level. The trades of an incoming order against a
/// level go through its resting orders from the oldest on, one event each:
/// the event at place `i` is a trade with the resting order at place `i`, at
/// the level's price and for no more than that order holds, and before a
/// later order is touched every earlier one is taken whole. What the trades
/// hold is what the incoming order no longer wants.
pub proof fn lemma_time_priority(level: LevelView, remaining: nat, taker: OrderView)
    ensures
        remaining == sweep_level(level, remaining, taker).remaining + total_quantity(
            sweep_level(level, remaining, taker).events,
        ),
        sweep_level(level, remaining, taker).events.len() <= level.orders.len(),
        level.orders.len() > 0 ==> sweep_level(level, remaining, taker).events.len() > 0,
        forall|i: int|
            0 <= i < sweep_level(level, remaining, taker).events.len() ==> {
                let event = #[trigger] sweep_level(level, remaining, taker).events[i];
                &&& event.matched_with == level.orders[i].order_id
                &&& event.quantity <= level.orders[i].quantity
                &&& event.price == level.price
                &&& event.order_id == taker.order_id
                &&& event.user_id == taker.user_id
                &&& event.event_type != EventType::MarketPartialFill
            },
        forall|i: int|
            0 <= i < sweep_level(level, remaining, taker).events.len() - 1 ==> (
            #[trigger] sweep_level(level, remaining, taker).events[i]).quantity
                == level.orders[i].quantity,
    decreases level.orders.len(),
{
    if level.orders.len() > 0 {
        let head = level.orders[0];
        let traded = if remaining < head.quantity {
            remaining
        } else {
            head.quantity
        };
        let after = (remaining - traded) as nat;
        let events = sweep_level(level, remaining, taker).events;
        let tail = LevelView { price: level.price, orders: level.orders.drop_first() };
        assert(total_quantity(events) == events[0].quantity + total_quantity(
            events.drop_first(),
        ));
        if head.quantity > traded {
            assert(events.drop_first() =~= Seq::<EventView>::empty());
            assert(total_quantity(events.drop_first()) == 0);
        } else if after == 0 {
            assert(events.drop_first() =~= Seq::<EventView>::empty());
            assert(total_quantity(events.drop_first()) == 0);
        } else {
            let rest = sweep_level(tail, after, taker);
            lemma_time_priority(tail, after, taker);
            assert(events.drop_first() =~= rest.events);
            assert forall|i: int| 0 <= i < events.len() implies {
                let event = #[trigger] events[i];
                &&& event.matched_with == level.orders[i].order_id
                &&& event.quantity <= level.orders[i].quantity
                &&& event.price == level.price
                &&& event.order_id == taker.order_id
                &&& event.user_id == taker.user_id
                &&& event.event_type != EventType::MarketPartialFill
            } by {
                if i > 0 {
                    assert(events[i] == rest.events[i - 1]);
                    assert(tail.orders[i - 1] == level.orders[i]);
                }
            }
            assert forall|i: int| 0 <= i < events.len() - 1 implies (#[trigger] events[i]).quantity
                == level.orders[i].quantity by {
                if i > 0 {
                    assert(events[i] == rest.events[i - 1]);
                    assert(tail.orders[i - 1] == level.orders[i]);
                }
            }
        }
    }
}

/// Queue order within a level. What a sweep leaves of a level is the tail
/// of the level as it was: the orders that were not reached stay as they
/// were and in their order, and an order that was filled in part stays at
/// the head with what is left of it.
pub proof fn lemma_level_keeps_queue_order(level: LevelView, remaining: nat, taker: OrderView)
    ensures
        sweep_level(level, remaining, taker).left.orders.len() <= level.orders.len(),
        forall|m: int|
            0 <= m < sweep_level(level, remaining, taker).left.orders.len() ==> {
                let kept = #[trigger] sweep_level(level, remaining, taker).left.orders[m];
                let was = level.orders[level.orders.len() - sweep_level(
                    level,
                    remaining,
                    taker,
                ).left.orders.len() + m];
                &&& kept == was.with_quantity(kept.quantity)
                &&& kept.quantity <= was.quantity
                &&& m > 0 ==> kept == was
            },
    decreases level.orders.len(),
{
    if level.orders.len() > 0 {
        let head = level.orders[0];
        let traded = if remaining < head.quantity {
            remaining
        } else {
            head.quantity
        };
        let after = (remaining - traded) as nat;
        let tail = LevelView { price: level.price, orders: level.orders.drop_first() };
        if head.quantity > traded {
        } else if after == 0 {
        } else {
            lemma_level_keeps_queue_order(tail, after, taker);
            let left = sweep_level(level, remaining, taker).left;
            assert forall|m: int| 0 <= m < left.orders.len() implies {
                let kept = #[trigger] left.orders[m];
                let was = level.orders[level.orders.len() - left.orders.len() + m];
                &&& kept == was.with_quantity(kept.quantity)
                &&& kept.quantity <= was.quantity
                &&& m > 0 ==> kept == was
            } by {
                assert(tail.orders[tail.orders.len() - left.orders.len() + m]
                    == level.orders[level.orders.len() - left.orders.len() + m]);
            }
        }
    }
}

/// What the trades of an incoming order against a side hold is what the
/// order no longer wants.
pub proof fn lemma_sweep_side_conserves(
    levels: SideView,
    remaining: nat,
    taker: OrderView,
    side: OrderType,
    kind: OrderKind,
)
    ensures
        remaining == sweep_side(levels, remaining, taker, side, kind).remaining + total_quantity(
            sweep_side(levels, remaining, taker, side, kind).events,
        ),
    decreases levels.len(),
{
    if levels.len() == 0 || !crosses(side, kind, taker.price, levels[0].price) {
    } else {
        let first = sweep_level(levels[0], remaining, taker);
        lemma_time_priority(levels[0], remaining, taker);
        if first.left.orders.len() > 0 {
        } else if first.remaining == 0 {
        } else {
            let rest = sweep_side(levels.drop_first(), first.remaining, taker, side, kind);
            lemma_sweep_side_conserves(levels.drop_first(), first.remaining, taker, side, kind);
            lemma_total_of_both(first.events, rest.events);
        }
    }
}

/// Price priority. The trades of an incoming order against a side start at
/// the side's best price, and no later trade is at a better price than an
/// earlier one: a buy trades from the lowest ask up, a sell from the highest
/// bid down. Each trade is at a price that the order crosses, and none is a
/// closing signal. Where every resting order has an identifier, every trade
/// names one.
pub proof fn lemma_price_priority(
    levels: SideView,
    remaining: nat,
    taker: OrderView,
    side: OrderType,
    kind: OrderKind,
)
    requires
        side_wf(opposite(side), levels),
    ensures
        sweep_side(levels, remaining, taker, side, kind).events.len() > 0 ==> levels.len() > 0
            && sweep_side(levels, remaining, taker, side, kind).events[0].price
            == levels[0].price,
        forall|i: int|
            0 <= i < sweep_side(levels, remaining, taker, side, kind).events.len() ==> {
                let event = #[trigger] sweep_side(levels, remaining, taker, side, kind).events[i];
                &&& !ahead(opposite(side), event.price, levels[0].price)
                &&& crosses(side, kind, taker.price, event.price)
                &&& event.event_type != EventType::MarketPartialFill
                &&& ids_present(levels) ==> event.matched_with.len() > 0
            },
        forall|i: int, j: int|
            0 <= i < j < sweep_side(levels, remaining, taker, side, kind).events.len() ==> !ahead(
                opposite(side),
                (#[trigger] sweep_side(levels, remaining, taker, side, kind).events[j]).price,
                (#[trigger] sweep_side(levels, remaining, taker, side, kind).events[i]).price,
            ),
    decreases levels.len(),
{
    let there = opposite(side);
    if levels.len() == 0 || !crosses(side, kind, taker.price, levels[0].price) {
    } else {
        let first = sweep_level(levels[0], remaining, taker);
        let events = sweep_side(levels, remaining, taker, side, kind).events;
        lemma_time_priority(levels[0], remaining, taker);
        assert(level_wf(levels[0]));
        assert forall|i: int| 0 <= i < first.events.len() && ids_present(levels) implies (
        #[trigger] first.events[i]).matched_with.len() > 0 by {
            assert(levels[0].orders[i].order_id.len() > 0);
        }
        if first.left.orders.len() > 0 {
        } else if first.remaining == 0 {
        } else {
            let tail = levels.drop_first();
            let rest = sweep_side(tail, first.remaining, taker, side, kind);
            lemma_side_tail(there, levels);
            lemma_price_priority(tail, first.remaining, taker, side, kind);
            if tail.len() > 0 {
                assert(tail[0] == levels[1]);
                assert(ahead(there, levels[0].price, levels[1].price));
            }
            if ids_present(levels) {
                assert forall|i: int, k: int|
                    0 <= i < tail.len() && 0 <= k < tail[i].orders.len() implies (
                #[trigger] tail[i].orders[k]).order_id.len() > 0 by {
                    assert(tail[i] == levels[i + 1]);
                    assert(levels[i + 1].orders[k].order_id.len() > 0);
                }
            }
            assert forall|i: int| 0 <= i < events.len() implies {
                let event = #[trigger] events[i];
                &&& !ahead(there, event.price, levels[0].price)
                &&& crosses(side, kind, taker.price, event.price)
                &&& event.event_type != EventType::MarketPartialFill
                &&& ids_present(levels) ==> event.matched_with.len() > 0
            } by {
                if i < first.events.len() {
                    assert(events[i] == first.events[i]);
                } else {
                    assert(events[i] == rest.events[i - first.events.len()]);
                }
            }
            assert forall|i: int, j: int| 0 <= i < j < events.len() implies !ahead(
                there,
                (#[trigger] events[j]).price,
                (#[trigger] events[i]).price,
            ) by {
                if j < first.events.len() {
                    assert(events[i] == first.events[i]);
                    assert(events[j] == first.events[j]);
                } else if i < first.events.len() {
                    assert(events[i] == first.events[i]);
                    assert(events[j] == rest.events[j - first.events.len()]);
                } else {
                    assert(events[i] == rest.events[i - first.events.len()]);
                    assert(events[j] == rest.events[j - first.events.len()]);
                }
            }
        }
    }
}

/// Conservation. The quantity of an order is what its events hold together
/// with what is left of it after the trades, which then rests or is dropped.
pub proof fn lemma_conservation(book: BookView, order: OrderView, side: OrderType, kind: OrderKind)
    ensures
        order.quantity == total_quantity(match_as(book, order, side, kind).events) + residual(
            book,
            order,
            side,
            kind,
        ),
{
    let swept = sweep_side(book.side(opposite(side)), order.quantity, order, side, kind);
    lemma_sweep_side_conserves(book.side(opposite(side)), order.quantity, order, side, kind);
    if swept.remaining > 0 && kind == OrderKind::Market {
        let signal = seq![unfilled_event(order)];
        assert(swept.events.push(unfilled_event(order)) =~= swept.events + signal);
        lemma_total_of_both(swept.events, signal);
        assert(signal.drop_first() =~= Seq::<EventView>::empty());
        assert(total_quantity(signal.drop_first()) == 0);
        assert(total_quantity(signal) == signal[0].quantity + total_quantity(
            signal.drop_first(),
        ));
    }
}

/// Conservation over the trades alone. In a book in order whose resting
/// orders all have an identifier, the quantity of an order is what the
/// events that name a resting order hold, together with what is left of it.
pub proof fn lemma_conservation_of_trades(
    book: BookView,
    order: OrderView,
    side: OrderType,
    kind: OrderKind,
)
    requires
        book.wf(),
        ids_present(book.side(opposite(side))),
    ensures
        order.quantity == traded_quantity(match_as(book, order, side, kind).events) + residual(
            book,
            order,
            side,
            kind,
        ),
{
    let there = book.side(opposite(side));
    let swept = sweep_side(there, order.quantity, order, side, kind);
    let events = match_as(book, order, side, kind).events;
    lemma_conservation(book, order, side, kind);
    lemma_price_priority(there, order.quantity, order, side, kind);
    assert forall|i: int| 0 <= i < events.len() implies (#[trigger] events[i]).matched_with.len()
        > 0 || events[i].quantity == 0 by {
        if i < swept.events.len() {
            assert(events[i] == swept.events[i]);
        }
    }
    lemma_traded_is_total(events);
}

/// Where a level of the side has the price, the orders at that price are
/// the orders of that level.
proof fn lemma_orders_from(side: OrderType, levels: SideView, price: nat, from: int, at: int)
    requires
        side_wf(side, levels),
        0 <= from <= at < levels.len(),
        levels[at].price == price,
    ensures
        orders_from(levels, price, from) == levels[at].orders,
    decreases at - from,
{
    if from < at {
        assert(ahead(side, levels[from].price, levels[at].price));
        lemma_orders_from(side, levels, price, from + 1, at);
    }
}

/// Residual rules. Where the trades leave something of the incoming order:
/// a limit order rests with what is left, as the youngest order at its own
/// price on its own side; a market order leaves its own side as it was,
/// and its events end with the one closing signal, of quantity zero, after
/// the trades. Where nothing is left, the own side stays as it was and the
/// events are the trades.
pub proof fn lemma_residual_rules(book: BookView, order: OrderView, side: OrderType, kind: OrderKind)
    requires
        book.wf(),
    ensures
        ({
            let out = match_as(book, order, side, kind);
            let left = residual(book, order, side, kind);
            let trades = sweep_side(book.side(opposite(side)), order.quantity, order, side, kind);
            &&& out.book.side(opposite(side)) == trades.left
            &&& forall|i: int|
                0 <= i < trades.events.len() ==> out.events[i] == trades.events[i]
                    && out.events[i].event_type != EventType::MarketPartialFill
            &&& left > 0 && kind == OrderKind::Limit ==> {
                &&& out.events == trades.events
                &&& out.book.orders_at(side, order.price).len() > 0
                &&& out.book.orders_at(side, order.price).last() == order.with_quantity(left)
                &&& out.book.orders_at(side, order.price).drop_last() == book.orders_at(
                    side,
                    order.price,
                )
            }
            &&& left > 0 && kind == OrderKind::Market ==> {
                &&& out.book.side(side) == book.side(side)
                &&& out.events.len() == trades.events.len() + 1
                &&& out.events.last() == unfilled_event(order)
                &&& out.events.last().event_type == EventType::MarketPartialFill
                &&& out.events.last().quantity == 0
            }
            &&& left == 0 ==> out.book.side(side) == book.side(side) && out.events
                == trades.events
        }),
{
    let out = match_as(book, order, side, kind);
    let left = residual(book, order, side, kind);
    let here = book.side(side);
    let trades = sweep_side(book.side(opposite(side)), order.quantity, order, side, kind);
    lemma_price_priority(book.side(opposite(side)), order.quantity, order, side, kind);
    if left > 0 && kind == OrderKind::Limit {
        let rested = order.with_quantity(left);
        let at = rest_index(side, here, order.price, 0);
        lemma_rest_index(side, here, order.price, 0);
        lemma_rest_keeps_order(side, here, rested);
        let after = rest(side, here, rested);
        assert(out.book.side(side) == after);
        lemma_orders_from(side, after, order.price, 0, at);
        if 0 <= at < here.len() && here[at].price == order.price {
            lemma_orders_from(side, here, order.price, 0, at);
            assert(after[at].orders.drop_last() =~= here[at].orders);
        } else {
            lemma_no_orders_from(side, here, order.price, 0, at);
            assert(after[at].orders.drop_last() =~= Seq::<OrderView>::empty());
        }
    }
}

/// Where the place of a price on a side holds no level of that price, no
/// order rests at the price.
proof fn lemma_no_orders_from(side: OrderType, levels: SideView, price: nat, from: int, at: int)
    requires
        side_wf(side, levels),
        0 <= from <= levels.len(),
        at == rest_index(side, levels, price, 0),
        0 <= at <= levels.len(),
        forall|j: int| 0 <= j < at ==> ahead(side, (#[trigger] levels[j]).price, price),
        at < levels.len() ==> !ahead(side, levels[at].price, price) && levels[at].price != price,
    ensures
        orders_from(levels, price, from) == Seq::<OrderView>::empty(),
    decreases levels.len() - from,
{
    if from < levels.len() {
        if from < at {
            assert(ahead(side, levels[from].price, price));
        } else if from > at {
            assert(ahead(side, levels[at].price, levels[from].price));
        }
        lemma_no_orders_from(side, levels, price, from + 1, at);
    }
}

/// An order that is left in a level after a sweep was in the level before.
proof fn lemma_sweep_level_ids(level: LevelView, remaining: nat, taker: OrderView, id: Seq<char>)
    requires
        level_holds(sweep_level(level, remaining, taker).left, id),
    ensures
        level_holds(level, id),
    decreases level.orders.len(),
{
    if level.orders.len() > 0 {
        let head = level.orders[0];
        let traded = if remaining < head.quantity {
            remaining
        } else {
            head.quantity
        };
        let after = (remaining - traded) as nat;
        let left = sweep_level(level, remaining, taker).left;
        let tail = LevelView { price: level.price, orders: level.orders.drop_first() };
        let k = choose|k: int| 0 <= k < left.orders.len() && (#[trigger] left.orders[k]).order_id
            == id;
        if head.quantity > traded {
            assert(level.orders[k].order_id == id);
        } else if after == 0 {
            assert(level.orders[k + 1].order_id == id);
        } else {
            lemma_sweep_level_ids(tail, after, taker, id);
            let j = choose|j: int| 0 <= j < tail.orders.len() && (#[trigger] tail.orders[j]).order_id
                == id;
            assert(level.orders[j + 1].order_id == id);
        }
    }
}

/// An order that is left on a side after a sweep was on the side before.
proof fn lemma_sweep_side_ids(
    levels: SideView,
    remaining: nat,
    taker: OrderView,
    side: OrderType,
    kind: OrderKind,
    id: Seq<char>,
)
    requires
        side_holds(sweep_side(levels, remaining, taker, side, kind).left, id),
    ensures
        side_holds(levels, id),
    decreases levels.len(),
{
    if levels.len() == 0 || !crosses(side, kind, taker.price, levels[0].price) {
    } else {
        let first = sweep_level(levels[0], remaining, taker);
        let left = sweep_side(levels, remaining, taker, side, kind).left;
        let i = choose|i: int| 0 <= i < left.len() && level_holds(#[trigger] left[i], id);
        if first.left.orders.len() > 0 {
            if i == 0 {
                lemma_sweep_level_ids(levels[0], remaining, taker, id);
                assert(level_holds(levels[0], id));
            } else {
                assert(level_holds(levels[i], id));
            }
        } else if first.remaining == 0 {
            assert(level_holds(levels[i + 1], id));
        } else {
            let tail = levels.drop_first();
            lemma_sweep_side_ids(tail, first.remaining, taker, side, kind, id);
            let j = choose|j: int| 0 <= j < tail.len() && level_holds(#[trigger] tail[j], id);
            assert(level_holds(levels[j + 1], id));
        }
    }
}

/// An order on a side on which `order` came to rest is `order` or was on
/// the side before.
proof fn lemma_rest_ids(side: OrderType, levels: SideView, order: OrderView, id: Seq<char>)
    requires
        side_holds(rest(side, levels, order), id),
    ensures
        side_holds(levels, id) || id == order.order_id,
{
    let at = rest_index(side, levels, order.price, 0);
    lemma_rest_index(side, levels, order.price, 0);
    let after = rest(side, levels, order);
    let i = choose|i: int| 0 <= i < after.len() && level_holds(#[trigger] after[i], id);
    let k = choose|k: int| 0 <= k < after[i].orders.len() && (#[trigger] after[i].orders[k]).order_id
        == id;
    if 0 <= at < levels.len() && levels[at].price == order.price {
        if i == at {
            if k < levels[at].orders.len() {
                assert(levels[at].orders[k].order_id == id);
                assert(level_holds(levels[at], id));
            }
        } else {
            assert(level_holds(levels[i], id));
        }
    } else {
        if i < at {
            assert(level_holds(levels[i], id));
        } else if i > at {
            assert(level_holds(levels[i - 1], id));
        }
    }
}

/// Bids and asks share no order. Where no identifier is that of a resting
/// bid and of a resting ask, and the incoming order's identifier is not that
/// of an order it may trade against, no identifier is shared after the
/// order has been matched.
pub proof fn lemma_sides_stay_disjoint(
    book: BookView,
    order: OrderView,
    side: OrderType,
    kind: OrderKind,
)
    requires
        book.sides_disjoint(),
        !side_holds(book.side(opposite(side)), order.order_id),
    ensures
        match_as(book, order, side, kind).book.sides_disjoint(),
{
    let out = match_as(book, order, side, kind).book;
    let there = opposite(side);
    let swept = sweep_side(book.side(there), order.quantity, order, side, kind);
    assert forall|id: Seq<char>| !(#[trigger] side_holds(out.bids, id) && side_holds(
        out.asks,
        id,
    )) by {
        if side_holds(out.bids, id) && side_holds(out.asks, id) {
            assert(out.side(there) == swept.left);
            lemma_sweep_side_ids(book.side(there), order.quantity, order, side, kind, id);
            if swept.remaining > 0 && kind == OrderKind::Limit {
                lemma_rest_ids(side, book.side(side), order.with_quantity(swept.remaining), id);
            }
            assert(side_holds(book.bids, id) && side_holds(book.asks, id));
        }
    }
}

} // verus!
