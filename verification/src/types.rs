//! The wire-level vocabulary shared by the engine and the broadcaster:
//! orders, match events and the small enumerations they are built from.

use vstd::prelude::*;

verus! {

/// How an order is priced.
#[derive(Debug, Clone, Copy, PartialEq, Eq, Structural, PartialOrd, Ord)]
pub enum OrderKind {
    Limit,
    Market,
}

/// The side of the book an order is on.
#[derive(Debug, Clone, Copy, PartialEq, Eq, Structural, PartialOrd, Ord)]
pub enum OrderType {
    Buy,
    Sell,
}

/// The tradable pairs; the set is fixed when the crate is built.
#[allow(non_camel_case_types)]
#[derive(Debug, Clone, Copy, PartialEq, Eq, Structural, Hash)]
pub enum MarketType {
    TATA_INR,
    JIO_INR,
}

/// The name under which a market goes on the wire.
pub open spec fn market_name(market: MarketType) -> Seq<char> {
    match market {
        MarketType::TATA_INR => "TATA_INR"@,
        MarketType::JIO_INR => "JIO_INR"@,
    }
}

/// The market that goes by `name` on the wire, if there is one.
pub open spec fn market_named(name: Seq<char>) -> Option<MarketType> {
    if name == "TATA_INR"@ {
        Some(MarketType::TATA_INR)
    } else if name == "JIO_INR"@ {
        Some(MarketType::JIO_INR)
    } else {
        None
    }
}

/// Every market is found again by its name.
pub proof fn lemma_market_names(market: MarketType)
    ensures
        market_named(market_name(market)) == Some(market),
{
    reveal_strlit("TATA_INR");
    reveal_strlit("JIO_INR");
    assert("TATA_INR"@.len() != "JIO_INR"@.len());
}

/// Whether two texts are the same.
pub(crate) fn same_text(a: &str, b: &str) -> (same: bool)
    ensures
        same == (a@ == b@),
{
    a.to_owned() == b.to_owned()
}

impl MarketType {
    /// The name under which the market goes on the wire.
    pub fn name(&self) -> (name: &'static str)
        ensures
            name@ == market_name(*self),
    {
        match self {
            MarketType::TATA_INR => "TATA_INR",
            MarketType::JIO_INR => "JIO_INR",
        }
    }

    /// The market that goes by `name` on the wire, if there is one.
    pub fn named(name: &str) -> (market: Option<MarketType>)
        ensures
            market == market_named(name@),
    {
        if same_text(name, "TATA_INR") {
            Some(MarketType::TATA_INR)
        } else if same_text(name, "JIO_INR") {
            Some(MarketType::JIO_INR)
        } else {
            None
        }
    }
}

/// What a match event reports, seen from the incoming order.
#[derive(Debug, Clone, Copy, PartialEq, Eq, Structural)]
pub enum EventType {
    /// The incoming order has nothing left after this trade.
    FullFill,
    /// The incoming order still has quantity left after this trade.
    PartialFill,
    /// A market order ran out of liquidity; the rest is dropped.
    MarketPartialFill,
}

/// A command that a client session may send.
#[derive(Debug, Clone, Copy, PartialEq, Eq, Structural)]
pub enum IncomingMarketType {
    SubscribeOrderbook(MarketType),
}

/// A price as an unsigned key: a larger key is a higher price, and key 0 is
/// the price zero.
#[derive(Debug, Clone, Copy, PartialEq, Eq, Structural, PartialOrd, Ord, Hash)]
pub struct Price(pub u64);

impl Price {
    /// The key of a price.
    pub fn from(key: u64) -> (p: Price)
        ensures
            p.0 == key,
    {
        Price(key)
    }
}

/// An order as the engine admits it: the client's request together with the
/// identity of the user and the identifier that the server gave the order.
#[derive(Debug, Clone, PartialEq, Eq)]
pub struct EnrichedOrderRequest {
    pub user_id: String,
    pub order_id: String,
    pub kind: OrderKind,
    pub order_type: OrderType,
    /// The limit price; carried but not read for a market order.
    pub price: u64,
    pub quantity: u64,
    pub market: MarketType,
}

/// The mathematical value of an order.
pub struct OrderView {
    pub user_id: Seq<char>,
    pub order_id: Seq<char>,
    pub kind: OrderKind,
    pub order_type: OrderType,
    pub price: nat,
    pub quantity: nat,
    pub market: MarketType,
}

impl View for EnrichedOrderRequest {
    type V = OrderView;

    open spec fn view(&self) -> OrderView {
        OrderView {
            user_id: self.user_id@,
            order_id: self.order_id@,
            kind: self.kind,
            order_type: self.order_type,
            price: self.price as nat,
            quantity: self.quantity as nat,
            market: self.market,
        }
    }
}

impl OrderView {
    /// The same order with another open quantity.
    pub open spec fn with_quantity(self, quantity: nat) -> OrderView {
        OrderView { quantity, ..self }
    }
}

impl EnrichedOrderRequest {
    /// A copy of the order.
    pub fn duplicate(&self) -> (copy: EnrichedOrderRequest)
        ensures
            copy@ == self@,
    {
        self.with_quantity(self.quantity)
    }

    /// A copy of the order that holds `quantity` in place of its own.
    pub fn with_quantity(&self, quantity: u64) -> (copy: EnrichedOrderRequest)
        ensures
            copy@ == self@.with_quantity(quantity as nat),
    {
        EnrichedOrderRequest {
            user_id: self.user_id.clone(),
            order_id: self.order_id.clone(),
            kind: self.kind,
            order_type: self.order_type,
            price: self.price,
            quantity,
            market: self.market,
        }
    }
}

/// One trade of the incoming order against a resting one, or the closing
/// signal of a market order that could not be filled entirely.
#[derive(Debug, Clone, PartialEq, Eq)]
pub struct MatchEvent {
    /// The incoming order.
    pub order_id: String,
    /// The user who sent the incoming order.
    pub user_id: String,
    /// The resting order that was hit; empty in the closing signal.
    pub matched_with: String,
    pub quantity: u64,
    pub price: u64,
    pub order_kind: OrderKind,
    pub market: MarketType,
    pub event_type: EventType,
}

/// The mathematical value of a match event.
pub struct EventView {
    pub order_id: Seq<char>,
    pub user_id: Seq<char>,
    pub matched_with: Seq<char>,
    pub quantity: nat,
    pub price: nat,
    pub order_kind: OrderKind,
    pub market: MarketType,
    pub event_type: EventType,
}

impl View for MatchEvent {
    type V = EventView;

    open spec fn view(&self) -> EventView {
        EventView {
            order_id: self.order_id@,
            user_id: self.user_id@,
            matched_with: self.matched_with@,
            quantity: self.quantity as nat,
            price: self.price as nat,
            order_kind: self.order_kind,
            market: self.market,
            event_type: self.event_type,
        }
    }
}

/// The values of a list of events, in order.
pub open spec fn events_view(events: Seq<MatchEvent>) -> Seq<EventView> {
    Seq::new(events.len(), |i: int| events[i]@)
}

/// The values of a list of orders, in order.
pub open spec fn orders_view(orders: Seq<EnrichedOrderRequest>) -> Seq<OrderView> {
    Seq::new(orders.len(), |i: int| orders[i]@)
}

} // verus!
