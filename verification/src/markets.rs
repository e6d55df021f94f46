//! The books of all markets, one per market, made when a market is first
//! named.

use dashmap::DashMap;
use vstd::prelude::*;
use crate::types::{EnrichedOrderRequest, MatchEvent, events_view, market_name};
use crate::model::{BookView, LevelView};
use crate::model;
use crate::orderbook::OrderBook;

verus! {

/// The concurrent map of the `dashmap` crate. Nothing inside it is visible
/// to the proofs; what it holds is spoken of through names. The library
/// changes such a map only through `&mut`, so that no reference into the
/// map is held while it changes: the one case in which a call on it may
/// not return.
#[verifier::external_type_specification]
#[verifier::external_body]
#[verifier::reject_recursive_types(K)]
#[verifier::reject_recursive_types(V)]
#[verifier::reject_recursive_types(S)]
pub struct ExDashMap<K, V, S>(DashMap<K, V, S>);

/// What a map of books holds: for each market name in it, the value of the
/// book stored under that name. The name has no definition; the contracts
/// of the three functions below say all that is known of it.
pub uninterp spec fn books_of(books: DashMap<String, OrderBook>) -> Map<Seq<char>, BookView>;

/// No market has a book.
pub open spec fn no_books() -> Map<Seq<char>, BookView> {
    Map::empty()
}

/// `DashMap::new`: the map it returns holds nothing. Believed, not proved.
#[verifier::external_body]
fn books_new() -> (made: DashMap<String, OrderBook>)
    ensures
        books_of(made) == no_books(),
{
    DashMap::new()
}

/// `DashMap::remove`: the entry under `market` leaves the map and its book is
/// returned; where there is none, nothing is returned. Other entries stay.
/// Believed, not proved.
#[verifier::external_body]
fn books_remove(books: &mut DashMap<String, OrderBook>, market: &str) -> (book: Option<OrderBook>)
    ensures
        books_of(*final(books)) == books_of(*old(books)).remove(market@),
        match book {
            Some(found) => books_of(*old(books)).contains_key(market@) && found@ == books_of(
                *old(books),
            )[market@],
            None => !books_of(*old(books)).contains_key(market@),
        },
{
    books.remove(market).map(|entry| entry.1)
}

/// `DashMap::insert`: afterwards the map holds `book` under `market`, in
/// place of what was there; other entries stay. Believed, not proved.
#[verifier::external_body]
fn books_insert(books: &mut DashMap<String, OrderBook>, market: &str, book: OrderBook)
    ensures
        books_of(*final(books)) == books_of(*old(books)).insert(market@, book@),
{
    books.insert(market.to_string(), book);
}

/// The value of a book in which nothing rests.
pub open spec fn empty_book() -> BookView {
    BookView { bids: Seq::<LevelView>::empty(), asks: Seq::<LevelView>::empty() }
}

/// The book that `books` has for `market`: the one stored under the name,
/// or an empty one where the market was never named.
pub open spec fn book_for(books: Map<Seq<char>, BookView>, market: Seq<char>) -> BookView {
    if books.contains_key(market) {
        books[market]
    } else {
        empty_book()
    }
}

/// The order books of the markets, by market name.
pub struct OrderBookMap {
    books: DashMap<String, OrderBook>,
}

impl View for OrderBookMap {
    type V = Map<Seq<char>, BookView>;

    closed spec fn view(&self) -> Map<Seq<char>, BookView> {
        books_of(self.books)
    }
}

impl OrderBookMap {
    /// Every book in the map is in order.
    pub open spec fn wf(&self) -> bool {
        forall|market: Seq<char>| #[trigger] self@.contains_key(market) ==> self@[market].wf()
    }

    /// A map without books.
    pub fn new() -> (all: OrderBookMap)
        ensures
            all@ == no_books(),
            all.wf(),
    {
        OrderBookMap { books: books_new() }
    }

    /// Hands out the book of `market` for exclusive use, a new empty one on
    /// first use. The map is without that book until it is put back.
    pub fn get_or_create(&mut self, market: &str) -> (book: OrderBook)
        ensures
            book@ == book_for(old(self)@, market@),
            final(self)@ == old(self)@.remove(market@),
            book.wf(),
            old(self).wf() ==> final(self).wf(),
    {
        let found = books_remove(&mut self.books, market);
        proof {
            if old(self).wf() {
                assert forall|name: Seq<char>| #[trigger]
                    self@.contains_key(name) implies self@[name].wf() by {
                    assert(old(self)@.contains_key(name));
                }
                if old(self)@.contains_key(market@) {
                    assert(old(self)@[market@].wf());
                }
            }
        }
        let book = match found {
            Some(book) => book,
            None => OrderBook::new(),
        };
        book.in_order_always();
        book
    }

    /// Stores `book` as the book of `market`.
    pub fn put_back(&mut self, market: &str, book: OrderBook)
        ensures
            final(self)@ == old(self)@.insert(market@, book@),
            old(self).wf() ==> final(self).wf(),
    {
        book.in_order_always();
        books_insert(&mut self.books, market, book);
        proof {
            if old(self).wf() {
                assert forall|name: Seq<char>| #[trigger]
                    self@.contains_key(name) implies self@[name].wf() by {
                    if name != market@ {
                        assert(old(self)@.contains_key(name));
                    }
                }
            }
        }
    }

    /// Matches `order` against the book of `market`, which is made on first
    /// use, and returns the events in the order they were made. No other
    /// book changes.
    pub fn match_order(&mut self, market: &str, order: EnrichedOrderRequest) -> (events: Vec<
        MatchEvent,
    >)
        ensures
            final(self)@ == old(self)@.insert(
                market@,
                model::match_order(book_for(old(self)@, market@), order@).book,
            ),
            events_view(events@) == model::match_order(
                book_for(old(self)@, market@),
                order@,
            ).events,
            old(self).wf() ==> final(self).wf(),
    {
        let mut book = self.get_or_create(market);
        let events = book.match_order(order);
        self.put_back(market, book);
        proof {
            assert(old(self)@.remove(market@).insert(market@, book@) =~= old(self)@.insert(
                market@,
                book@,
            ));
        }
        events
    }

    /// One step of the engine: matches `order` against the book of the
    /// market that it names, which is made on first use, and returns the
    /// events in the order in which they are to be published.
    pub fn dispatch(&mut self, order: EnrichedOrderRequest) -> (events: Vec<MatchEvent>)
        ensures
            final(self)@ == old(self)@.insert(
                market_name(order.market),
                model::match_order(book_for(old(self)@, market_name(order.market)), order@).book,
            ),
            events_view(events@) == model::match_order(
                book_for(old(self)@, market_name(order.market)),
                order@,
            ).events,
            old(self).wf() ==> final(self).wf(),
    {
        let market = order.market.name();
        self.match_order(market, order)
    }
}

} // verus!
