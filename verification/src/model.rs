//! The mathematical model of the matching engine.
//!
//! One side of a book is a map from price to the queue of orders resting at
//! that price, oldest first. A book is a pair of sides, an engine is one book
//! per card. The functions here say what matching and resting do to that
//! model; the executable engine is specified against them.

use vstd::prelude::*;
use crate::card::NUM_CARDS;

verus! {

/// The side of an order.
#[derive(Debug, Clone, Copy, PartialEq, Eq, Structural)]
pub enum Action {
    Buy,
    Sell,
}

/// An order that is offered to the engine or rests in a book.
#[derive(Debug, Clone, Copy, PartialEq, Eq, Structural)]
pub struct PendingOrder {
    pub id: i64,
    pub side: Action,
    /// Price in cents: 100 stands for 1.00.
    pub price: i32,
    pub card_id: i32,
}

/// A match: the two orders that traded, and the terms of the order that was
/// resting.
#[derive(Debug, Clone, Copy, PartialEq, Eq, Structural)]
pub struct FilledOrder {
    pub buy_order: i64,
    pub sell_order: i64,
    pub price: i32,
    pub card_id: i32,
    /// The id of the order that was resting.
    pub first_order_id: i64,
}

/// One side of a book: the non-empty queues of resting orders, by price.
pub type Side = Map<i32, Seq<PendingOrder>>;

/// Both sides of the book of one card.
pub struct Book {
    pub bids: Side,
    pub asks: Side,
}

/// The book in which nothing rests.
pub open spec fn empty_book() -> Book {
    Book { bids: Map::empty(), asks: Map::empty() }
}

/// The queue at `price`, empty where the side has none.
pub open spec fn bucket(side: Side, price: i32) -> Seq<PendingOrder> {
    if side.contains_key(price) {
        side[price]
    } else {
        Seq::empty()
    }
}

/// Every queue of the side holds at least one order.
pub open spec fn side_wf(side: Side) -> bool {
    &&& side.dom().finite()
    &&& forall|p: i32| #[trigger] side.contains_key(p) ==> side[p].len() > 0
}

/// Every order of the side rests in the queue of its own price and is an
/// order of `tag`.
pub open spec fn side_keeps(side: Side, tag: Action) -> bool {
    forall|p: i32, i: int|
        #![trigger side[p][i]]
        side.contains_key(p) && 0 <= i < side[p].len() ==> side[p][i].price == p
            && side[p][i].side == tag
}

/// No queue of the book is empty, every order rests at its own price, the
/// bids are buys and the asks are sells.
pub open spec fn book_wf(book: Book) -> bool {
    &&& side_wf(book.bids)
    &&& side_wf(book.asks)
    &&& side_keeps(book.bids, Action::Buy)
    &&& side_keeps(book.asks, Action::Sell)
}

/// The side against which orders of `side` match.
pub open spec fn far_side(side: Action) -> Action {
    match side {
        Action::Buy => Action::Sell,
        Action::Sell => Action::Buy,
    }
}

/// `price` is the smallest price at which the side holds orders.
pub open spec fn is_lowest(side: Side, price: i32) -> bool {
    &&& side.contains_key(price)
    &&& forall|q: i32| #[trigger] side.contains_key(q) ==> price <= q
}

/// `price` is the largest price at which the side holds orders.
pub open spec fn is_highest(side: Side, price: i32) -> bool {
    &&& side.contains_key(price)
    &&& forall|q: i32| #[trigger] side.contains_key(q) ==> q <= price
}

/// The side with `order` appended to the queue at its price.
pub open spec fn rest_on(side: Side, order: PendingOrder) -> Side {
    side.insert(order.price, bucket(side, order.price).push(order))
}

/// The side without the oldest order at `price`; a queue that this empties
/// leaves the side.
pub open spec fn take_front(side: Side, price: i32) -> Side {
    if side[price].len() <= 1 {
        side.remove(price)
    } else {
        side.insert(price, side[price].drop_first())
    }
}

/// `price` is the best price on the opposite side and `order` reaches it.
pub open spec fn crosses_at(book: Book, order: PendingOrder, price: i32) -> bool {
    match order.side {
        Action::Buy => is_lowest(book.asks, price) && order.price >= price,
        Action::Sell => is_highest(book.bids, price) && order.price <= price,
    }
}

/// The price at which `order` matches, if it matches.
pub open spec fn crossing_price(book: Book, order: PendingOrder) -> Option<i32> {
    if exists|p: i32| crosses_at(book, order, p) {
        Some(choose|p: i32| crosses_at(book, order, p))
    } else {
        None
    }
}

/// The resting order that `order` matches: the oldest order at the best
/// price of the opposite side, provided `order` reaches that price.
pub open spec fn matched_order(book: Book, order: PendingOrder) -> Option<PendingOrder> {
    match crossing_price(book, order) {
        Some(p) => Some(
            match order.side {
                Action::Buy => book.asks[p][0],
                Action::Sell => book.bids[p][0],
            },
        ),
        None => None,
    }
}

/// The book after an attempt to match `order`: the matched order, if any,
/// has left; `order` itself is never inserted.
pub open spec fn after_match(book: Book, order: PendingOrder) -> Book {
    match crossing_price(book, order) {
        Some(p) => match order.side {
            Action::Buy => Book { bids: book.bids, asks: take_front(book.asks, p) },
            Action::Sell => Book { bids: take_front(book.bids, p), asks: book.asks },
        },
        None => book,
    }
}

/// The book after `order` was put to rest on its own side.
pub open spec fn after_rest(book: Book, order: PendingOrder) -> Book {
    match order.side {
        Action::Buy => Book { bids: rest_on(book.bids, order), asks: book.asks },
        Action::Sell => Book { bids: book.bids, asks: rest_on(book.asks, order) },
    }
}

/// The book after `order` was submitted: it matches one resting order, or
/// else comes to rest.
pub open spec fn after_submit(book: Book, order: PendingOrder) -> Book {
    if crossing_price(book, order) is Some {
        after_match(book, order)
    } else {
        after_rest(book, order)
    }
}

/// The side built by putting `orders` to rest one after another.
pub open spec fn rest_all(orders: Seq<PendingOrder>) -> Side
    decreases orders.len(),
{
    if orders.len() == 0 {
        Map::empty()
    } else {
        rest_on(rest_all(orders.drop_last()), orders.last())
    }
}

/// The match of `resting` with an incoming order of id `incoming_id`: the
/// trade is made on the resting order's terms.
pub open spec fn fill_of(resting: PendingOrder, incoming_id: i64) -> FilledOrder {
    FilledOrder {
        buy_order: match resting.side {
            Action::Buy => resting.id,
            Action::Sell => incoming_id,
        },
        sell_order: match resting.side {
            Action::Buy => incoming_id,
            Action::Sell => resting.id,
        },
        price: resting.price,
        card_id: resting.card_id,
        first_order_id: resting.id,
    }
}

/// The books of an engine in which nothing rests: one per card.
pub open spec fn fresh_books() -> Seq<Book> {
    Seq::new(NUM_CARDS as nat, |c: int| empty_book())
}

/// There is one well-formed book per card.
pub open spec fn books_wf(books: Seq<Book>) -> bool {
    &&& books.len() == NUM_CARDS
    &&& forall|c: int| 0 <= c < books.len() ==> book_wf(#[trigger] books[c])
}

/// The books after `order` was submitted: only the book of its card
/// changes.
pub open spec fn submit_books(books: Seq<Book>, order: PendingOrder) -> Seq<Book> {
    books.update(order.card_id as int, after_submit(books[order.card_id as int], order))
}

/// What the submission of `order` reports: the match, if there is one.
pub open spec fn submit_outcome(books: Seq<Book>, order: PendingOrder) -> Option<FilledOrder> {
    match matched_order(books[order.card_id as int], order) {
        Some(resting) => Some(fill_of(resting, order.id)),
        None => None,
    }
}

/// At most one price is the lowest of a side.
pub proof fn lemma_lowest_unique(side: Side, p: i32, q: i32)
    requires
        is_lowest(side, p),
        is_lowest(side, q),
    ensures
        p == q,
{
}

/// At most one price is the highest of a side.
pub proof fn lemma_highest_unique(side: Side, p: i32, q: i32)
    requires
        is_highest(side, p),
        is_highest(side, q),
    ensures
        p == q,
{
}

/// Where `order` crosses at `price`, that is its crossing price.
pub proof fn lemma_crossing_price_is(book: Book, order: PendingOrder, price: i32)
    requires
        crosses_at(book, order, price),
    ensures
        crossing_price(book, order) == Some(price),
{
    let p = choose|p: i32| crosses_at(book, order, p);
    match order.side {
        Action::Buy => lemma_lowest_unique(book.asks, p, price),
        Action::Sell => lemma_highest_unique(book.bids, p, price),
    }
}

/// Resting an order on its own side keeps the side well formed.
pub proof fn lemma_rest_keeps_side(side: Side, order: PendingOrder)
    requires
        side_wf(side),
        side_keeps(side, order.side),
    ensures
        side_wf(rest_on(side, order)),
        side_keeps(rest_on(side, order), order.side),
{
    let after = rest_on(side, order);
    assert forall|p: i32, i: int|
        #![trigger after[p][i]]
        after.contains_key(p) && 0 <= i < after[p].len() implies after[p][i].price == p
        && after[p][i].side == order.side by {
        if p != order.price {
            assert(after[p][i] == side[p][i]);
        } else if i < bucket(side, p).len() {
            assert(after[p][i] == side[p][i]);
        }
    }
}

/// Taking the oldest order at a price keeps the side well formed.
pub proof fn lemma_take_keeps_side(side: Side, price: i32, tag: Action)
    requires
        side_wf(side),
        side_keeps(side, tag),
        side.contains_key(price),
    ensures
        side_wf(take_front(side, price)),
        side_keeps(take_front(side, price), tag),
{
    let after = take_front(side, price);
    assert forall|p: i32, i: int|
        #![trigger after[p][i]]
        after.contains_key(p) && 0 <= i < after[p].len() implies after[p][i].price == p
        && after[p][i].side == tag by {
        if p != price {
            assert(after[p][i] == side[p][i]);
        } else {
            assert(after[p][i] == side[p][i + 1]);
        }
    }
}

/// A submission keeps a book well formed.
pub proof fn lemma_submit_keeps_wf(book: Book, order: PendingOrder)
    requires
        book_wf(book),
    ensures
        book_wf(after_submit(book, order)),
        book_wf(after_match(book, order)),
        book_wf(after_rest(book, order)),
{
    match crossing_price(book, order) {
        Some(p) => {
            assert(crosses_at(book, order, p));
            match order.side {
                Action::Buy => lemma_take_keeps_side(book.asks, p, Action::Sell),
                Action::Sell => lemma_take_keeps_side(book.bids, p, Action::Buy),
            }
        },
        None => {},
    }
    match order.side {
        Action::Buy => lemma_rest_keeps_side(book.bids, order),
        Action::Sell => lemma_rest_keeps_side(book.asks, order),
    }
}

/// The terms of a match: the resting order is of the opposite side, rests
/// at the best price of that side, and the incoming order reaches that
/// price. The trade is made at the resting order's price, between the two
/// orders, on the card of the resting order.
pub proof fn lemma_match_terms(book: Book, order: PendingOrder)
    requires
        book_wf(book),
    ensures
        match matched_order(book, order) {
            Some(resting) => {
                &&& resting.side == far_side(order.side)
                &&& crosses_at(book, order, resting.price)
                &&& fill_of(resting, order.id).price == resting.price
                &&& fill_of(resting, order.id).first_order_id == resting.id
                &&& order.side == Action::Buy ==> {
                    &&& resting.price <= order.price
                    &&& fill_of(resting, order.id).buy_order == order.id
                    &&& fill_of(resting, order.id).sell_order == resting.id
                }
                &&& order.side == Action::Sell ==> {
                    &&& resting.price >= order.price
                    &&& fill_of(resting, order.id).buy_order == resting.id
                    &&& fill_of(resting, order.id).sell_order == order.id
                }
            },
            None => forall|p: i32| !crosses_at(book, order, p),
        },
{
    match crossing_price(book, order) {
        Some(p) => {
            assert(crosses_at(book, order, p));
            match order.side {
                Action::Buy => {
                    assert(book.asks[p][0].price == p);
                },
                Action::Sell => {
                    assert(book.bids[p][0].price == p);
                },
            }
        },
        None => {},
    }
}

} // verus!
