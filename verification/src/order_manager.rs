//! The matching engine: one limit order book per card and the id counter.

use std::collections::BTreeMap;
use std::collections::VecDeque;
use vstd::prelude::*;
use crate::card::{spec_is_valid, NUM_CARDS};
use crate::model::{
    after_match, after_rest, book_wf, books_wf, crosses_at, empty_book, fill_of, fresh_books,
    is_highest, is_lowest, lemma_crossing_price_is, lemma_highest_unique, lemma_lowest_unique,
    lemma_rest_keeps_side, lemma_take_keeps_side, matched_order, rest_all, rest_on, side_keeps,
    side_wf, submit_books, submit_outcome, take_front, Book, Side,
};
pub use crate::model::{Action, FilledOrder, PendingOrder};
use crate::ports;
use crate::rehydration::{
    ascending_ids, books_by_id, lemma_rest_all_by_id, queues_by_id, rows_by_id,
};
use crate::replay::{all_uncrossed, lemma_submit_keeps_uncrossed};
use crate::resting::{comes_fresh, ids_unique, lemma_submit_keeps_ids_unique};

verus! {

/// The queue of orders resting at one price, oldest first.
pub type PriceBucket = VecDeque<PendingOrder>;

/// What a price-ordered map of queues holds, as a side of the model.
pub open spec fn side_view(levels: Map<i32, PriceBucket>) -> Side {
    Map::new(|p: i32| levels.contains_key(p), |p: i32| levels[p]@)
}

/// `BTreeMap::first_key_value`, reduced to the key: the smallest price in
/// the map, or `None` where the map is empty. Not proved here.
#[verifier::external_body]
fn lowest_price(levels: &BTreeMap<i32, PriceBucket>) -> (best: Option<i32>)
    ensures
        match best {
            Some(p) => levels@.contains_key(p) && forall|q: i32|
                levels@.contains_key(q) ==> p <= q,
            None => forall|q: i32| !levels@.contains_key(q),
        },
{
    levels.first_key_value().map(|entry| *entry.0)
}

/// `BTreeMap::last_key_value`, reduced to the key: the largest price in the
/// map, or `None` where the map is empty. Not proved here.
#[verifier::external_body]
fn highest_price(levels: &BTreeMap<i32, PriceBucket>) -> (best: Option<i32>)
    ensures
        match best {
            Some(p) => levels@.contains_key(p) && forall|q: i32|
                levels@.contains_key(q) ==> q <= p,
            None => forall|q: i32| !levels@.contains_key(q),
        },
{
    levels.last_key_value().map(|entry| *entry.0)
}

/// The resting order that a stored row stands for on `side`.
pub open spec fn as_resting(row: ports::PendingOrder, side: Action) -> PendingOrder {
    PendingOrder { id: row.id, side, price: row.price, card_id: row.card_id }
}

/// The resting orders that stored rows stand for on `side`, in their order.
pub open spec fn rows_as_resting(rows: Seq<ports::PendingOrder>, side: Action) -> Seq<
    PendingOrder,
> {
    rows.map_values(|row: ports::PendingOrder| as_resting(row, side))
}

/// Builds one side from stored rows, resting them in the order given.
fn side_from_rows(rows: &Vec<ports::PendingOrder>, side: Action) -> (levels: BTreeMap<
    i32,
    PriceBucket,
>)
    ensures
        side_wf(side_view(levels@)),
        side_keeps(side_view(levels@), side),
        side_view(levels@) == rest_all(rows_as_resting(rows@, side)),
{
    let mut levels: BTreeMap<i32, PriceBucket> = BTreeMap::new();
    assert(side_view(levels@) =~= Map::empty());
    let mut i: usize = 0;
    while i < rows.len()
        invariant
            i <= rows.len(),
            side_wf(side_view(levels@)),
            side_keeps(side_view(levels@), side),
            side_view(levels@) == rest_all(rows_as_resting(rows@.take(i as int), side)),
        decreases rows.len() - i,
    {
        let row = &rows[i];
        let order = PendingOrder { id: row.id, side, price: row.price, card_id: row.card_id };
        proof {
            let before = rows_as_resting(rows@.take(i as int), side);
            let after = rows_as_resting(rows@.take(i + 1), side);
            assert(after.drop_last() =~= before);
            assert(after.last() == order);
        }
        push_resting(&mut levels, order);
        i += 1;
    }
    assert(rows@.take(rows.len() as int) =~= rows@);
    levels
}

/// Appends `order` to the queue at its price, creating the queue if absent.
fn push_resting(levels: &mut BTreeMap<i32, PriceBucket>, order: PendingOrder)
    requires
        side_wf(side_view(old(levels)@)),
        side_keeps(side_view(old(levels)@), order.side),
    ensures
        side_wf(side_view(final(levels)@)),
        side_keeps(side_view(final(levels)@), order.side),
        side_view(final(levels)@) == rest_on(side_view(old(levels)@), order),
{
    proof {
        lemma_rest_keeps_side(side_view(levels@), order);
    }
    let mut queue = match levels.remove(&order.price) {
        Some(queue) => queue,
        None => VecDeque::new(),
    };
    queue.push_back(order);
    levels.insert(order.price, queue);
    assert(side_view(levels@) =~= rest_on(side_view(old(levels)@), order));
}

/// Pops the oldest order at `price` and drops the queue if that empties it.
fn pop_oldest(levels: &mut BTreeMap<i32, PriceBucket>, price: i32) -> (oldest: PendingOrder)
    requires
        side_wf(side_view(old(levels)@)),
        old(levels)@.contains_key(price),
    ensures
        side_wf(side_view(final(levels)@)),
        forall|tag: Action|
            side_keeps(side_view(old(levels)@), tag) ==> side_keeps(side_view(final(levels)@), tag),
        side_view(final(levels)@) == take_front(side_view(old(levels)@), price),
        oldest == side_view(old(levels)@)[price][0],
{
    proof {
        assert(side_view(levels@).contains_key(price));
        assert forall|tag: Action| side_keeps(side_view(levels@), tag) implies side_keeps(
            take_front(side_view(levels@), price),
            tag,
        ) by {
            lemma_take_keeps_side(side_view(levels@), price, tag);
        }
    }
    let mut queue = levels.remove(&price).unwrap();
    let oldest = queue.pop_front().unwrap();
    if queue.len() > 0 {
        levels.insert(price, queue);
    }
    assert(side_view(levels@) =~= take_front(side_view(old(levels)@), price));
    oldest
}

/// The limit order book of one card.
pub struct OrderBook {
    bids: BTreeMap<i32, PriceBucket>,
    asks: BTreeMap<i32, PriceBucket>,
}

impl View for OrderBook {
    type V = Book;

    closed spec fn view(&self) -> Book {
        Book { bids: side_view(self.bids@), asks: side_view(self.asks@) }
    }
}

impl OrderBook {
    /// No queue of the book is empty, every order rests at its own price,
    /// the bids are buys and the asks are sells.
    pub open spec fn wf(&self) -> bool {
        book_wf(self@)
    }

    /// A book in which nothing rests.
    pub fn new() -> (book: OrderBook)
        ensures
            book.wf(),
            book@ == empty_book(),
    {
        let book = OrderBook { bids: BTreeMap::new(), asks: BTreeMap::new() };
        assert(book@.bids =~= Map::empty());
        assert(book@.asks =~= Map::empty());
        book
    }

    /// Rebuilds a book from the pending bids and asks of the store. The rows
    /// are put to rest in the order given, each list on its own side: rows
    /// that come by ascending id give queues in that order.
    pub fn from_db(bids: Vec<ports::PendingOrder>, asks: Vec<ports::PendingOrder>) -> (book:
        OrderBook)
        ensures
            book.wf(),
            book@.bids == rest_all(rows_as_resting(bids@, Action::Buy)),
            book@.asks == rest_all(rows_as_resting(asks@, Action::Sell)),
            ascending_ids(rows_as_resting(bids@, Action::Buy)) ==> queues_by_id(book@.bids),
            ascending_ids(rows_as_resting(asks@, Action::Sell)) ==> queues_by_id(book@.asks),
    {
        OrderBook::from_rows(&bids, &asks)
    }

    /// As `from_db`, on borrowed rows.
    pub fn from_rows(bids: &Vec<ports::PendingOrder>, asks: &Vec<ports::PendingOrder>) -> (book:
        OrderBook)
        ensures
            book.wf(),
            book@.bids == rest_all(rows_as_resting(bids@, Action::Buy)),
            book@.asks == rest_all(rows_as_resting(asks@, Action::Sell)),
            ascending_ids(rows_as_resting(bids@, Action::Buy)) ==> queues_by_id(book@.bids),
            ascending_ids(rows_as_resting(asks@, Action::Sell)) ==> queues_by_id(book@.asks),
    {
        proof {
            if ascending_ids(rows_as_resting(bids@, Action::Buy)) {
                lemma_rest_all_by_id(rows_as_resting(bids@, Action::Buy));
            }
            if ascending_ids(rows_as_resting(asks@, Action::Sell)) {
                lemma_rest_all_by_id(rows_as_resting(asks@, Action::Sell));
            }
        }
        OrderBook {
            bids: side_from_rows(bids, Action::Buy),
            asks: side_from_rows(asks, Action::Sell),
        }
    }

    /// Matches `order` against the best price of the opposite side. Where
    /// the order reaches that price, the oldest order resting there leaves
    /// the book and is returned. The incoming order is never inserted.
    pub fn try_match(&mut self, order: &PendingOrder) -> (matched: Option<PendingOrder>)
        requires
            old(self).wf(),
        ensures
            final(self).wf(),
            matched == matched_order(old(self)@, *order),
            final(self)@ == after_match(old(self)@, *order),
    {
        match order.side {
            Action::Buy => {
                match lowest_price(&self.asks) {
                    Some(best) => {
                        if order.price >= best {
                            proof {
                                lemma_crossing_price_is(self@, *order, best);
                            }
                            Some(pop_oldest(&mut self.asks, best))
                        } else {
                            assert forall|p: i32| !crosses_at(self@, *order, p) by {
                                if is_lowest(self@.asks, p) {
                                    lemma_lowest_unique(self@.asks, p, best);
                                }
                            }
                            None
                        }
                    },
                    None => None,
                }
            },
            Action::Sell => {
                match highest_price(&self.bids) {
                    Some(best) => {
                        if order.price <= best {
                            proof {
                                lemma_crossing_price_is(self@, *order, best);
                            }
                            Some(pop_oldest(&mut self.bids, best))
                        } else {
                            assert forall|p: i32| !crosses_at(self@, *order, p) by {
                                if is_highest(self@.bids, p) {
                                    lemma_highest_unique(self@.bids, p, best);
                                }
                            }
                            None
                        }
                    },
                    None => None,
                }
            },
        }
    }

    /// Puts `order` to rest at the tail of the queue at its price, on its
    /// own side.
    pub fn add_order(&mut self, order: PendingOrder)
        requires
            old(self).wf(),
        ensures
            final(self).wf(),
            final(self)@ == after_rest(old(self)@, order),
    {
        match order.side {
            Action::Buy => push_resting(&mut self.bids, order),
            Action::Sell => push_resting(&mut self.asks, order),
        }
    }
}

impl FilledOrder {
    /// The match of the resting order `pending_order` with the incoming
    /// order of id `new_order_id`.
    pub fn new(pending_order: &PendingOrder, new_order_id: i64) -> (filled: FilledOrder)
        ensures
            filled == fill_of(*pending_order, new_order_id),
    {
        let buy_order;
        let sell_order;
        match pending_order.side {
            Action::Buy => {
                buy_order = pending_order.id;
                sell_order = new_order_id;
            },
            Action::Sell => {
                buy_order = new_order_id;
                sell_order = pending_order.id;
            },
        }
        FilledOrder {
            buy_order,
            sell_order,
            price: pending_order.price,
            card_id: pending_order.card_id,
            first_order_id: pending_order.id,
        }
    }
}

/// The pending rows of one card as the store returns them: bids, then asks.
pub struct CardPending {
    pub bids: Vec<ports::PendingOrder>,
    pub asks: Vec<ports::PendingOrder>,
}

/// The books rebuilt from the pending rows of each card.
pub open spec fn rebuilt_books(pending: Seq<CardPending>) -> Seq<Book> {
    Seq::new(
        pending.len(),
        |c: int|
            Book {
                bids: rest_all(rows_as_resting(pending[c].bids@, Action::Buy)),
                asks: rest_all(rows_as_resting(pending[c].asks@, Action::Sell)),
            },
    )
}

/// The engine: one order book per card and the counter of order ids.
pub struct OrderManager {
    order_books: Vec<OrderBook>,
    last_id: i64,
}

impl OrderManager {
    /// The books of the engine, by card.
    pub closed spec fn books(&self) -> Seq<Book> {
        Seq::new(self.order_books@.len(), |c: int| self.order_books@[c]@)
    }

    /// The id that was handed out last.
    pub closed spec fn last_id(&self) -> i64 {
        self.last_id
    }

    /// There is one well-formed book per card.
    pub open spec fn wf(&self) -> bool {
        books_wf(self.books())
    }

    /// An engine in which nothing rests and no id was handed out.
    pub fn new() -> (manager: OrderManager)
        ensures
            manager.wf(),
            manager.books() == fresh_books(),
            all_uncrossed(manager.books()),
            manager.last_id() == 0,
    {
        let mut order_books: Vec<OrderBook> = Vec::new();
        let mut card: usize = 0;
        while card < NUM_CARDS
            invariant
                card <= NUM_CARDS,
                order_books@.len() == card,
                forall|c: int|
                    0 <= c < card ==> (#[trigger] order_books@[c]).wf() && order_books@[c]@
                        == empty_book(),
            decreases NUM_CARDS - card,
        {
            order_books.push(OrderBook::new());
            card += 1;
        }
        let manager = OrderManager { order_books, last_id: 0 };
        assert(manager.books() =~= fresh_books());
        manager
    }

    /// Rebuilds the engine from the store: `pending` holds, for each card in
    /// turn, its pending bids and asks, and `last_id` is the largest id in
    /// the store. Within each list the rows come to rest in the order
    /// given: rows that come by ascending id give queues in that order.
    pub fn from_db(pending: Vec<CardPending>, last_id: i64) -> (manager: OrderManager)
        requires
            pending@.len() == NUM_CARDS,
        ensures
            manager.wf(),
            manager.books() == rebuilt_books(pending@),
            rows_by_id(pending@) ==> books_by_id(manager.books()),
            manager.last_id() == last_id,
    {
        let mut order_books: Vec<OrderBook> = Vec::new();
        let mut card: usize = 0;
        while card < NUM_CARDS
            invariant
                card <= NUM_CARDS,
                pending@.len() == NUM_CARDS,
                order_books@.len() == card,
                forall|c: int|
                    0 <= c < card ==> (#[trigger] order_books@[c]).wf() && order_books@[c]@
                        == rebuilt_books(pending@)[c],
            decreases NUM_CARDS - card,
        {
            let rows = &pending[card];
            let book = OrderBook::from_rows(&rows.bids, &rows.asks);
            order_books.push(book);
            card += 1;
        }
        let manager = OrderManager { order_books, last_id };
        assert(manager.books() =~= rebuilt_books(pending@));
        proof {
            if rows_by_id(pending@) {
                assert forall|c: int| 0 <= c < manager.books().len() implies queues_by_id(
                    (#[trigger] manager.books()[c]).bids,
                ) && queues_by_id(manager.books()[c].asks) by {
                    let rows = pending@[c];
                    lemma_rest_all_by_id(rows_as_resting(rows.bids@, Action::Buy));
                    lemma_rest_all_by_id(rows_as_resting(rows.asks@, Action::Sell));
                }
            }
        }
        manager
    }

    /// The id that was handed out last, or that the counter was seeded
    /// with.
    pub fn current_id(&self) -> (id: i64)
        ensures
            id == self.last_id(),
    {
        self.last_id
    }

    /// Hands out the next order id: one more than the last.
    pub fn take_id(&mut self) -> (id: i64)
        requires
            old(self).last_id() < i64::MAX,
        ensures
            id == old(self).last_id() + 1,
            final(self).last_id() == id,
            final(self).books() == old(self).books(),
    {
        self.last_id += 1;
        self.last_id
    }

    /// Submits `order` to the book of its card. Where it matches a resting
    /// order, that order leaves the book and the match is returned;
    /// otherwise `order` comes to rest. At most one resting order leaves.
    /// Books that were not crossed are not crossed afterwards. Where no id
    /// rested twice, none does afterwards, unless `order` comes to rest
    /// under an id that rests already.
    pub fn add_order(&mut self, order: PendingOrder) -> (filled: Option<FilledOrder>)
        requires
            old(self).wf(),
            spec_is_valid(order.card_id as int),
        ensures
            final(self).wf(),
            final(self).books() == submit_books(old(self).books(), order),
            filled == submit_outcome(old(self).books(), order),
            all_uncrossed(old(self).books()) ==> all_uncrossed(final(self).books()),
            ids_unique(old(self).books()) && comes_fresh(old(self).books(), order) ==> ids_unique(
                final(self).books(),
            ),
            final(self).last_id() == old(self).last_id(),
    {
        proof {
            if all_uncrossed(self.books()) {
                lemma_submit_keeps_uncrossed(self.books()[order.card_id as int], order);
            }
            if ids_unique(self.books()) && comes_fresh(self.books(), order) {
                lemma_submit_keeps_ids_unique(self.books(), order);
            }
        }
        let card = order.card_id as usize;
        let matched = self.order_books[card].try_match(&order);
        let filled = match matched {
            Some(resting) => Some(FilledOrder::new(&resting, order.id)),
            None => {
                self.order_books[card].add_order(order);
                None
            },
        };
        assert(self.books() =~= submit_books(old(self).books(), order));
        filled
    }
}

} // verus!
