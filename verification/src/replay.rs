//! What holds of the engine after any stream of orders.
//!
//! The engine's state after a stream of submissions is a function of the
//! stream. The proofs here follow that function by induction.

use vstd::prelude::*;
use crate::card::spec_is_valid;
use crate::model::{
    after_submit, book_wf, books_wf, crosses_at, crossing_price, fresh_books, is_highest,
    is_lowest, lemma_submit_keeps_wf, side_wf, submit_books, Action, Book, PendingOrder, Side,
};

verus! {

/// Every order of the stream names a tradable card.
pub open spec fn valid_stream(orders: Seq<PendingOrder>) -> bool {
    forall|i: int| 0 <= i < orders.len() ==> spec_is_valid((#[trigger] orders[i]).card_id as int)
}

/// The books of a fresh engine after the orders were submitted in turn.
pub open spec fn replay(orders: Seq<PendingOrder>) -> Seq<Book>
    decreases orders.len(),
{
    if orders.len() == 0 {
        fresh_books()
    } else {
        submit_books(replay(orders.drop_last()), orders.last())
    }
}

/// Every bid is below every ask.
pub open spec fn uncrossed(book: Book) -> bool {
    forall|bid: i32, ask: i32|
        #![trigger book.bids.contains_key(bid), book.asks.contains_key(ask)]
        book.bids.contains_key(bid) && book.asks.contains_key(ask) ==> bid < ask
}

/// No book is crossed.
pub open spec fn all_uncrossed(books: Seq<Book>) -> bool {
    forall|c: int| 0 <= c < books.len() ==> uncrossed(#[trigger] books[c])
}

/// A finite, non-empty set of prices has a smallest member.
proof fn lemma_prices_have_min(prices: Set<i32>)
    requires
        prices.finite(),
        exists|p: i32| prices.contains(p),
    ensures
        exists|m: i32| prices.contains(m) && forall|q: i32| prices.contains(q) ==> m <= q,
    decreases prices.len(),
{
    let x = choose|p: i32| prices.contains(p);
    let rest = prices.remove(x);
    if exists|p: i32| rest.contains(p) {
        lemma_prices_have_min(rest);
        let m = choose|m: i32| rest.contains(m) && forall|q: i32| rest.contains(q) ==> m <= q;
        let best = if x < m { x } else { m };
        assert(prices.contains(best));
        assert forall|q: i32| prices.contains(q) implies best <= q by {
            if q != x {
                assert(rest.contains(q));
            }
        }
    } else {
        assert forall|q: i32| prices.contains(q) implies x <= q by {
            if q != x {
                assert(rest.contains(q));
            }
        }
    }
}

/// A finite, non-empty set of prices has a largest member.
proof fn lemma_prices_have_max(prices: Set<i32>)
    requires
        prices.finite(),
        exists|p: i32| prices.contains(p),
    ensures
        exists|m: i32| prices.contains(m) && forall|q: i32| prices.contains(q) ==> q <= m,
    decreases prices.len(),
{
    let x = choose|p: i32| prices.contains(p);
    let rest = prices.remove(x);
    if exists|p: i32| rest.contains(p) {
        lemma_prices_have_max(rest);
        let m = choose|m: i32| rest.contains(m) && forall|q: i32| rest.contains(q) ==> q <= m;
        let best = if x > m { x } else { m };
        assert(prices.contains(best));
        assert forall|q: i32| prices.contains(q) implies q <= best by {
            if q != x {
                assert(rest.contains(q));
            }
        }
    } else {
        assert forall|q: i32| prices.contains(q) implies q <= x by {
            if q != x {
                assert(rest.contains(q));
            }
        }
    }
}

/// A well-formed side that holds orders has a lowest price.
pub proof fn lemma_side_has_lowest(side: Side, price: i32)
    requires
        side_wf(side),
        side.contains_key(price),
    ensures
        exists|m: i32| is_lowest(side, m),
{
    assert(side.dom().contains(price));
    lemma_prices_have_min(side.dom());
    let m = choose|m: i32|
        side.dom().contains(m) && forall|q: i32| side.dom().contains(q) ==> m <= q;
    assert forall|q: i32| #[trigger] side.contains_key(q) implies m <= q by {
        assert(side.dom().contains(q));
    }
    assert(is_lowest(side, m));
}

/// A well-formed side that holds orders has a highest price.
pub proof fn lemma_side_has_highest(side: Side, price: i32)
    requires
        side_wf(side),
        side.contains_key(price),
    ensures
        exists|m: i32| is_highest(side, m),
{
    assert(side.dom().contains(price));
    lemma_prices_have_max(side.dom());
    let m = choose|m: i32|
        side.dom().contains(m) && forall|q: i32| side.dom().contains(q) ==> q <= m;
    assert forall|q: i32| #[trigger] side.contains_key(q) implies q <= m by {
        assert(side.dom().contains(q));
    }
    assert(is_highest(side, m));
}

/// A submission keeps a book well formed, and an uncrossed book uncrossed.
pub proof fn lemma_submit_keeps_uncrossed(book: Book, order: PendingOrder)
    requires
        book_wf(book),
        uncrossed(book),
    ensures
        book_wf(after_submit(book, order)),
        uncrossed(after_submit(book, order)),
{
    let next = after_submit(book, order);
    lemma_submit_keeps_wf(book, order);
    match crossing_price(book, order) {
        Some(p) => {
            assert(crosses_at(book, order, p));
            assert forall|bid: i32, ask: i32|
                next.bids.contains_key(bid) && next.asks.contains_key(ask) implies bid < ask by {
                assert(book.bids.contains_key(bid));
                assert(book.asks.contains_key(ask));
            }
        },
        None => {
            assert forall|bid: i32, ask: i32|
                next.bids.contains_key(bid) && next.asks.contains_key(ask) implies bid < ask by {
                match order.side {
                    Action::Buy => {
                        assert(book.asks.contains_key(ask));
                        if bid == order.price {
                            lemma_side_has_lowest(book.asks, ask);
                            let m = choose|m: i32| is_lowest(book.asks, m);
                            assert(!crosses_at(book, order, m));
                        } else {
                            assert(book.bids.contains_key(bid));
                        }
                    },
                    Action::Sell => {
                        assert(book.bids.contains_key(bid));
                        if ask == order.price {
                            lemma_side_has_highest(book.bids, bid);
                            let m = choose|m: i32| is_highest(book.bids, m);
                            assert(!crosses_at(book, order, m));
                        } else {
                            assert(book.asks.contains_key(ask));
                        }
                    },
                }
            }
        },
    }
}

/// After any stream of valid orders, no book of the engine is crossed:
/// every bid is below every ask.
pub proof fn lemma_replay_uncrossed(orders: Seq<PendingOrder>)
    requires
        valid_stream(orders),
    ensures
        books_wf(replay(orders)),
        all_uncrossed(replay(orders)),
    decreases orders.len(),
{
    if orders.len() > 0 {
        let before = replay(orders.drop_last());
        let order = orders.last();
        lemma_replay_uncrossed(orders.drop_last());
        lemma_submit_keeps_uncrossed(before[order.card_id as int], order);
    }
}

/// The ids that `count` calls of `take_id` in a row hand out, where
/// `last_id` was handed out before them.
pub open spec fn taken_ids(last_id: int, count: nat) -> Seq<int>
    decreases count,
{
    if count == 0 {
        Seq::empty()
    } else {
        let earlier = taken_ids(last_id, (count - 1) as nat);
        earlier.push(
            if earlier.len() == 0 {
                last_id + 1
            } else {
                earlier.last() + 1
            },
        )
    }
}

/// The ids handed out rise strictly: each is above the id that the counter
/// started from and above every id handed out before it.
pub proof fn lemma_taken_ids_increase(last_id: int, count: nat)
    ensures
        taken_ids(last_id, count).len() == count,
        forall|i: int| 0 <= i < count ==> last_id < #[trigger] taken_ids(last_id, count)[i],
        forall|i: int, j: int|
            0 <= i < j < count ==> taken_ids(last_id, count)[i] < taken_ids(last_id, count)[j],
    decreases count,
{
    if count > 0 {
        lemma_taken_ids_increase(last_id, (count - 1) as nat);
    }
}

} // verus!
