//! Rebuilding the engine from the store: the books rebuilt from the
//! pending orders, listed by ascending id, are the books that were.

use vstd::prelude::*;
use crate::model::{
    book_wf, books_wf, bucket, crosses_at, crossing_price, rest_all, rest_on, side_keeps,
    side_wf, submit_books, submit_outcome, take_front, Action, Book, PendingOrder, Side,
};
use crate::order_manager::{rebuilt_books, rows_as_resting, CardPending};
use crate::replay::{lemma_replay_uncrossed, replay, valid_stream};

verus! {

/// The ids of the orders rise strictly from each to the next.
pub open spec fn ascending_ids(orders: Seq<PendingOrder>) -> bool {
    forall|i: int, j: int| 0 <= i < j < orders.len() ==> orders[i].id < orders[j].id
}

/// `order` rests in some queue of the side.
pub open spec fn rests_on(side: Side, order: PendingOrder) -> bool {
    exists|p: i32| #[trigger] side.contains_key(p) && side[p].contains(order)
}

/// `rows` lists the orders that rest on the side, all of them and no
/// others, by ascending id.
pub open spec fn is_snapshot(side: Side, rows: Seq<PendingOrder>) -> bool {
    &&& ascending_ids(rows)
    &&& forall|order: PendingOrder| #[trigger] rows.contains(order) <==> rests_on(side, order)
}

/// Every queue of the side holds orders of its own price by ascending id,
/// and no id on the side is above `newest`.
pub open spec fn side_in_order(side: Side, newest: int) -> bool {
    forall|p: i32| #[trigger]
        side.contains_key(p) ==> {
            &&& ascending_ids(side[p])
            &&& forall|i: int|
                0 <= i < side[p].len() ==> (#[trigger] side[p][i]).price == p && side[p][i].id
                    <= newest
        }
}

/// The id of the last order of the stream; below every id where the stream
/// is empty.
pub open spec fn newest_id(orders: Seq<PendingOrder>) -> int {
    if orders.len() == 0 {
        i64::MIN - 1
    } else {
        orders.last().id as int
    }
}

/// Resting an order whose id is above all those on the side keeps the side
/// in order; the orders that rest are then those that rested, and the new
/// one.
proof fn lemma_rest_keeps_order(side: Side, order: PendingOrder, newest: int)
    requires
        side_in_order(side, newest),
        newest < order.id,
    ensures
        side_in_order(rest_on(side, order), order.id as int),
        forall|other: PendingOrder|
            rests_on(rest_on(side, order), other) <==> other == order || rests_on(side, other),
{
    let after = rest_on(side, order);
    let queue = bucket(side, order.price);
    assert forall|p: i32| #[trigger] after.contains_key(p) implies {
        &&& ascending_ids(after[p])
        &&& forall|i: int|
            0 <= i < after[p].len() ==> (#[trigger] after[p][i]).price == p && after[p][i].id
                <= order.id
    } by {
        if p != order.price {
            assert(side.contains_key(p));
        } else if side.contains_key(p) {
            assert(after[p] == side[p].push(order));
        }
    }
    assert forall|other: PendingOrder| rests_on(after, other) <==> other == order || rests_on(
        side,
        other,
    ) by {
        if rests_on(after, other) {
            let p = choose|p: i32| #[trigger] after.contains_key(p) && after[p].contains(other);
            if p == order.price {
                let i = choose|i: int| 0 <= i < after[p].len() && after[p][i] == other;
                if i < queue.len() {
                    assert(side.contains_key(p));
                    assert(side[p][i] == other);
                }
            } else {
                assert(side.contains_key(p));
            }
        }
        if other == order {
            assert(after.contains_key(order.price));
            assert(after[order.price][queue.len() as int] == order);
        }
        if rests_on(side, other) {
            let p = choose|p: i32| #[trigger] side.contains_key(p) && side[p].contains(other);
            let i = choose|i: int| 0 <= i < side[p].len() && side[p][i] == other;
            assert(after.contains_key(p));
            assert(after[p][i] == other);
        }
    }
}

/// Taking the oldest order at a price keeps the side in order.
proof fn lemma_take_keeps_order(side: Side, price: i32, newest: int)
    requires
        side_in_order(side, newest),
        side.contains_key(price),
    ensures
        side_in_order(take_front(side, price), newest),
{
    let after = take_front(side, price);
    assert forall|p: i32| #[trigger] after.contains_key(p) implies {
        &&& ascending_ids(after[p])
        &&& forall|i: int|
            0 <= i < after[p].len() ==> (#[trigger] after[p][i]).price == p && after[p][i].id
                <= newest
    } by {
        assert(side.contains_key(p));
        if p == price {
            assert forall|i: int| 0 <= i < after[p].len() implies (#[trigger] after[p][i])
                == side[p][i + 1] by {}
        }
    }
}

/// A side that is in order stays so under a larger bound.
proof fn lemma_order_under_larger_bound(side: Side, newest: int, larger: int)
    requires
        side_in_order(side, newest),
        newest <= larger,
    ensures
        side_in_order(side, larger),
{
    assert forall|p: i32| #[trigger] side.contains_key(p) implies {
        &&& ascending_ids(side[p])
        &&& forall|i: int|
            0 <= i < side[p].len() ==> (#[trigger] side[p][i]).price == p && side[p][i].id
                <= larger
    } by {}
}

/// Both sides of every book are in order under the bound `newest`.
pub open spec fn books_in_order(books: Seq<Book>, newest: int) -> bool {
    forall|c: int|
        0 <= c < books.len() ==> side_in_order((#[trigger] books[c]).bids, newest)
            && side_in_order(books[c].asks, newest)
}

/// After a stream of valid orders with ascending ids, every queue holds
/// orders of its own price by ascending id, and no id is above the newest.
proof fn lemma_replay_in_order(orders: Seq<PendingOrder>)
    requires
        valid_stream(orders),
        ascending_ids(orders),
    ensures
        books_wf(replay(orders)),
        books_in_order(replay(orders), newest_id(orders)),
    decreases orders.len(),
{
    lemma_replay_uncrossed(orders);
    if orders.len() > 0 {
        let earlier = orders.drop_last();
        let order = orders.last();
        let before = replay(earlier);
        let after = replay(orders);
        lemma_replay_in_order(earlier);
        let bound = newest_id(earlier);
        assert(bound < order.id) by {
            if earlier.len() > 0 {
                assert(earlier.last() == orders[orders.len() - 2]);
            }
        }
        let card = order.card_id as int;
        let book = before[card];
        assert forall|c: int| 0 <= c < after.len() implies side_in_order(
            (#[trigger] after[c]).bids,
            order.id as int,
        ) && side_in_order(after[c].asks, order.id as int) by {
            assert(side_in_order(before[c].bids, bound));
            assert(side_in_order(before[c].asks, bound));
            lemma_order_under_larger_bound(before[c].bids, bound, order.id as int);
            lemma_order_under_larger_bound(before[c].asks, bound, order.id as int);
            if c == card {
                match crossing_price(book, order) {
                    Some(p) => {
                        assert(crosses_at(book, order, p));
                        match order.side {
                            Action::Buy => lemma_take_keeps_order(book.asks, p, order.id as int),
                            Action::Sell => lemma_take_keeps_order(book.bids, p, order.id as int),
                        }
                    },
                    None => {
                        match order.side {
                            Action::Buy => lemma_rest_keeps_order(book.bids, order, bound),
                            Action::Sell => lemma_rest_keeps_order(book.asks, order, bound),
                        }
                    },
                }
            }
        }
    } else {
        assert forall|c: int| 0 <= c < replay(orders).len() implies side_in_order(
            (#[trigger] replay(orders)[c]).bids,
            newest_id(orders),
        ) && side_in_order(replay(orders)[c].asks, newest_id(orders)) by {}
    }
}

/// The side rebuilt from rows with ascending ids is well formed and in
/// order, and on it rest the rows and nothing else.
pub proof fn lemma_rest_all_in_order(rows: Seq<PendingOrder>)
    requires
        ascending_ids(rows),
    ensures
        side_wf(rest_all(rows)),
        side_in_order(rest_all(rows), newest_id(rows)),
        forall|order: PendingOrder| rests_on(rest_all(rows), order) <==> rows.contains(order),
    decreases rows.len(),
{
    if rows.len() > 0 {
        let earlier = rows.drop_last();
        let last = rows.last();
        lemma_rest_all_in_order(earlier);
        assert(newest_id(earlier) < last.id) by {
            if earlier.len() > 0 {
                assert(earlier.last() == rows[rows.len() - 2]);
            }
        }
        lemma_rest_keeps_order(rest_all(earlier), last, newest_id(earlier));
        assert forall|order: PendingOrder| rests_on(rest_all(rows), order) <==> rows.contains(
            order,
        ) by {
            if rows.contains(order) {
                let i = choose|i: int| 0 <= i < rows.len() && rows[i] == order;
                if i < earlier.len() {
                    assert(earlier[i] == order);
                }
            }
            if earlier.contains(order) {
                let i = choose|i: int| 0 <= i < earlier.len() && earlier[i] == order;
                assert(rows[i] == order);
            }
            assert(rows[rows.len() - 1] == last);
        }
    } else {
        assert forall|order: PendingOrder| !rests_on(rest_all(rows), order) by {}
    }
}

/// Two queues with ascending ids that hold the same orders are the same
/// queue.
proof fn lemma_same_orders_same_queue(a: Seq<PendingOrder>, b: Seq<PendingOrder>)
    requires
        ascending_ids(a),
        ascending_ids(b),
        forall|order: PendingOrder| a.contains(order) <==> b.contains(order),
    ensures
        a == b,
    decreases a.len(),
{
    if a.len() == 0 {
        if b.len() > 0 {
            assert(b.contains(b[0]));
        }
        assert(a =~= b);
    } else {
        let x = a.last();
        assert(a.contains(x));
        assert(b.contains(x));
        let k = choose|k: int| 0 <= k < b.len() && b[k] == x;
        let y = b.last();
        assert(b.contains(y));
        assert(a.contains(y));
        let m = choose|m: int| 0 <= m < a.len() && a[m] == y;
        assert(x == y);
        let shorter_a = a.drop_last();
        let shorter_b = b.drop_last();
        assert forall|order: PendingOrder| shorter_a.contains(order) <==> shorter_b.contains(
            order,
        ) by {
            if shorter_a.contains(order) {
                let i = choose|i: int| 0 <= i < shorter_a.len() && shorter_a[i] == order;
                assert(a[i] == order);
                assert(a.contains(order));
                let j = choose|j: int| 0 <= j < b.len() && b[j] == order;
                assert(shorter_b[j] == order);
            }
            if shorter_b.contains(order) {
                let i = choose|i: int| 0 <= i < shorter_b.len() && shorter_b[i] == order;
                assert(b[i] == order);
                assert(b.contains(order));
                let j = choose|j: int| 0 <= j < a.len() && a[j] == order;
                assert(shorter_a[j] == order);
            }
        }
        lemma_same_orders_same_queue(shorter_a, shorter_b);
        assert(a =~= shorter_a.push(x));
        assert(b =~= shorter_b.push(y));
    }
}

/// Two well-formed sides in order on which the same orders rest are the
/// same side.
proof fn lemma_same_orders_same_side(x: Side, y: Side, newest: int, other_newest: int)
    requires
        side_wf(x),
        side_wf(y),
        side_in_order(x, newest),
        side_in_order(y, other_newest),
        forall|order: PendingOrder| rests_on(x, order) <==> rests_on(y, order),
    ensures
        x == y,
{
    assert forall|p: i32| x.contains_key(p) implies y.contains_key(p) && x[p] == y[p] by {
        lemma_queue_found(x, y, p);
        lemma_queue_included(x, y, p);
        lemma_queue_included(y, x, p);
        lemma_same_orders_same_queue(x[p], y[p]);
    }
    assert forall|p: i32| y.contains_key(p) implies x.contains_key(p) by {
        lemma_queue_found(y, x, p);
    }
    assert(x =~= y);
}

/// Where every order that rests on `x` rests on `y`, `y` has a queue at
/// each price at which `x` has one.
proof fn lemma_queue_found(x: Side, y: Side, p: i32)
    requires
        side_wf(x),
        side_in_order(x, i64::MAX as int),
        side_in_order(y, i64::MAX as int),
        forall|order: PendingOrder| rests_on(x, order) ==> rests_on(y, order),
        x.contains_key(p),
    ensures
        y.contains_key(p),
{
    let first = x[p][0];
    assert(x[p].contains(first));
    assert(rests_on(x, first));
    assert(rests_on(y, first));
    let q = choose|q: i32| #[trigger] y.contains_key(q) && y[q].contains(first);
    let i = choose|i: int| 0 <= i < y[q].len() && y[q][i] == first;
    assert(y[q][i].price == q);
}

/// Where every order that rests on `x` rests on `y`, the queue of `y` at a
/// price holds every order of the queue of `x` at that price.
proof fn lemma_queue_included(x: Side, y: Side, p: i32)
    requires
        side_in_order(x, i64::MAX as int),
        side_in_order(y, i64::MAX as int),
        forall|order: PendingOrder| rests_on(x, order) ==> rests_on(y, order),
        x.contains_key(p),
        y.contains_key(p),
    ensures
        forall|order: PendingOrder| x[p].contains(order) ==> y[p].contains(order),
{
    assert forall|order: PendingOrder| x[p].contains(order) implies y[p].contains(order) by {
        let k = choose|k: int| 0 <= k < x[p].len() && x[p][k] == order;
        assert(x[p][k].price == p);
        assert(rests_on(x, order));
        assert(rests_on(y, order));
        let q = choose|q: i32| #[trigger] y.contains_key(q) && y[q].contains(order);
        let i = choose|i: int| 0 <= i < y[q].len() && y[q][i] == order;
        assert(y[q][i].price == q);
    }
}

/// Every queue of the side holds its orders by ascending id.
pub open spec fn queues_by_id(side: Side) -> bool {
    forall|p: i32| #[trigger] side.contains_key(p) ==> ascending_ids(side[p])
}

/// In every book the queues of both sides hold their orders by ascending
/// id.
pub open spec fn books_by_id(books: Seq<Book>) -> bool {
    forall|c: int|
        0 <= c < books.len() ==> queues_by_id((#[trigger] books[c]).bids) && queues_by_id(
            books[c].asks,
        )
}

/// Rows with ascending ids, put to rest in their order, give queues that
/// hold their orders by ascending id.
pub proof fn lemma_rest_all_by_id(rows: Seq<PendingOrder>)
    requires
        ascending_ids(rows),
    ensures
        queues_by_id(rest_all(rows)),
{
    lemma_rest_all_in_order(rows);
}

/// The rows of every card and side come by ascending id.
pub open spec fn rows_by_id(pending: Seq<CardPending>) -> bool {
    forall|c: int|
        0 <= c < pending.len() ==> ascending_ids(
            rows_as_resting((#[trigger] pending[c]).bids@, Action::Buy),
        ) && ascending_ids(rows_as_resting(pending[c].asks@, Action::Sell))
}

/// After a stream of valid orders with ascending ids, every queue holds
/// its orders by ascending id: the order of arrival is the order of the
/// ids.
pub proof fn lemma_replay_by_id(orders: Seq<PendingOrder>)
    requires
        valid_stream(orders),
        ascending_ids(orders),
    ensures
        books_wf(replay(orders)),
        books_by_id(replay(orders)),
{
    lemma_replay_in_order(orders);
    let books = replay(orders);
    assert forall|c: int| 0 <= c < books.len() implies queues_by_id((#[trigger] books[c]).bids)
        && queues_by_id(books[c].asks) by {
        assert(side_in_order(books[c].bids, newest_id(orders)));
        assert(side_in_order(books[c].asks, newest_id(orders)));
    }
}

/// A side is rebuilt by resting its snapshot: where every queue of a
/// well-formed side holds its orders by ascending id, the rows that list
/// the orders resting on it by ascending id, put to rest in that order,
/// give the side again.
pub proof fn lemma_snapshot_rebuilds_side(live: Side, tag: Action, rows: Seq<PendingOrder>)
    requires
        side_wf(live),
        side_keeps(live, tag),
        queues_by_id(live),
        is_snapshot(live, rows),
    ensures
        rest_all(rows) == live,
{
    lemma_rest_all_in_order(rows);
    let top = i64::MAX as int;
    lemma_order_under_larger_bound(rest_all(rows), newest_id(rows), top);
    assert(side_in_order(live, top)) by {
        assert forall|p: i32| #[trigger] live.contains_key(p) implies {
            &&& ascending_ids(live[p])
            &&& forall|i: int|
                0 <= i < live[p].len() ==> (#[trigger] live[p][i]).price == p && live[p][i].id
                    <= top
        } by {}
    }
    assert forall|order: PendingOrder| rests_on(rest_all(rows), order) <==> rests_on(
        live,
        order,
    ) by {
        assert(rows.contains(order) <==> rests_on(live, order));
    }
    lemma_same_orders_same_side(rest_all(rows), live, top, top);
}

/// `pending` is what the store returns for the books: for each card the
/// orders resting on either side, by ascending id.
pub open spec fn snapshot_of(books: Seq<Book>, pending: Seq<CardPending>) -> bool {
    &&& pending.len() == books.len()
    &&& forall|c: int|
        0 <= c < books.len() ==> is_snapshot(
            (#[trigger] books[c]).bids,
            rows_as_resting(pending[c].bids@, Action::Buy),
        ) && is_snapshot(books[c].asks, rows_as_resting(pending[c].asks@, Action::Sell))
}

/// An engine is rebuilt from its snapshot: where every queue of
/// well-formed books holds its orders by ascending id, the books rebuilt
/// from what the store returns for them are the same books.
pub proof fn lemma_snapshot_rebuilds_books(books: Seq<Book>, pending: Seq<CardPending>)
    requires
        books_wf(books),
        books_by_id(books),
        snapshot_of(books, pending),
    ensures
        rebuilt_books(pending) == books,
{
    let rebuilt = rebuilt_books(pending);
    assert forall|c: int| 0 <= c < books.len() implies rebuilt[c] == books[c] by {
        assert(book_wf(books[c]));
        assert(queues_by_id(books[c].bids) && queues_by_id(books[c].asks));
        assert(is_snapshot(books[c].bids, rows_as_resting(pending[c].bids@, Action::Buy)));
        lemma_snapshot_rebuilds_side(
            books[c].bids,
            Action::Buy,
            rows_as_resting(pending[c].bids@, Action::Buy),
        );
        lemma_snapshot_rebuilds_side(
            books[c].asks,
            Action::Sell,
            rows_as_resting(pending[c].asks@, Action::Sell),
        );
    }
    assert(rebuilt =~= books);
}

/// Rehydration: run a stream of valid orders through a fresh engine, and
/// rebuild a second engine from the snapshot of the first. Where the
/// queues of the first hold their orders by ascending id, as they do after
/// a stream with ascending ids, the two engines hold the same books, so
/// that any next order has the same outcome on both: the same match or
/// none, and the same books after it.
pub proof fn lemma_rehydration(
    orders: Seq<PendingOrder>,
    pending: Seq<CardPending>,
    next: PendingOrder,
)
    requires
        valid_stream(orders),
        books_by_id(replay(orders)),
        snapshot_of(replay(orders), pending),
    ensures
        rebuilt_books(pending) == replay(orders),
        submit_outcome(rebuilt_books(pending), next) == submit_outcome(replay(orders), next),
        submit_books(rebuilt_books(pending), next) == submit_books(replay(orders), next),
{
    lemma_replay_uncrossed(orders);
    lemma_snapshot_rebuilds_books(replay(orders), pending);
}

} // verus!
