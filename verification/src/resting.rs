//! Where each order rests: no id rests twice, and every order rests in
//! the book of its own card.

use vstd::prelude::*;
use crate::card::spec_is_valid;
use crate::model::{
    books_wf, bucket, crosses_at, crossing_price, far_side, rest_on, submit_books, take_front,
    Action, Book, PendingOrder, Side,
};
use crate::replay::{lemma_replay_uncrossed, replay, valid_stream};

verus! {

/// A place in the books: a card, a side, a price and a position in the
/// queue at that price.
pub struct Slot {
    pub card: int,
    pub side: Action,
    pub price: i32,
    pub index: int,
}

/// The side of the book on which orders of `side` rest.
pub open spec fn side_of(book: Book, side: Action) -> Side {
    match side {
        Action::Buy => book.bids,
        Action::Sell => book.asks,
    }
}

/// An order rests at `slot`.
pub open spec fn occupied(books: Seq<Book>, slot: Slot) -> bool {
    &&& 0 <= slot.card < books.len()
    &&& side_of(books[slot.card], slot.side).contains_key(slot.price)
    &&& 0 <= slot.index < side_of(books[slot.card], slot.side)[slot.price].len()
}

/// The order that rests at `slot`.
pub open spec fn order_at(books: Seq<Book>, slot: Slot) -> PendingOrder {
    side_of(books[slot.card], slot.side)[slot.price][slot.index]
}

/// No id rests at two places.
pub open spec fn ids_unique(books: Seq<Book>) -> bool {
    forall|a: Slot, b: Slot|
        #![trigger occupied(books, a), occupied(books, b)]
        occupied(books, a) && occupied(books, b) && order_at(books, a).id == order_at(books, b).id
            ==> a == b
}

/// No order with id `id` rests in the books.
pub open spec fn id_absent(books: Seq<Book>, id: i64) -> bool {
    forall|s: Slot| #[trigger] occupied(books, s) ==> order_at(books, s).id != id
}

/// No two orders of the stream have the same id.
pub open spec fn distinct_ids(orders: Seq<PendingOrder>) -> bool {
    forall|i: int, j: int| 0 <= i < j < orders.len() ==> orders[i].id != orders[j].id
}

/// No order of the stream has the id `id`.
pub open spec fn unused_id(orders: Seq<PendingOrder>, id: i64) -> bool {
    forall|i: int| 0 <= i < orders.len() ==> (#[trigger] orders[i]).id != id
}

/// The place before the submission of `order` of the order that rests at
/// `slot` after it: behind a match the queue has moved up by one.
pub open spec fn origin(books: Seq<Book>, order: PendingOrder, slot: Slot) -> Slot {
    match crossing_price(books[order.card_id as int], order) {
        Some(p) => if slot.card == order.card_id && slot.side == far_side(order.side) && slot.price
            == p {
            Slot { index: slot.index + 1, ..slot }
        } else {
            slot
        },
        None => slot,
    }
}

/// An order that rests after a submission is the submitted order or rested
/// before, at its origin.
proof fn lemma_origin(books: Seq<Book>, order: PendingOrder, slot: Slot)
    requires
        books_wf(books),
        spec_is_valid(order.card_id as int),
        occupied(submit_books(books, order), slot),
    ensures
        order_at(submit_books(books, order), slot) == order && crossing_price(
            books[order.card_id as int],
            order,
        ) is None && slot == (Slot {
            card: order.card_id as int,
            side: order.side,
            price: order.price,
            index: bucket(side_of(books[order.card_id as int], order.side), order.price).len() as int,
        }) || occupied(books, origin(books, order, slot)) && order_at(
            books,
            origin(books, order, slot),
        ) == order_at(submit_books(books, order), slot),
{
    let card = order.card_id as int;
    let book = books[card];
    let after = submit_books(books, order);
    if slot.card == card {
        match crossing_price(book, order) {
            Some(p) => {
                assert(crosses_at(book, order, p));
                let far = side_of(book, far_side(order.side));
                assert(side_of(after[card], far_side(order.side)) == take_front(far, p));
                assert(side_of(after[card], order.side) == side_of(book, order.side));
                assert(far.contains_key(p));
            },
            None => {
                let near = side_of(book, order.side);
                assert(side_of(after[card], order.side) == rest_on(near, order));
                assert(side_of(after[card], far_side(order.side)) == side_of(
                    book,
                    far_side(order.side),
                ));
            },
        }
    }
}

/// Where `order` comes to rest, its id does not rest already.
pub open spec fn comes_fresh(books: Seq<Book>, order: PendingOrder) -> bool {
    crossing_price(books[order.card_id as int], order) is None ==> id_absent(books, order.id)
}

/// Every order of the stream that comes to rest has an id that does not
/// rest at that time.
pub open spec fn rests_fresh(orders: Seq<PendingOrder>) -> bool {
    forall|k: int|
        0 <= k < orders.len() ==> comes_fresh(replay(orders.take(k)), #[trigger] orders[k])
}

/// A submission brings no id into the books but that of the order.
pub proof fn lemma_submit_brings_own_id(books: Seq<Book>, order: PendingOrder, id: i64)
    requires
        books_wf(books),
        spec_is_valid(order.card_id as int),
        id_absent(books, id),
        id != order.id,
    ensures
        id_absent(submit_books(books, order), id),
{
    let after = submit_books(books, order);
    assert forall|s: Slot| #[trigger] occupied(after, s) implies order_at(after, s).id != id by {
        lemma_origin(books, order, s);
        if order_at(after, s) != order {
            assert(occupied(books, origin(books, order, s)));
        }
    }
}

/// A submission keeps the resting ids unique, unless the order comes to
/// rest under an id that rests already.
pub proof fn lemma_submit_keeps_ids_unique(books: Seq<Book>, order: PendingOrder)
    requires
        books_wf(books),
        spec_is_valid(order.card_id as int),
        ids_unique(books),
        comes_fresh(books, order),
    ensures
        ids_unique(submit_books(books, order)),
{
    let after = submit_books(books, order);
    assert forall|a: Slot, b: Slot|
        occupied(after, a) && occupied(after, b) && order_at(after, a).id == order_at(
            after,
            b,
        ).id implies a == b by {
        lemma_origin(books, order, a);
        lemma_origin(books, order, b);
        let from_a = origin(books, order, a);
        let from_b = origin(books, order, b);
        if crossing_price(books[order.card_id as int], order) is Some || order_at(after, a).id
            != order.id {
            assert(occupied(books, from_a) && occupied(books, from_b));
            assert(from_a == from_b);
        }
    }
}

/// After any stream of valid orders, every order id rests at most once: in
/// one queue, on one side, of one book. Left out are the streams in which
/// an order comes to rest under an id that rests already.
pub proof fn lemma_replay_ids_unique(orders: Seq<PendingOrder>)
    requires
        valid_stream(orders),
        rests_fresh(orders),
    ensures
        ids_unique(replay(orders)),
    decreases orders.len(),
{
    if orders.len() > 0 {
        let earlier = orders.drop_last();
        let order = orders.last();
        assert forall|k: int| 0 <= k < earlier.len() implies comes_fresh(
            replay(earlier.take(k)),
            #[trigger] earlier[k],
        ) by {
            assert(earlier.take(k) =~= orders.take(k));
            assert(earlier[k] == orders[k]);
        }
        lemma_replay_ids_unique(earlier);
        lemma_replay_uncrossed(earlier);
        assert(orders.take(orders.len() - 1) =~= earlier);
        assert(comes_fresh(replay(earlier), orders[orders.len() - 1]));
        lemma_submit_keeps_ids_unique(replay(earlier), order);
    } else {
        assert forall|a: Slot| !occupied(replay(orders), a) by {}
    }
}

/// An id that no order of the stream has does not rest after the stream.
pub proof fn lemma_unused_id_absent(orders: Seq<PendingOrder>, id: i64)
    requires
        valid_stream(orders),
        unused_id(orders, id),
    ensures
        id_absent(replay(orders), id),
    decreases orders.len(),
{
    if orders.len() > 0 {
        let earlier = orders.drop_last();
        assert(unused_id(earlier, id)) by {
            assert forall|i: int| 0 <= i < earlier.len() implies (#[trigger] earlier[i]).id
                != id by {
                assert(earlier[i] == orders[i]);
            }
        }
        lemma_unused_id_absent(earlier, id);
        lemma_replay_uncrossed(earlier);
        assert(orders[orders.len() - 1].id != id);
        lemma_submit_brings_own_id(replay(earlier), orders.last(), id);
    } else {
        assert forall|a: Slot| !occupied(replay(orders), a) by {}
    }
}

/// In a stream of valid orders with distinct ids, no order arrives under an
/// id that rests: so after it every order id rests at most once.
pub proof fn lemma_distinct_ids_rest_fresh(orders: Seq<PendingOrder>)
    requires
        valid_stream(orders),
        distinct_ids(orders),
    ensures
        rests_fresh(orders),
        ids_unique(replay(orders)),
{
    assert forall|k: int| 0 <= k < orders.len() implies comes_fresh(
        replay(orders.take(k)),
        #[trigger] orders[k],
    ) by {
        let earlier = orders.take(k);
        assert(unused_id(earlier, orders[k].id)) by {
            assert forall|i: int| 0 <= i < earlier.len() implies (#[trigger] earlier[i]).id
                != orders[k].id by {
                assert(earlier[i] == orders[i]);
            }
        }
        assert(valid_stream(earlier)) by {
            assert forall|i: int| 0 <= i < earlier.len() implies spec_is_valid(
                (#[trigger] earlier[i]).card_id as int,
            ) by {
                assert(earlier[i] == orders[i]);
            }
        }
        lemma_unused_id_absent(earlier, orders[k].id);
    }
    lemma_replay_ids_unique(orders);
}

/// Every order rests in the book of its own card.
pub open spec fn on_own_cards(books: Seq<Book>) -> bool {
    forall|s: Slot| #[trigger] occupied(books, s) ==> order_at(books, s).card_id == s.card
}

/// After any stream of valid orders, every order rests in the book of its
/// own card, so that a match is always between two orders of one card.
pub proof fn lemma_replay_on_own_cards(orders: Seq<PendingOrder>)
    requires
        valid_stream(orders),
    ensures
        on_own_cards(replay(orders)),
    decreases orders.len(),
{
    if orders.len() > 0 {
        let earlier = orders.drop_last();
        let order = orders.last();
        lemma_replay_on_own_cards(earlier);
        lemma_replay_uncrossed(earlier);
        assert forall|s: Slot| #[trigger] occupied(replay(orders), s) implies order_at(
            replay(orders),
            s,
        ).card_id == s.card by {
            lemma_origin(replay(earlier), order, s);
            if order_at(replay(orders), s) != order {
                assert(occupied(replay(earlier), origin(replay(earlier), order, s)));
            }
        }
    } else {
        assert forall|s: Slot| !occupied(replay(orders), s) by {}
    }
}

} // verus!
