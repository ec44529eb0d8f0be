//! The order submission pipeline, as a state machine.
//!
//! A submission alternates work on the stores with decisions. The
//! decisions are here: each step takes what the outside reported and gives
//! the next state and the next thing to do. The caller performs the
//! command and comes back with the reply. The order of the commands is
//! fixed: look up the trader, insert the order as pending, match it in
//! memory, and after a match mark both orders filled and record the trade.

use vstd::prelude::*;
use crate::card::{is_valid, spec_is_valid};
use crate::model::{submit_books, submit_outcome, Book, FilledOrder, PendingOrder};
use crate::order_manager::OrderManager;
use crate::ports::{current_time, status_code, Action, NewOrder, Status, Timestamp};
use crate::request::{price_in_range, MAX_PRICE, MIN_PRICE};

verus! {

/// The store call that failed.
#[derive(Debug, Clone, Copy, PartialEq, Eq, Structural)]
pub enum FailedStep {
    /// The trader store could not tell whether the trader exists.
    TraderLookup,
    /// The insertion of the new order failed.
    InsertOrder,
    /// The update of the status of the order `order_id` failed.
    UpdateStatus { order_id: i64 },
    /// The insertion of the trade failed.
    InsertTrade,
}

/// Why a submission failed.
#[derive(Debug, Clone, Copy, PartialEq, Eq, Structural)]
pub enum ServiceError {
    /// The price is out of range or the card is unknown.
    InvalidInput,
    /// The trader store says that the trader does not exist.
    TraderMissing,
    /// A store call failed, or the trader store could not tell.
    Infrastructure { step: FailedStep },
    /// Reserved; no step gives it.
    Conflict,
}

/// How far a submission has come.
#[derive(Debug, Clone, Copy, PartialEq, Eq, Structural)]
pub enum Submission {
    /// The trader is being looked up.
    CheckingTrader { trader_id: i64, side: Action, price: i32, card_id: i32 },
    /// The order is being inserted as pending.
    InsertingOrder { side: Action, price: i32, card_id: i32 },
    /// The order has its id and is offered to the engine.
    Matching { order: PendingOrder },
    /// A match was made; the incoming order is being marked filled.
    MarkingIncoming { order_id: i64, filled: FilledOrder },
    /// The resting order is being marked filled.
    MarkingResting { order_id: i64, filled: FilledOrder },
    /// The trade is being recorded.
    RecordingTrade { order_id: i64, filled: FilledOrder },
    /// Nothing is left to do.
    Finished,
}

/// What the outside reports after it performed a command.
#[derive(Debug, Clone, Copy, PartialEq, Eq, Structural)]
pub enum Reply {
    /// The trader exists, does not exist, or the store could not tell.
    Trader { found: Option<bool> },
    /// The id that the store gave to the new order, or `None` where the
    /// insertion failed.
    OrderInserted { order_id: Option<i64> },
    /// What the engine returned for the order.
    Matched { filled: Option<FilledOrder> },
    /// Whether the status update went through.
    StatusUpdated { done: bool },
    /// Whether the trade was recorded.
    TradeInserted { done: bool },
}

/// How a submission ended.
#[derive(Debug, Clone, Copy, PartialEq, Eq, Structural)]
pub enum Outcome {
    Accepted,
    Failed { error: ServiceError },
}

/// What the caller is to do next.
#[derive(Debug, Clone, Copy, PartialEq, Eq, Structural)]
pub enum Command {
    /// Ask the trader store whether the trader exists.
    LookUpTrader { trader_id: i64 },
    /// Insert the order into the order store.
    InsertOrder { new_order: NewOrder },
    /// Submit the order to the engine, under its lock and with no store
    /// call while the lock is held.
    Match { order: PendingOrder },
    /// Set the status of an order in the order store.
    UpdateStatus { order_id: i64, status: Status },
    /// Append a trade to the trade store.
    InsertTrade { card_id: i32, price: i32, buyorder_id: i64, sellorder_id: i64 },
    /// Return to the submitter.
    Finish { outcome: Outcome },
}

/// The end of a submission in failure.
pub open spec fn failed(error: ServiceError) -> (Submission, Command) {
    (Submission::Finished, Command::Finish { outcome: Outcome::Failed { error } })
}

/// The end of a submission in success.
pub open spec fn accepted() -> (Submission, Command) {
    (Submission::Finished, Command::Finish { outcome: Outcome::Accepted })
}

/// The first step of a submission. An order with a price out of range or
/// an unknown card ends at once, before any store is touched.
pub open spec fn spec_begin(trader_id: i64, side: Action, price: i32, card_id: i32) -> (
    Submission,
    Command,
) {
    if price_in_range(price) && spec_is_valid(card_id as int) {
        (
            Submission::CheckingTrader { trader_id, side, price, card_id },
            Command::LookUpTrader { trader_id },
        )
    } else {
        failed(ServiceError::InvalidInput)
    }
}

/// `reply` answers the command that led to `state`.
pub open spec fn awaits(state: Submission, reply: Reply) -> bool {
    match state {
        Submission::CheckingTrader { .. } => reply is Trader,
        Submission::InsertingOrder { .. } => reply is OrderInserted,
        Submission::Matching { .. } => reply is Matched,
        Submission::MarkingIncoming { .. } => reply is StatusUpdated,
        Submission::MarkingResting { .. } => reply is StatusUpdated,
        Submission::RecordingTrade { .. } => reply is TradeInserted,
        Submission::Finished => false,
    }
}

/// The step that follows `reply` in `state`, where `now` is the time at
/// which it is taken. Nothing is said of a reply that the state does not
/// await.
pub open spec fn spec_advance(state: Submission, reply: Reply, now: Timestamp) -> (
    Submission,
    Command,
) {
    match (state, reply) {
        (
            Submission::CheckingTrader { trader_id, side, price, card_id },
            Reply::Trader { found },
        ) => match found {
            Some(true) => (
                Submission::InsertingOrder { side, price, card_id },
                Command::InsertOrder {
                    new_order: NewOrder {
                        card_id,
                        price,
                        action: side,
                        status: status_code(Status::Pending),
                        trader_id,
                        created_at: now,
                    },
                },
            ),
            Some(false) => failed(ServiceError::TraderMissing),
            None => failed(ServiceError::Infrastructure { step: FailedStep::TraderLookup }),
        },
        (
            Submission::InsertingOrder { side, price, card_id },
            Reply::OrderInserted { order_id },
        ) => match order_id {
            Some(id) => {
                let order = PendingOrder { id, side, price, card_id };
                (Submission::Matching { order }, Command::Match { order })
            },
            None => failed(ServiceError::Infrastructure { step: FailedStep::InsertOrder }),
        },
        (Submission::Matching { order }, Reply::Matched { filled }) => match filled {
            Some(filled) => (
                Submission::MarkingIncoming { order_id: order.id, filled },
                Command::UpdateStatus { order_id: order.id, status: Status::Filled },
            ),
            None => accepted(),
        },
        (Submission::MarkingIncoming { order_id, filled }, Reply::StatusUpdated { done }) => if done {
            (
                Submission::MarkingResting { order_id, filled },
                Command::UpdateStatus { order_id: filled.first_order_id, status: Status::Filled },
            )
        } else {
            failed(
                ServiceError::Infrastructure { step: FailedStep::UpdateStatus { order_id } },
            )
        },
        (Submission::MarkingResting { order_id, filled }, Reply::StatusUpdated { done }) => if done {
            (
                Submission::RecordingTrade { order_id, filled },
                Command::InsertTrade {
                    card_id: filled.card_id,
                    price: filled.price,
                    buyorder_id: filled.buy_order,
                    sellorder_id: filled.sell_order,
                },
            )
        } else {
            failed(
                ServiceError::Infrastructure {
                    step: FailedStep::UpdateStatus { order_id: filled.first_order_id },
                },
            )
        },
        (Submission::RecordingTrade { order_id, filled }, Reply::TradeInserted { done }) => if done {
            accepted()
        } else {
            failed(ServiceError::Infrastructure { step: FailedStep::InsertTrade })
        },
        _ => arbitrary(),
    }
}

/// The order that the submission will offer, or offers, to the engine has
/// a price in range and names a tradable card.
pub open spec fn submission_wf(state: Submission) -> bool {
    match state {
        Submission::CheckingTrader { price, card_id, .. } => price_in_range(price)
            && spec_is_valid(card_id as int),
        Submission::InsertingOrder { price, card_id, .. } => price_in_range(price)
            && spec_is_valid(card_id as int),
        Submission::Matching { order } => price_in_range(order.price) && spec_is_valid(
            order.card_id as int,
        ),
        _ => true,
    }
}

/// How far the submission has come, as a number: each step takes it
/// further, so that a submission ends after six replies at most and its
/// commands come in one fixed order.
pub open spec fn stage(state: Submission) -> nat {
    match state {
        Submission::CheckingTrader { .. } => 0,
        Submission::InsertingOrder { .. } => 1,
        Submission::Matching { .. } => 2,
        Submission::MarkingIncoming { .. } => 3,
        Submission::MarkingResting { .. } => 4,
        Submission::RecordingTrade { .. } => 5,
        Submission::Finished => 6,
    }
}

/// The command is the one that the state waits on: the submission is
/// finished exactly where the command is to finish.
pub open spec fn command_fits(state: Submission, command: Command) -> bool {
    match state {
        Submission::CheckingTrader { .. } => command is LookUpTrader,
        Submission::InsertingOrder { .. } => command is InsertOrder,
        Submission::Matching { .. } => command is Match,
        Submission::MarkingIncoming { .. } => command is UpdateStatus,
        Submission::MarkingResting { .. } => command is UpdateStatus,
        Submission::RecordingTrade { .. } => command is InsertTrade,
        Submission::Finished => command is Finish,
    }
}

/// Starts the submission of an order: validates price and card, and asks
/// for the trader to be looked up.
pub fn begin(trader_id: i64, side: Action, price: i32, card_id: i32) -> (step: (
    Submission,
    Command,
))
    ensures
        step == spec_begin(trader_id, side, price, card_id),
        submission_wf(step.0),
        command_fits(step.0, step.1),
{
    if price >= MIN_PRICE && price <= MAX_PRICE && is_valid(card_id) {
        (
            Submission::CheckingTrader { trader_id, side, price, card_id },
            Command::LookUpTrader { trader_id },
        )
    } else {
        (
            Submission::Finished,
            Command::Finish { outcome: Outcome::Failed { error: ServiceError::InvalidInput } },
        )
    }
}

/// Tells whether `reply` answers the command that led to `state`.
pub fn answers(state: &Submission, reply: &Reply) -> (fits: bool)
    ensures
        fits == awaits(*state, *reply),
{
    match state {
        Submission::CheckingTrader { .. } => matches!(reply, Reply::Trader { .. }),
        Submission::InsertingOrder { .. } => matches!(reply, Reply::OrderInserted { .. }),
        Submission::Matching { .. } => matches!(reply, Reply::Matched { .. }),
        Submission::MarkingIncoming { .. } => matches!(reply, Reply::StatusUpdated { .. }),
        Submission::MarkingResting { .. } => matches!(reply, Reply::StatusUpdated { .. }),
        Submission::RecordingTrade { .. } => matches!(reply, Reply::TradeInserted { .. }),
        Submission::Finished => false,
    }
}

/// Ends a submission in failure.
fn fail(error: ServiceError) -> (step: (Submission, Command))
    ensures
        step == failed(error),
{
    (Submission::Finished, Command::Finish { outcome: Outcome::Failed { error } })
}

/// Takes the next step of a submission: `reply` is what the outside
/// reported for the last command, and `now` is the current time, which the
/// order carries into the store.
pub fn advance(state: Submission, reply: Reply, now: Timestamp) -> (step: (Submission, Command))
    requires
        awaits(state, reply),
    ensures
        step == spec_advance(state, reply, now),
        submission_wf(state) ==> submission_wf(step.0),
        stage(step.0) > stage(state),
        command_fits(step.0, step.1),
{
    match state {
        Submission::CheckingTrader { trader_id, side, price, card_id } => {
            match reply {
                Reply::Trader { found: Some(true) } => (
                    Submission::InsertingOrder { side, price, card_id },
                    Command::InsertOrder {
                        new_order: NewOrder {
                            card_id,
                            price,
                            action: side,
                            status: Status::Pending.code(),
                            trader_id,
                            created_at: now,
                        },
                    },
                ),
                Reply::Trader { found: Some(false) } => fail(ServiceError::TraderMissing),
                _ => fail(ServiceError::Infrastructure { step: FailedStep::TraderLookup }),
            }
        },
        Submission::InsertingOrder { side, price, card_id } => {
            match reply {
                Reply::OrderInserted { order_id: Some(id) } => {
                    let order = PendingOrder { id, side, price, card_id };
                    (Submission::Matching { order }, Command::Match { order })
                },
                _ => fail(ServiceError::Infrastructure { step: FailedStep::InsertOrder }),
            }
        },
        Submission::Matching { order } => {
            match reply {
                Reply::Matched { filled: Some(filled) } => (
                    Submission::MarkingIncoming { order_id: order.id, filled },
                    Command::UpdateStatus { order_id: order.id, status: Status::Filled },
                ),
                _ => (Submission::Finished, Command::Finish { outcome: Outcome::Accepted }),
            }
        },
        Submission::MarkingIncoming { order_id, filled } => {
            match reply {
                Reply::StatusUpdated { done: true } => (
                    Submission::MarkingResting { order_id, filled },
                    Command::UpdateStatus {
                        order_id: filled.first_order_id,
                        status: Status::Filled,
                    },
                ),
                _ => fail(
                    ServiceError::Infrastructure { step: FailedStep::UpdateStatus { order_id } },
                ),
            }
        },
        Submission::MarkingResting { order_id, filled } => {
            match reply {
                Reply::StatusUpdated { done: true } => (
                    Submission::RecordingTrade { order_id, filled },
                    Command::InsertTrade {
                        card_id: filled.card_id,
                        price: filled.price,
                        buyorder_id: filled.buy_order,
                        sellorder_id: filled.sell_order,
                    },
                ),
                _ => fail(
                    ServiceError::Infrastructure {
                        step: FailedStep::UpdateStatus { order_id: filled.first_order_id },
                    },
                ),
            }
        },
        Submission::RecordingTrade { order_id, filled } => {
            match reply {
                Reply::TradeInserted { done: true } => (
                    Submission::Finished,
                    Command::Finish { outcome: Outcome::Accepted },
                ),
                _ => fail(ServiceError::Infrastructure { step: FailedStep::InsertTrade }),
            }
        },
        Submission::Finished => unreached(),
    }
}

/// Takes the next step of a submission at the current time.
pub fn advance_now(state: Submission, reply: Reply) -> (step: (Submission, Command))
    requires
        awaits(state, reply),
    ensures
        exists|now: Timestamp| step == spec_advance(state, reply, now),
        submission_wf(state) ==> submission_wf(step.0),
        stage(step.0) > stage(state),
        command_fits(step.0, step.1),
{
    let now = current_time();
    advance(state, reply, now)
}

/// What the engine holds and what is to be done after the step that
/// follows `reply` in `state`, where the engine does its part at once: an
/// order that is ready for matching is submitted to `books`, and the step
/// after the engine's answer is taken.
pub open spec fn spec_advance_with_engine(
    books: Seq<Book>,
    state: Submission,
    reply: Reply,
    now: Timestamp,
) -> (Seq<Book>, (Submission, Command)) {
    let first = spec_advance(state, reply, now);
    match first.1 {
        Command::Match { order } => (
            submit_books(books, order),
            spec_advance(first.0, Reply::Matched { filled: submit_outcome(books, order) }, now),
        ),
        _ => (books, first),
    }
}

/// Tells whether the next step of the submission may need the engine.
pub fn needs_engine(state: &Submission) -> (needed: bool)
    ensures
        needed == (*state is InsertingOrder),
{
    matches!(state, Submission::InsertingOrder { .. })
}

/// Takes the next step of a submission and lets the engine do its part:
/// where the step asks for the order to be matched, the order is submitted
/// to `manager` and the step after that is taken. The caller holds the
/// engine's lock for this call alone, and never sees a `Match` command.
pub fn advance_with_engine(manager: &mut OrderManager, state: Submission, reply: Reply) -> (step:
    (Submission, Command))
    requires
        old(manager).wf(),
        submission_wf(state),
        awaits(state, reply),
    ensures
        final(manager).wf(),
        final(manager).last_id() == old(manager).last_id(),
        exists|now: Timestamp|
            (final(manager).books(), step) == spec_advance_with_engine(
                old(manager).books(),
                state,
                reply,
                now,
            ),
        submission_wf(step.0),
        stage(step.0) > stage(state),
        command_fits(step.0, step.1),
        !(step.1 is Match),
{
    let now = current_time();
    let first = advance(state, reply, now);
    let step = match first.1 {
        Command::Match { order } => {
            let filled = manager.add_order(order);
            advance(first.0, Reply::Matched { filled }, now)
        },
        _ => first,
    };
    assert((manager.books(), step) == spec_advance_with_engine(
        old(manager).books(),
        state,
        reply,
        now,
    ));
    step
}

} // verus!
