use card_exchange::order_manager::{Action, FilledOrder, OrderManager, PendingOrder};
use card_exchange::order_service::{
    advance, advance_now, advance_with_engine, answers, begin, needs_engine, Command, FailedStep,
    Outcome, Reply, ServiceError, Submission,
};
use card_exchange::ports::{NewOrder, Status, Timestamp};
use card_exchange::request::{
    check_card, check_trader, page_limit, validate_order, QueryError, RequestError, DEFAULT_LIMIT,
    MAX_PRICE, MIN_PRICE,
};

const NOON: Timestamp = Timestamp { seconds: 1_700_000_000, nanos: 5 };

fn failed(error: ServiceError) -> (Submission, Command) {
    (Submission::Finished, Command::Finish { outcome: Outcome::Failed { error } })
}

fn accepted() -> (Submission, Command) {
    (Submission::Finished, Command::Finish { outcome: Outcome::Accepted })
}

#[test]
fn sides_are_named_in_lower_case() {
    assert_eq!(Action::from_str("buy"), Some(Action::Buy));
    assert_eq!(Action::from_str("sell"), Some(Action::Sell));
    assert_eq!(Action::from_str("Buy"), None);
    assert_eq!(Action::from_str("SELL"), None);
    assert_eq!(Action::from_str(""), None);
    assert_eq!(Action::from_str("buy "), None);
    assert_eq!(Action::from_str("hold"), None);
}

#[test]
fn sides_and_statuses_have_their_store_codes() {
    assert_eq!(Action::Buy.code(), 0);
    assert_eq!(Action::Sell.code(), 1);
    assert_eq!(Status::Pending.code(), 0);
    assert_eq!(Status::Filled.code(), 1);
}

#[test]
fn price_bounds_are_inclusive() {
    assert_eq!(MIN_PRICE, 100);
    assert_eq!(MAX_PRICE, 1000);
    assert_eq!(validate_order("buy", 99, 0), Err(RequestError::PriceOutOfRange));
    assert_eq!(validate_order("buy", 100, 0), Ok(Action::Buy));
    assert_eq!(validate_order("sell", 1000, 0), Ok(Action::Sell));
    assert_eq!(validate_order("sell", 1001, 0), Err(RequestError::PriceOutOfRange));
}

#[test]
fn card_bounds_are_checked() {
    assert_eq!(validate_order("buy", 500, 4), Err(RequestError::InvalidCard));
    assert_eq!(validate_order("buy", 500, 3), Ok(Action::Buy));
    assert_eq!(validate_order("buy", 500, -1), Err(RequestError::InvalidCard));
}

#[test]
fn the_side_is_checked_first_then_the_price() {
    assert_eq!(validate_order("hold", 99, 9), Err(RequestError::InvalidSide));
    assert_eq!(validate_order("buy", 99, 9), Err(RequestError::PriceOutOfRange));
    assert_eq!(validate_order("buy", 100, 9), Err(RequestError::InvalidCard));
}

#[test]
fn queries_are_gated_by_trader_and_card() {
    assert_eq!(check_trader(Some(true)), Ok(()));
    assert_eq!(check_trader(Some(false)), Err(QueryError::TraderMissing));
    assert_eq!(check_trader(None), Err(QueryError::Infrastructure));
    assert_eq!(check_card(0), Ok(()));
    assert_eq!(check_card(3), Ok(()));
    assert_eq!(check_card(4), Err(QueryError::CardNotFound));
    assert_eq!(check_card(-1), Err(QueryError::CardNotFound));
}

#[test]
fn queries_return_fifty_rows_by_default() {
    assert_eq!(DEFAULT_LIMIT, 50);
    assert_eq!(page_limit(None), 50);
    assert_eq!(page_limit(Some(7)), 7);
    assert_eq!(page_limit(Some(0)), 0);
}

#[test]
fn invalid_input_ends_before_any_store_is_touched() {
    assert_eq!(begin(1, Action::Buy, 99, 0), failed(ServiceError::InvalidInput));
    assert_eq!(begin(1, Action::Buy, 1001, 0), failed(ServiceError::InvalidInput));
    assert_eq!(begin(1, Action::Buy, 100, 4), failed(ServiceError::InvalidInput));
    assert_eq!(begin(1, Action::Buy, 100, -1), failed(ServiceError::InvalidInput));
}

#[test]
fn a_submission_starts_with_the_trader_lookup() {
    assert_eq!(
        begin(-5, Action::Sell, 1000, 3),
        (
            Submission::CheckingTrader { trader_id: -5, side: Action::Sell, price: 1000, card_id: 3 },
            Command::LookUpTrader { trader_id: -5 }
        )
    );
}

#[test]
fn a_missing_trader_is_not_a_store_failure() {
    let (state, _) = begin(7, Action::Buy, 100, 0);
    assert_eq!(
        advance(state, Reply::Trader { found: Some(false) }, NOON),
        failed(ServiceError::TraderMissing)
    );
    assert_eq!(
        advance(state, Reply::Trader { found: None }, NOON),
        failed(ServiceError::Infrastructure { step: FailedStep::TraderLookup })
    );
}

#[test]
fn a_known_trader_has_the_order_inserted_as_pending() {
    let (state, _) = begin(7, Action::Sell, 250, 2);
    assert_eq!(
        advance(state, Reply::Trader { found: Some(true) }, NOON),
        (
            Submission::InsertingOrder { side: Action::Sell, price: 250, card_id: 2 },
            Command::InsertOrder {
                new_order: NewOrder {
                    card_id: 2,
                    price: 250,
                    action: Action::Sell,
                    status: 0,
                    trader_id: 7,
                    created_at: NOON,
                }
            }
        )
    );
}

#[test]
fn a_failed_insertion_ends_the_submission() {
    let state = Submission::InsertingOrder { side: Action::Buy, price: 100, card_id: 0 };
    assert_eq!(
        advance(state, Reply::OrderInserted { order_id: None }, NOON),
        failed(ServiceError::Infrastructure { step: FailedStep::InsertOrder })
    );
}

#[test]
fn an_inserted_order_is_offered_to_the_engine_under_its_id() {
    let state = Submission::InsertingOrder { side: Action::Buy, price: 100, card_id: 1 };
    let order = PendingOrder { id: 12, side: Action::Buy, price: 100, card_id: 1 };
    assert_eq!(
        advance(state, Reply::OrderInserted { order_id: Some(12) }, NOON),
        (Submission::Matching { order }, Command::Match { order })
    );
}

#[test]
fn an_order_that_rests_is_accepted() {
    let order = PendingOrder { id: 12, side: Action::Buy, price: 100, card_id: 1 };
    assert_eq!(
        advance(Submission::Matching { order }, Reply::Matched { filled: None }, NOON),
        accepted()
    );
}

#[test]
fn a_match_marks_both_orders_and_records_the_trade() {
    let order = PendingOrder { id: 12, side: Action::Sell, price: 100, card_id: 1 };
    let filled =
        FilledOrder { buy_order: 3, sell_order: 12, price: 120, card_id: 1, first_order_id: 3 };
    let (state, command) =
        advance(Submission::Matching { order }, Reply::Matched { filled: Some(filled) }, NOON);
    assert_eq!(state, Submission::MarkingIncoming { order_id: 12, filled });
    assert_eq!(command, Command::UpdateStatus { order_id: 12, status: Status::Filled });
    let (state, command) = advance(state, Reply::StatusUpdated { done: true }, NOON);
    assert_eq!(state, Submission::MarkingResting { order_id: 12, filled });
    assert_eq!(command, Command::UpdateStatus { order_id: 3, status: Status::Filled });
    let (state, command) = advance(state, Reply::StatusUpdated { done: true }, NOON);
    assert_eq!(state, Submission::RecordingTrade { order_id: 12, filled });
    assert_eq!(
        command,
        Command::InsertTrade { card_id: 1, price: 120, buyorder_id: 3, sellorder_id: 12 }
    );
    assert_eq!(advance(state, Reply::TradeInserted { done: true }, NOON), accepted());
}

#[test]
fn a_failed_store_call_after_a_match_names_its_step() {
    let filled =
        FilledOrder { buy_order: 3, sell_order: 12, price: 120, card_id: 1, first_order_id: 3 };
    assert_eq!(
        advance(
            Submission::MarkingIncoming { order_id: 12, filled },
            Reply::StatusUpdated { done: false },
            NOON
        ),
        failed(ServiceError::Infrastructure { step: FailedStep::UpdateStatus { order_id: 12 } })
    );
    assert_eq!(
        advance(
            Submission::MarkingResting { order_id: 12, filled },
            Reply::StatusUpdated { done: false },
            NOON
        ),
        failed(ServiceError::Infrastructure { step: FailedStep::UpdateStatus { order_id: 3 } })
    );
    assert_eq!(
        advance(
            Submission::RecordingTrade { order_id: 12, filled },
            Reply::TradeInserted { done: false },
            NOON
        ),
        failed(ServiceError::Infrastructure { step: FailedStep::InsertTrade })
    );
}

#[test]
fn the_reserved_error_differs_from_the_others() {
    assert_ne!(ServiceError::Conflict, ServiceError::InvalidInput);
    assert_ne!(ServiceError::Conflict, ServiceError::TraderMissing);
}

#[test]
fn the_order_carries_the_current_time() {
    let (state, _) = begin(7, Action::Buy, 100, 0);
    let (next, command) = advance_now(state, Reply::Trader { found: Some(true) });
    assert_eq!(next, Submission::InsertingOrder { side: Action::Buy, price: 100, card_id: 0 });
    match command {
        Command::InsertOrder { new_order: order } => {
            assert_eq!(order.card_id, 0);
            assert_eq!(order.price, 100);
            assert_eq!(order.action, Action::Buy);
            assert_eq!(order.status, 0);
            assert_eq!(order.trader_id, 7);
            // Well after the year 2020.
            assert!(order.created_at.seconds > 1_577_836_800);
            assert!(order.created_at.nanos < 2_000_000_000);
        }
        other => panic!("unexpected command {:?}", other),
    }
}

/// Runs one submission against an engine, with stores that always succeed
/// and hand out `order_id`. Returns the commands in the order given.
fn submit(
    manager: &mut OrderManager,
    order_id: i64,
    trader_id: i64,
    side: Action,
    price: i32,
    card_id: i32,
) -> Vec<Command> {
    let mut commands = Vec::new();
    let (mut state, mut command) = begin(trader_id, side, price, card_id);
    loop {
        commands.push(command);
        let reply = match command {
            Command::LookUpTrader { trader_id } => Reply::Trader { found: Some(trader_id >= 0) },
            Command::InsertOrder { .. } => Reply::OrderInserted { order_id: Some(order_id) },
            Command::Match { order } => Reply::Matched { filled: manager.add_order(order) },
            Command::UpdateStatus { .. } => Reply::StatusUpdated { done: true },
            Command::InsertTrade { .. } => Reply::TradeInserted { done: true },
            Command::Finish { .. } => return commands,
        };
        let step = advance(state, reply, NOON);
        state = step.0;
        command = step.1;
    }
}

#[test]
fn test_add_order() {
    // Stores that always succeed and give every order the id 1.
    let mut manager = OrderManager::new();
    let first = submit(&mut manager, 1, 1, Action::Buy, 100, 1);
    let second = submit(&mut manager, 1, 2, Action::Sell, 100, 1);
    assert_eq!(first.last(), Some(&Command::Finish { outcome: Outcome::Accepted }));
    assert_eq!(second.last(), Some(&Command::Finish { outcome: Outcome::Accepted }));
    let all: Vec<Command> = first.into_iter().chain(second).collect();
    let count = |wanted: fn(&Command) -> bool| all.iter().filter(|c| wanted(c)).count();
    assert_eq!(count(|c| matches!(c, Command::LookUpTrader { .. })), 2);
    assert_eq!(count(|c| matches!(c, Command::InsertOrder { .. })), 2);
    assert_eq!(count(|c| matches!(c, Command::UpdateStatus { .. })), 2);
    assert_eq!(count(|c| matches!(c, Command::InsertTrade { .. })), 1);
}

#[test]
fn a_match_runs_the_whole_pipeline_in_order() {
    let mut manager = OrderManager::new();
    let first = submit(&mut manager, 1, 1, Action::Buy, 100, 1);
    assert_eq!(first.len(), 4);
    assert_eq!(first[3], Command::Finish { outcome: Outcome::Accepted });
    let second = submit(&mut manager, 2, 2, Action::Sell, 100, 1);
    assert_eq!(second[0], Command::LookUpTrader { trader_id: 2 });
    assert!(matches!(second[1], Command::InsertOrder { .. }));
    assert_eq!(
        second[2..].to_vec(),
        vec![
            Command::Match {
                order: PendingOrder { id: 2, side: Action::Sell, price: 100, card_id: 1 }
            },
            Command::UpdateStatus { order_id: 2, status: Status::Filled },
            Command::UpdateStatus { order_id: 1, status: Status::Filled },
            Command::InsertTrade { card_id: 1, price: 100, buyorder_id: 1, sellorder_id: 2 },
            Command::Finish { outcome: Outcome::Accepted },
        ]
    );
}

#[test]
fn a_negative_trader_id_is_refused_by_the_trader_store_only() {
    let mut manager = OrderManager::new();
    let commands = submit(&mut manager, 1, -1, Action::Buy, 100, 0);
    assert_eq!(
        commands,
        vec![
            Command::LookUpTrader { trader_id: -1 },
            Command::Finish { outcome: Outcome::Failed { error: ServiceError::TraderMissing } },
        ]
    );
}

#[test]
fn replies_are_told_from_those_that_do_not_fit() {
    let (state, _) = begin(7, Action::Buy, 100, 0);
    assert!(answers(&state, &Reply::Trader { found: None }));
    assert!(!answers(&state, &Reply::StatusUpdated { done: true }));
    assert!(!answers(&Submission::Finished, &Reply::Trader { found: Some(true) }));
    let inserting = Submission::InsertingOrder { side: Action::Buy, price: 100, card_id: 0 };
    assert!(answers(&inserting, &Reply::OrderInserted { order_id: None }));
    assert!(!answers(&inserting, &Reply::Matched { filled: None }));
}

#[test]
fn the_engine_is_needed_once_the_order_has_its_id() {
    let (state, _) = begin(7, Action::Buy, 100, 0);
    assert!(!needs_engine(&state));
    assert!(needs_engine(&Submission::InsertingOrder {
        side: Action::Buy,
        price: 100,
        card_id: 0
    }));
    assert!(!needs_engine(&Submission::Finished));
}

#[test]
fn the_engine_matches_within_one_step() {
    let mut manager = OrderManager::new();
    let inserting = Submission::InsertingOrder { side: Action::Buy, price: 100, card_id: 2 };
    // The first order comes to rest: the submission is accepted at once.
    assert_eq!(
        advance_with_engine(&mut manager, inserting, Reply::OrderInserted { order_id: Some(1) }),
        accepted()
    );
    // The second matches it: the next command marks the incoming order.
    let inserting = Submission::InsertingOrder { side: Action::Sell, price: 100, card_id: 2 };
    let filled =
        FilledOrder { buy_order: 1, sell_order: 2, price: 100, card_id: 2, first_order_id: 1 };
    assert_eq!(
        advance_with_engine(&mut manager, inserting, Reply::OrderInserted { order_id: Some(2) }),
        (
            Submission::MarkingIncoming { order_id: 2, filled },
            Command::UpdateStatus { order_id: 2, status: Status::Filled }
        )
    );
    // The matched order has left the book.
    assert!(manager
        .add_order(PendingOrder { id: 3, side: Action::Sell, price: 100, card_id: 2 })
        .is_none());
}

#[test]
fn a_failed_insertion_leaves_the_engine_alone() {
    let mut manager = OrderManager::new();
    let inserting = Submission::InsertingOrder { side: Action::Buy, price: 100, card_id: 0 };
    assert_eq!(
        advance_with_engine(&mut manager, inserting, Reply::OrderInserted { order_id: None }),
        failed(ServiceError::Infrastructure { step: FailedStep::InsertOrder })
    );
    assert!(manager
        .add_order(PendingOrder { id: 1, side: Action::Sell, price: 100, card_id: 0 })
        .is_none());
}
