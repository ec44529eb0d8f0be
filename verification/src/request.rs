//! Validation at the boundary: what is checked of a request before any
//! store is touched.

use vstd::prelude::*;
use crate::card::{is_valid, spec_is_valid};
use crate::ports::{side_named, Action};

verus! {

/// The lowest price of a new order, in cents.
pub const MIN_PRICE: i32 = 100;

/// The highest price of a new order, in cents.
pub const MAX_PRICE: i32 = 1000;

/// The number of rows that a query returns where the caller names none.
pub const DEFAULT_LIMIT: i64 = 50;

/// Why a new order is refused before it reaches the stores.
#[derive(Debug, Clone, Copy, PartialEq, Eq, Structural)]
pub enum RequestError {
    /// The side is neither `"buy"` nor `"sell"`.
    InvalidSide,
    /// The price is below `MIN_PRICE` or above `MAX_PRICE`.
    PriceOutOfRange,
    /// The card id names no tradable card.
    InvalidCard,
}

/// Why a query is refused or fails.
#[derive(Debug, Clone, Copy, PartialEq, Eq, Structural)]
pub enum QueryError {
    /// The trader does not exist: a bad request.
    TraderMissing,
    /// The card id names no tradable card: nothing is found.
    CardNotFound,
    /// A store failed, or could not tell.
    Infrastructure,
}

/// The price is one that a new order may have.
pub open spec fn price_in_range(price: i32) -> bool {
    MIN_PRICE <= price <= MAX_PRICE
}

/// What the validation of a new order gives: the side is checked first,
/// then the price, then the card.
pub open spec fn validated(side: Seq<char>, price: i32, card_id: i32) -> Result<
    Action,
    RequestError,
> {
    match side_named(side) {
        None => Err(RequestError::InvalidSide),
        Some(action) => if !price_in_range(price) {
            Err(RequestError::PriceOutOfRange)
        } else if !spec_is_valid(card_id as int) {
            Err(RequestError::InvalidCard)
        } else {
            Ok(action)
        },
    }
}

/// Validates a new order as it arrives: the name of its side, its price and
/// its card. Gives the side, or the first check that failed.
pub fn validate_order(side: &str, price: i32, card_id: i32) -> (checked: Result<
    Action,
    RequestError,
>)
    ensures
        checked == validated(side@, price, card_id),
{
    match Action::from_str(side) {
        None => Err(RequestError::InvalidSide),
        Some(action) => {
            if price < MIN_PRICE || price > MAX_PRICE {
                Err(RequestError::PriceOutOfRange)
            } else if !is_valid(card_id) {
                Err(RequestError::InvalidCard)
            } else {
                Ok(action)
            }
        },
    }
}

/// What the trader lookup means for a query: a trader that is known not
/// to exist is a bad request; a store that could not tell has failed.
pub open spec fn trader_checked(found: Option<bool>) -> Result<(), QueryError> {
    match found {
        Some(true) => Ok(()),
        Some(false) => Err(QueryError::TraderMissing),
        None => Err(QueryError::Infrastructure),
    }
}

/// What the card id means for a query: an id that names no card finds
/// nothing.
pub open spec fn card_checked(card_id: i32) -> Result<(), QueryError> {
    if spec_is_valid(card_id as int) {
        Ok(())
    } else {
        Err(QueryError::CardNotFound)
    }
}

/// The caller's limit, or `DEFAULT_LIMIT` where there is none.
pub open spec fn limit_or_default(limit: Option<i64>) -> i64 {
    match limit {
        Some(n) => n,
        None => DEFAULT_LIMIT,
    }
}

/// Decides from the trader lookup whether the trader's orders may be
/// queried. A store that could not tell is a failure of the store, never a
/// missing trader.
pub fn check_trader(found: Option<bool>) -> (checked: Result<(), QueryError>)
    ensures
        checked == trader_checked(found),
{
    match found {
        Some(true) => Ok(()),
        Some(false) => Err(QueryError::TraderMissing),
        None => Err(QueryError::Infrastructure),
    }
}

/// Decides whether the trades of a card may be queried.
pub fn check_card(card_id: i32) -> (checked: Result<(), QueryError>)
    ensures
        checked == card_checked(card_id),
{
    if is_valid(card_id) {
        Ok(())
    } else {
        Err(QueryError::CardNotFound)
    }
}

/// The number of rows to ask a store for: the caller's, or `DEFAULT_LIMIT`.
pub fn page_limit(limit: Option<i64>) -> (rows: i64)
    ensures
        rows == limit_or_default(limit),
{
    match limit {
        Some(n) => n,
        None => DEFAULT_LIMIT,
    }
}

} // verus!
