//! The values exchanged with the durable stores.

use vstd::prelude::*;
pub use crate::model::Action;

verus! {

/// A UTC instant: whole seconds since the Unix epoch and the nanoseconds
/// past them.
#[derive(Debug, Clone, Copy, PartialEq, Eq, Structural)]
pub struct Timestamp {
    pub seconds: i64,
    pub nanos: u32,
}

/// `chrono::Utc::now`: the current time, as the seconds and nanoseconds
/// that `chrono` reports for it. Nothing is claimed of the value.
#[verifier::external_body]
pub(crate) fn current_time() -> (now: Timestamp) {
    let now = chrono::Utc::now();
    Timestamp { seconds: now.timestamp(), nanos: now.timestamp_subsec_nanos() }
}

/// The side that `text` names: `"buy"` or `"sell"`, in lower case.
pub open spec fn side_named(text: Seq<char>) -> Option<Action> {
    if text == "buy"@ {
        Some(Action::Buy)
    } else if text == "sell"@ {
        Some(Action::Sell)
    } else {
        None
    }
}

/// The number that stands for a side in the store.
pub open spec fn side_code(side: Action) -> i16 {
    match side {
        Action::Buy => 0,
        Action::Sell => 1,
    }
}

impl Action {
    /// Reads a side from its name: `"buy"` or `"sell"`; nothing else names
    /// a side.
    pub fn from_str(s: &str) -> (side: Option<Action>)
        ensures
            side == side_named(s@),
    {
        let text = s.to_owned();
        if text == "buy".to_owned() {
            Some(Action::Buy)
        } else if text == "sell".to_owned() {
            Some(Action::Sell)
        } else {
            None
        }
    }

    /// The number that stands for the side in the store: 0 for a buy, 1
    /// for a sell.
    pub fn code(&self) -> (code: i16)
        ensures
            code == side_code(*self),
    {
        match self {
            Action::Buy => 0,
            Action::Sell => 1,
        }
    }
}

/// The status of an order in the store.
#[derive(Debug, Clone, Copy, PartialEq, Eq, Structural)]
pub enum Status {
    Pending,
    Filled,
}

/// The number that stands for a status in the store.
pub open spec fn status_code(status: Status) -> i16 {
    match status {
        Status::Pending => 0,
        Status::Filled => 1,
    }
}

impl Status {
    /// The number that stands for the status in the store: 0 for pending,
    /// 1 for filled.
    pub fn code(&self) -> (code: i16)
        ensures
            code == status_code(*self),
    {
        match self {
            Status::Pending => 0,
            Status::Filled => 1,
        }
    }
}

/// An order as it is handed to the store for insertion.
#[derive(Debug, Clone, Copy, PartialEq, Eq, Structural)]
pub struct NewOrder {
    pub card_id: i32,
    pub price: i32,
    pub action: Action,
    /// The status as the store encodes it.
    pub status: i16,
    pub trader_id: i64,
    pub created_at: Timestamp,
}

/// A pending order as the store returns it.
#[derive(Debug, Clone, Copy, PartialEq, Eq, Structural)]
pub struct PendingOrder {
    pub id: i64,
    /// The side as the store encodes it.
    pub side: i16,
    pub price: i32,
    pub card_id: i32,
}

} // verus!
