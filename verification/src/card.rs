//! The registry of tradable cards.

use vstd::prelude::*;

verus! {

/// Number of tradable cards. Card ids are `0..NUM_CARDS`.
pub const NUM_CARDS: usize = 4;

/// Whether `id` names a tradable card.
pub open spec fn spec_is_valid(id: int) -> bool {
    0 <= id < NUM_CARDS
}

/// Tells whether `id` names a tradable card.
pub fn is_valid(id: i32) -> (valid: bool)
    ensures
        valid == spec_is_valid(id as int),
{
    id >= 0 && (id as usize) < NUM_CARDS
}

} // verus!
