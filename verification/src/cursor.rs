//! Position markers of the upstream source and the call context handed to the
//! sink with every batch.

use vstd::prelude::*;

verus! {

/// A position in the source sequence. `order_key` orders positions;
/// `unique_key` disambiguates positions sharing an `order_key` and is used for
/// equality only, never for ordering.
pub struct Cursor {
    pub order_key: u64,
    pub unique_key: Vec<u8>,
}

/// How final the data of a batch is. The engine is agnostic to it; it is
/// carried through as metadata only.
#[derive(Clone, Copy, Debug, PartialEq, Eq, Structural)]
pub enum Finality {
    Pending,
    Accepted,
    Finalized,
}

/// The position markers of one batch: the previous position (absent at
/// genesis), the new position produced by the batch, and its finality.
pub struct Context {
    pub cursor: Option<Cursor>,
    pub end_cursor: Cursor,
    pub finality: Finality,
}

/// What the caller should do with its resume point after a successful
/// `handle_data`: always persist `end_cursor`. Malformed or empty input is
/// not fatal and still yields `Persist`.
#[derive(Clone, Copy, Debug, PartialEq, Eq, Structural)]
pub enum CursorAction {
    Persist,
}

/// The rollback position that an optional new head stands for: its
/// `order_key` when present, and genesis (`0`) when absent.
pub open spec fn spec_effective_rollback_key(new_head: Option<Cursor>) -> u64 {
    match new_head {
        Some(c) => c.order_key,
        None => 0,
    }
}

/// Resolves an optional new head to the rollback position it stands for.
pub fn effective_rollback_key(new_head: &Option<Cursor>) -> (r: u64)
    ensures
        r == spec_effective_rollback_key(*new_head),
{
    match new_head {
        Some(c) => c.order_key,
        None => 0,
    }
}

} // verus!
