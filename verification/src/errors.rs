//! Error taxonomy of the battle engine.
//!
//! Configuration problems are reported to the caller; sandbox failures are
//! absorbed by the turn scheduler and degrade to a skipped turn; occupancy
//! errors report why a cell could not be taken.

use vstd::prelude::*;

verus! {

/// A battle could not be configured.
#[derive(Clone, Copy, Debug, PartialEq, Eq, Structural)]
pub enum ConfigurationError {
    /// The requested arena size is below 2 (the two seed cells would collide
    /// or fall outside the grid) or so large that the cell count would not
    /// fit the score type.
    InvalidArenaSize,
    /// The per-round move budget is zero or above the supported maximum.
    InvalidMoveBudget,
}

/// A cell could not be occupied.
#[derive(Clone, Copy, Debug, PartialEq, Eq, Structural)]
pub enum OccupyError {
    /// The coordinate lies outside the arena.
    OutOfBounds,
    /// The cell is already owned by a player.
    AlreadyOccupied,
}

/// A sandboxed strain invocation failed. All variants are non-fatal: the
/// scheduler treats them like a skipped turn.
#[derive(Clone, Copy, Debug, PartialEq, Eq, Structural)]
pub enum SandboxError {
    /// The execution capability could not instantiate the strain's code.
    LoadFailure,
    /// The invocation itself raised or trapped.
    CallFailure,
    /// The response did not deserialize to a coordinate.
    MalformedResponse,
}

/// A battle log could not be replayed onto a fresh board.
#[derive(Clone, Copy, Debug, PartialEq, Eq, Structural)]
pub enum ReplayError {
    /// The recorded arena size is invalid.
    InvalidArenaSize,
    /// An applied entry targets a cell that is out of bounds or already
    /// occupied at its point in the log.
    InconsistentEntry,
}

} // verus!
