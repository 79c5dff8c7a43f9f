//! Arena battle engine: a deterministic turn-based territory-capture game
//! played between two untrusted, user-submitted strains, each running inside
//! an isolated execution sandbox.
//!
//! The engine owns the board model, per-turn legality, the perspective
//! normalization handed to each sandboxed strain, the turn scheduler with
//! skip and forfeit accounting, scoring, and the replayable battle log.

pub mod battle;
pub mod board;
pub mod legality;
pub mod perspective;
pub mod repo;
pub mod sandbox;
pub mod strategy;
pub mod wire;
pub mod errors;

pub use battle::{Battle, BattleLogEntry, BattleResult, TurnEvent, TurnOutcome};
pub use battle::{replay_log, run_battle};
pub use board::{Board, Player};
pub use errors::{ConfigurationError, OccupyError, ReplayError, SandboxError};
pub use repo::BattleRepository;
pub use sandbox::{BuiltinStrategy, StrainHandle, invoke, load_strain};

use vstd::prelude::*;

verus! {

/// The wire shape a strain receives on its turn: the full board in its own
/// canonical perspective, each cell tagged `Some(true)` for friendly,
/// `Some(false)` for enemy and `None` for empty, together with the
/// coordinates it may play into.
pub struct StrainInput {
    pub board: Vec<((i32, i32), Option<bool>)>,
    pub allowed: Vec<(i32, i32)>,
}

/// The wire shape of a strain's answer: the coordinate it plays, in the same
/// canonical perspective it was handed.
pub type StrainOutput = (i32, i32);

} // verus!
