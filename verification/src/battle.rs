//! The turn scheduler and replay log of one battle.
//!
//! A battle alternates rounds of a fixed per-round move budget `M` between
//! the two players, starting with player A. Every move slot either applies
//! a legal move, records an illegal proposal, or records a skip; a run of
//! `2 * M` consecutive slots without an applied move ends the battle. The
//! log of slots is append-only and replaying its applied entries from the
//! seeded board deterministically reconstructs the final board.

use vstd::prelude::*;

use crate::board::{
    Board, Player, cell_at, cell_index, count_cells, in_bounds, seeded_cells, valid_arena_size,
};
use crate::errors::{ConfigurationError, ReplayError};
use crate::board::{lemma_count_cells_bounds, lemma_count_cells_update};
use crate::legality::{allowed_cell, allowed_moves, is_allowed, some_move_allowed};
use crate::sandbox::{StrainHandle, fresh_battle_id, invoke};
use crate::perspective::{
    build_view, lemma_view_coord_in_bounds, lemma_view_coord_involutive,
    lemma_view_origin_friendly, transform_coord, view_cell, view_coord,
};
use crate::StrainInput;

verus! {

/// Largest supported per-round move budget; keeps the skip counter and the
/// turn arithmetic comfortably within machine integers.
pub const MAX_MOVE_BUDGET: usize = 1000000;

/// A per-round move budget the engine accepts.
pub open spec fn valid_move_budget(m: int) -> bool {
    1 <= m <= MAX_MOVE_BUDGET
}

/// What one move slot of a battle produced.
#[derive(Clone, Copy, Debug, PartialEq, Eq, Structural)]
pub enum TurnOutcome {
    /// A legal move, in board coordinates; it was applied to the board.
    Applied(i32, i32),
    /// No sandbox call was made (no legal move existed) or the call failed.
    Skipped,
    /// The strain answered with a coordinate that was not a legal move, in
    /// the strain's own view coordinates. The board is unchanged.
    Illegal(i32, i32),
}

/// One slot of the replay log.
#[derive(Clone, Copy, Debug, PartialEq, Eq, Structural)]
pub struct BattleLogEntry {
    /// Position of this entry in the log, in chronological order.
    pub turn_index: usize,
    /// The player whose slot this was.
    pub player: Player,
    /// What the slot produced.
    pub outcome: TurnOutcome,
}

/// What a sandbox invocation (or its absence) reported for one move slot.
#[derive(Clone, Copy, Debug, PartialEq, Eq, Structural)]
pub enum TurnEvent {
    /// The player had no legal move, so no sandbox call was made.
    NoMoves,
    /// The sandbox call failed (load, call or decode failure).
    Failure,
    /// The strain answered with a coordinate, in its own view coordinates.
    Response(i32, i32),
}

/// The player that owns move slot `t`: rounds of `m` consecutive slots,
/// player A first.
pub open spec fn current_player_at(t: int, m: int) -> Player {
    if (t / m) % 2 == 0 {
        Player::A
    } else {
        Player::B
    }
}

/// Apply one log entry to a row-major cell sequence. Only `Applied` entries
/// change the board; an applied entry is consistent only when it targets an
/// in-bounds empty cell.
pub open spec fn apply_entry(
    size: int,
    cells: Seq<Option<Player>>,
    e: BattleLogEntry,
) -> Option<Seq<Option<Player>>> {
    match e.outcome {
        TurnOutcome::Applied(x, y) => {
            if in_bounds(size, x as int, y as int) && cell_at(size, cells, x as int, y as int)
                is None {
                Some(cells.update(cell_index(size, x as int, y as int), Some(e.player)))
            } else {
                None
            }
        },
        TurnOutcome::Skipped => Some(cells),
        TurnOutcome::Illegal(_, _) => Some(cells),
    }
}

/// Replay a log from the seeded board: the board the battle reached, or
/// `None` when some applied entry is inconsistent with the board state at
/// its point in the log.
pub open spec fn replay(size: int, log: Seq<BattleLogEntry>) -> Option<Seq<Option<Player>>>
    decreases log.len(),
{
    if log.len() == 0 {
        Some(seeded_cells(size))
    } else {
        match replay(size, log.drop_last()) {
            None => None,
            Some(cells) => apply_entry(size, cells, log.last()),
        }
    }
}

/// The number of consecutive slots without an applied move at the end of
/// the log.
pub open spec fn consec_skips(log: Seq<BattleLogEntry>) -> int
    decreases log.len(),
{
    if log.len() == 0 {
        0
    } else if log.last().outcome is Applied {
        0
    } else {
        1 + consec_skips(log.drop_last())
    }
}

/// A log the scheduler can produce: entries are numbered chronologically,
/// each belongs to the player whose slot it is, applied moves were legal on
/// the board reached by the preceding entries, and illegal entries record a
/// proposal that was indeed not legal while some legal move existed.
pub open spec fn valid_trace(size: int, m: int, log: Seq<BattleLogEntry>) -> bool
    decreases log.len(),
{
    if log.len() == 0 {
        true
    } else {
        let prefix = log.drop_last();
        let e = log.last();
        valid_trace(size, m, prefix) && match replay(size, prefix) {
            None => false,
            Some(cells) => {
                &&& e.turn_index == log.len() - 1
                &&& e.player == current_player_at(log.len() - 1, m)
                &&& match e.outcome {
                    TurnOutcome::Applied(x, y) => allowed_cell(
                        size,
                        cells,
                        x as int,
                        y as int,
                        e.player,
                    ),
                    TurnOutcome::Illegal(vx, vy) => {
                        let rc = view_coord(size, e.player, vx as int, vy as int);
                        some_move_allowed(size, cells, e.player) && !allowed_cell(
                            size,
                            cells,
                            rc.0,
                            rc.1,
                            e.player,
                        )
                    },
                    TurnOutcome::Skipped => true,
                }
            },
        }
    }
}

/// A replayable log always reproduces a full board.
pub proof fn lemma_replay_len(size: int, log: Seq<BattleLogEntry>)
    requires
        valid_arena_size(size),
        replay(size, log) is Some,
    ensures
        replay(size, log).unwrap().len() == size * size,
    decreases log.len(),
{
    if log.len() == 0 {
        assert(size * size >= 0) by (nonlinear_arith)
            requires
                size >= 2,
        ;
        assert(seeded_cells(size).len() == size * size);
    } else {
        lemma_replay_len(size, log.drop_last());
        let cells = replay(size, log.drop_last()).unwrap();
        match log.last().outcome {
            TurnOutcome::Applied(x, y) => {
                crate::board::lemma_cell_index_bounds(size, x as int, y as int);
                assert(replay(size, log).unwrap() == cells.update(
                    cell_index(size, x as int, y as int),
                    Some(log.last().player),
                ));
            },
            TurnOutcome::Skipped => {},
            TurnOutcome::Illegal(_, _) => {},
        }
    }
}

/// If a log replays, so does each of its prefixes.
pub proof fn lemma_replay_prefix(size: int, log: Seq<BattleLogEntry>, j: int)
    requires
        replay(size, log) is Some,
        0 <= j <= log.len(),
    ensures
        replay(size, log.take(j)) is Some,
    decreases log.len(),
{
    if j == log.len() {
        assert(log.take(j) =~= log);
    } else if log.len() > 0 {
        assert(log.drop_last().take(j) =~= log.take(j));
        lemma_replay_prefix(size, log.drop_last(), j);
    }
}

/// The board fills monotonically: replaying one more entry never empties an
/// owned cell and never changes its owner, so cells only ever go from empty
/// to owned.
pub proof fn lemma_board_fills_monotonically(size: int, log: Seq<BattleLogEntry>)
    requires
        valid_arena_size(size),
        log.len() > 0,
        replay(size, log) is Some,
    ensures
        replay(size, log.drop_last()) is Some,
        forall|i: int|
            0 <= i < replay(size, log.drop_last()).unwrap().len() && (#[trigger] replay(
                size,
                log.drop_last(),
            ).unwrap()[i]) is Some ==> replay(size, log).unwrap()[i] == replay(
                size,
                log.drop_last(),
            ).unwrap()[i],
{
    let prev = replay(size, log.drop_last()).unwrap();
    lemma_replay_len(size, log.drop_last());
    match log.last().outcome {
        TurnOutcome::Applied(x, y) => {
            crate::board::lemma_cell_index_bounds(size, x as int, y as int);
            assert(prev[cell_index(size, x as int, y as int)] is None);
        },
        TurnOutcome::Skipped => {},
        TurnOutcome::Illegal(_, _) => {},
    }
}

/// The full state the battle engine keeps for one running battle, as a
/// mathematical value.
pub ghost struct BattleModel {
    pub id: u128,
    pub strain_a: u128,
    pub strain_b: u128,
    pub size: int,
    pub m: int,
    pub board: Seq<Option<Player>>,
    pub log: Seq<BattleLogEntry>,
    pub skips: int,
    pub finished: bool,
}

/// The scheduler's invariant over a battle state.
pub open spec fn battle_inv(bm: BattleModel) -> bool {
    &&& valid_arena_size(bm.size)
    &&& valid_move_budget(bm.m)
    &&& bm.board.len() == bm.size * bm.size
    &&& replay(bm.size, bm.log) == Some(bm.board)
    &&& valid_trace(bm.size, bm.m, bm.log)
    &&& cell_at(bm.size, bm.board, 0, 0) == Some(Player::A)
    &&& cell_at(bm.size, bm.board, bm.size - 1, bm.size - 1) == Some(Player::B)
    &&& bm.skips == consec_skips(bm.log)
    &&& 0 <= bm.skips <= 2 * bm.m
    &&& (bm.finished <==> bm.skips == 2 * bm.m)
}

/// The outcome the scheduler records for an event reported on a slot of
/// player `p`: a response is de-normalized through the player's perspective
/// and judged against the allowed set; everything else is a skip.
pub open spec fn outcome_for(
    size: int,
    cells: Seq<Option<Player>>,
    p: Player,
    ev: TurnEvent,
) -> TurnOutcome {
    match ev {
        TurnEvent::NoMoves => TurnOutcome::Skipped,
        TurnEvent::Failure => TurnOutcome::Skipped,
        TurnEvent::Response(vx, vy) => {
            let rc = view_coord(size, p, vx as int, vy as int);
            if allowed_cell(size, cells, rc.0, rc.1, p) {
                TurnOutcome::Applied(rc.0 as i32, rc.1 as i32)
            } else {
                TurnOutcome::Illegal(vx, vy)
            }
        },
    }
}

/// One battle in progress: board, log and skip accounting.
#[derive(Debug)]
pub struct Battle {
    id: u128,
    strain_a: u128,
    strain_b: u128,
    board: Board,
    m: usize,
    log: Vec<BattleLogEntry>,
    skips: usize,
    finished: bool,
}

impl View for Battle {
    type V = BattleModel;

    closed spec fn view(&self) -> BattleModel {
        BattleModel {
            id: self.id,
            strain_a: self.strain_a,
            strain_b: self.strain_b,
            size: self.board.size(),
            m: self.m as int,
            board: self.board.cells(),
            log: self.log@,
            skips: self.skips as int,
            finished: self.finished,
        }
    }
}

impl Battle {
    /// The scheduler's invariant.
    pub open spec fn wf(&self) -> bool {
        battle_inv(self@)
    }

    /// Start a battle between the two referenced strains on a fresh seeded
    /// board. Fails exactly when the arena size or the move budget is out
    /// of range.
    pub fn new(
        id: u128,
        strain_a: u128,
        strain_b: u128,
        arena_size: i32,
        moves_per_round: usize,
    ) -> (r: Result<Battle, ConfigurationError>)
        ensures
            match r {
                Ok(b) => {
                    &&& valid_arena_size(arena_size as int)
                    &&& valid_move_budget(moves_per_round as int)
                    &&& b.wf()
                    &&& b@.id == id
                    &&& b@.strain_a == strain_a
                    &&& b@.strain_b == strain_b
                    &&& b@.size == arena_size
                    &&& b@.m == moves_per_round
                    &&& b@.log.len() == 0
                    &&& b@.board == seeded_cells(arena_size as int)
                    &&& b@.skips == 0
                    &&& !b@.finished
                },
                Err(ConfigurationError::InvalidArenaSize) => !valid_arena_size(arena_size as int),
                Err(ConfigurationError::InvalidMoveBudget) => valid_arena_size(arena_size as int)
                    && !valid_move_budget(moves_per_round as int),
            },
    {
        let board = Board::initialize(arena_size)?;
        if moves_per_round < 1 || moves_per_round > MAX_MOVE_BUDGET {
            return Err(ConfigurationError::InvalidMoveBudget);
        }
        let b = Battle {
            id,
            strain_a,
            strain_b,
            board,
            m: moves_per_round,
            log: Vec::new(),
            skips: 0,
            finished: false,
        };
        proof {
            let gs = arena_size as int;
            assert(cell_index(gs, gs - 1, gs - 1) == gs * gs - 1) by (nonlinear_arith);
            assert(0 < gs * gs) by (nonlinear_arith)
                requires
                    gs >= 2,
            ;
            assert(b@.log =~= Seq::<BattleLogEntry>::empty());
        }
        Ok(b)
    }

    /// Whether the battle has reached its terminal state.
    pub fn is_finished(&self) -> (r: bool)
        ensures
            r == self@.finished,
    {
        self.finished
    }

    /// The player that owns the next move slot.
    pub fn next_player(&self) -> (r: Player)
        requires
            self.wf(),
        ensures
            r == current_player_at(self@.log.len() as int, self@.m),
    {
        if (self.log.len() / self.m) % 2 == 0 {
            Player::A
        } else {
            Player::B
        }
    }

    /// The wire view for the next move slot: `None` when the player to move
    /// has no legal move (the slot must be skipped without a sandbox call),
    /// otherwise the board and allowed moves in the player's canonical
    /// perspective. In every view handed out, the origin is owned by the
    /// acting player.
    pub fn turn_input(&self) -> (r: Option<StrainInput>)
        requires
            self.wf(),
            !self@.finished,
        ensures
            ({
                let p = current_player_at(self@.log.len() as int, self@.m);
                match r {
                    None => !some_move_allowed(self@.size, self@.board, p),
                    Some(v) => {
                        &&& some_move_allowed(self@.size, self@.board, p)
                        &&& v.board@.len() == self@.size * self@.size
                        &&& (forall|vx: int, vy: int|
                            in_bounds(self@.size, vx, vy) ==> #[trigger] v.board@[cell_index(
                                self@.size,
                                vx,
                                vy,
                            )] == (
                                (vx as i32, vy as i32),
                                view_cell(self@.size, self@.board, p, vx, vy),
                            ))
                        &&& v.board@[0] == ((0i32, 0i32), Some(true))
                        &&& v.allowed@.len() > 0
                        &&& (forall|i: int|
                            0 <= i < v.allowed@.len() ==> allowed_cell(
                                self@.size,
                                self@.board,
                                view_coord(
                                    self@.size,
                                    p,
                                    (#[trigger] v.allowed@[i]).0 as int,
                                    v.allowed@[i].1 as int,
                                ).0,
                                view_coord(
                                    self@.size,
                                    p,
                                    v.allowed@[i].0 as int,
                                    v.allowed@[i].1 as int,
                                ).1,
                                p,
                            ))
                        &&& (forall|x: int, y: int|
                            #[trigger] allowed_cell(self@.size, self@.board, x, y, p)
                                ==> v.allowed@.contains((
                                (view_coord(self@.size, p, x, y).0) as i32,
                                (view_coord(self@.size, p, x, y).1) as i32,
                            )))
                        &&& v.allowed@.no_duplicates()
                    },
                }
            }),
    {
        let p = self.next_player();
        let allowed = allowed_moves(&self.board, p);
        if allowed.len() == 0 {
            proof {
                let gs = self@.size;
                if some_move_allowed(gs, self@.board, p) {
                    let (x, y) = choose|x: int, y: int|
                        #[trigger] allowed_cell(gs, self@.board, x, y, p);
                    assert(allowed@.contains((x as i32, y as i32)));
                }
            }
            return None;
        }
        let v = build_view(&self.board, p, &allowed);
        proof {
            let gs = self@.size;
            let cells = self@.board;
            assert(allowed_cell(
                gs,
                cells,
                allowed@[0].0 as int,
                allowed@[0].1 as int,
                p,
            ));
            lemma_view_origin_friendly(gs, cells, p);
            assert(cell_index(gs, 0, 0) == 0);
            assert(v.board@[cell_index(gs, 0, 0)] == (
                (0i32, 0i32),
                view_cell(gs, cells, p, 0, 0),
            ));
            assert forall|i: int| 0 <= i < v.allowed@.len() implies allowed_cell(
                gs,
                cells,
                view_coord(gs, p, (#[trigger] v.allowed@[i]).0 as int, v.allowed@[i].1 as int).0,
                view_coord(gs, p, v.allowed@[i].0 as int, v.allowed@[i].1 as int).1,
                p,
            ) by {
                let ax = allowed@[i].0 as int;
                let ay = allowed@[i].1 as int;
                assert(allowed_cell(gs, cells, ax, ay, p));
                lemma_view_coord_involutive(gs, p, ax, ay);
            };
            assert forall|x: int, y: int|
                #[trigger] allowed_cell(gs, cells, x, y, p) implies v.allowed@.contains((
                (view_coord(gs, p, x, y).0) as i32,
                (view_coord(gs, p, x, y).1) as i32,
            )) by {
                assert(allowed@.contains((x as i32, y as i32)));
                let j = choose|j: int|
                    0 <= j < allowed@.len() && allowed@[j] == (x as i32, y as i32);
                assert((v.allowed@[j].0 as int, v.allowed@[j].1 as int) == view_coord(
                    gs,
                    p,
                    x,
                    y,
                ));
                assert(v.allowed@[j] == (
                    (view_coord(gs, p, x, y).0) as i32,
                    (view_coord(gs, p, x, y).1) as i32,
                ));
            };
            assert forall|i: int, j: int|
                0 <= i < j < v.allowed@.len() implies v.allowed@[i] != v.allowed@[j] by {
                let ai = (allowed@[i].0 as int, allowed@[i].1 as int);
                let aj = (allowed@[j].0 as int, allowed@[j].1 as int);
                lemma_view_coord_involutive(gs, p, ai.0, ai.1);
                lemma_view_coord_involutive(gs, p, aj.0, aj.1);
                if v.allowed@[i] == v.allowed@[j] {
                    assert(allowed_cell(gs, cells, ai.0, ai.1, p));
                    assert(allowed_cell(gs, cells, aj.0, aj.1, p));
                    assert(view_coord(gs, p, ai.0, ai.1) == view_coord(gs, p, aj.0, aj.1));
                    assert(allowed@[i] == allowed@[j]);
                }
            };
        }
        Some(v)
    }

    /// Record the event of one move slot: judge a response against the
    /// allowed set (after de-normalizing it through the player's
    /// perspective), apply it when legal, and account for skips. The event
    /// must be `NoMoves` exactly when the player to move has no legal move.
    pub fn advance(&mut self, ev: TurnEvent)
        requires
            old(self).wf(),
            !old(self)@.finished,
            (ev is NoMoves) <==> !some_move_allowed(
                old(self)@.size,
                old(self)@.board,
                current_player_at(old(self)@.log.len() as int, old(self)@.m),
            ),
        ensures
            final(self).wf(),
            final(self)@.id == old(self)@.id,
            final(self)@.strain_a == old(self)@.strain_a,
            final(self)@.strain_b == old(self)@.strain_b,
            final(self)@.size == old(self)@.size,
            final(self)@.m == old(self)@.m,
            ({
                let p = current_player_at(old(self)@.log.len() as int, old(self)@.m);
                let o = outcome_for(old(self)@.size, old(self)@.board, p, ev);
                let e = (BattleLogEntry {
                    turn_index: old(self)@.log.len() as usize,
                    player: p,
                    outcome: o,
                });
                &&& final(self)@.log == old(self)@.log.push(e)
                &&& Some(final(self)@.board) == apply_entry(old(self)@.size, old(self)@.board, e)
                &&& final(self)@.skips == (if o is Applied {
                    0int
                } else {
                    old(self)@.skips + 1
                })
                &&& (final(self)@.finished <==> final(self)@.skips == 2 * old(self)@.m)
            }),
    {
        let ghost pre = self@;
        let p = self.next_player();
        let size: i32 = self.board.arena_size();
        let outcome: TurnOutcome = match ev {
            TurnEvent::NoMoves => TurnOutcome::Skipped,
            TurnEvent::Failure => TurnOutcome::Skipped,
            TurnEvent::Response(vx, vy) => {
                if vx >= 0 && vx < size && vy >= 0 && vy < size {
                    let (rx, ry) = transform_coord(size, p, vx, vy);
                    if is_allowed(&self.board, rx, ry, p) {
                        let applied = self.board.occupy(rx, ry, p);
                        match applied {
                            Ok(()) => {},
                            Err(_) => {
                                proof {
                                    assert(false);
                                }
                            },
                        }
                        TurnOutcome::Applied(rx, ry)
                    } else {
                        TurnOutcome::Illegal(vx, vy)
                    }
                } else {
                    proof {
                        lemma_view_coord_in_bounds(pre.size, p, vx as int, vy as int);
                    }
                    TurnOutcome::Illegal(vx, vy)
                }
            },
        };
        let t: usize = self.log.len();
        let entry = BattleLogEntry { turn_index: t, player: p, outcome };
        self.log.push(entry);
        if matches!(outcome, TurnOutcome::Applied(_, _)) {
            self.skips = 0;
        } else {
            self.skips = self.skips + 1;
        }
        if self.skips == 2 * self.m {
            self.finished = true;
        } else {
            self.finished = false;
        }
        proof {
            let gs = pre.size;
            let post = self@;
            assert(post.log.drop_last() =~= pre.log);
            assert(outcome == outcome_for(gs, pre.board, p, ev));
            assert(cell_index(gs, gs - 1, gs - 1) == gs * gs - 1) by (nonlinear_arith);
            assert(0 < gs * gs) by (nonlinear_arith)
                requires
                    gs >= 2,
            ;
            match outcome {
                TurnOutcome::Applied(x, y) => {
                    assert(allowed_cell(gs, pre.board, x as int, y as int, p));
                    crate::board::lemma_cell_index_bounds(gs, x as int, y as int);
                },
                TurnOutcome::Illegal(vx, vy) => {
                    assert(some_move_allowed(gs, pre.board, p));
                },
                TurnOutcome::Skipped => {},
            }
            assert(valid_trace(gs, pre.m, post.log));
        }
    }

    /// The battle's result so far: scores counted from the board, winner by
    /// strictly higher score, and the full replay log. The log replays from
    /// the seeded board to exactly the board the scores were counted on.
    pub fn finalize(self) -> (r: BattleResult)
        requires
            self.wf(),
        ensures
            r.id == self@.id,
            r.arena_size as int == self@.size,
            r.strain_a == self@.strain_a,
            r.strain_b == self@.strain_b,
            r.log@ == self@.log,
            r.score_a as int == count_cells(self@.board, Some(Player::A)),
            r.score_b as int == count_cells(self@.board, Some(Player::B)),
            r.winner == (if r.score_a > r.score_b {
                Some(self@.strain_a)
            } else if r.score_b > r.score_a {
                Some(self@.strain_b)
            } else {
                None::<u128>
            }),
            replay(self@.size, r.log@) == Some(self@.board),
            valid_trace(self@.size, self@.m, r.log@),
            consec_skips(r.log@) == self@.skips,
    {
        let score_a = self.board.score(Player::A);
        let score_b = self.board.score(Player::B);
        let winner: Option<u128> = if score_a > score_b {
            Some(self.strain_a)
        } else if score_b > score_a {
            Some(self.strain_b)
        } else {
            None
        };
        let arena_size = self.board.arena_size();
        BattleResult {
            id: self.id,
            arena_size,
            strain_a: self.strain_a,
            strain_b: self.strain_b,
            winner,
            score_a,
            score_b,
            log: self.log,
        }
    }
}

/// The persisted record of one battle: the only artifact that outlives the
/// engine.
#[derive(Debug)]
pub struct BattleResult {
    pub id: u128,
    pub arena_size: i32,
    pub strain_a: u128,
    pub strain_b: u128,
    pub winner: Option<u128>,
    pub score_a: i32,
    pub score_b: i32,
    pub log: Vec<BattleLogEntry>,
}

/// Rebuild the board a log reaches by replaying its applied entries from
/// the seeded board. Fails exactly when the arena size is invalid or some
/// applied entry is inconsistent with the board state at its point in the
/// log.
pub fn replay_log(arena_size: i32, log: &Vec<BattleLogEntry>) -> (r: Result<Board, ReplayError>)
    ensures
        match r {
            Ok(b) => {
                &&& valid_arena_size(arena_size as int)
                &&& replay(arena_size as int, log@) is Some
                &&& b.wf()
                &&& b.size() == arena_size
                &&& b.cells() == replay(arena_size as int, log@).unwrap()
            },
            Err(ReplayError::InvalidArenaSize) => !valid_arena_size(arena_size as int),
            Err(ReplayError::InconsistentEntry) => valid_arena_size(arena_size as int) && replay(
                arena_size as int,
                log@,
            ) is None,
        },
{
    let gsize: Ghost<int> = Ghost(arena_size as int);
    let mut board = match Board::initialize(arena_size) {
        Ok(b) => b,
        Err(_) => {
            return Err(ReplayError::InvalidArenaSize);
        },
    };
    let n: usize = log.len();
    let mut i: usize = 0;
    while i < n
        invariant
            board.wf(),
            board.size() == gsize@,
            gsize@ == arena_size as int,
            valid_arena_size(gsize@),
            n == log@.len(),
            0 <= i <= n,
            replay(gsize@, log@.take(i as int)) == Some(board.cells()),
        decreases n - i,
    {
        let entry = log[i];
        proof {
            assert(log@.take(i as int + 1).drop_last() =~= log@.take(i as int));
            assert(log@.take(i as int + 1).last() == log@[i as int]);
        }
        match entry.outcome {
            TurnOutcome::Applied(x, y) => {
                match board.occupy(x, y, entry.player) {
                    Ok(()) => {},
                    Err(_) => {
                        proof {
                            assert(replay(gsize@, log@.take(i as int + 1)) is None);
                            lemma_replay_none_extends(gsize@, log@, i as int + 1);
                        }
                        return Err(ReplayError::InconsistentEntry);
                    },
                }
            },
            TurnOutcome::Skipped => {},
            TurnOutcome::Illegal(_, _) => {},
        }
        i = i + 1;
    }
    proof {
        assert(log@.take(n as int) =~= log@);
    }
    Ok(board)
}

/// The consecutive-skip count never exceeds the log length.
pub proof fn lemma_consec_skips_bound(log: Seq<BattleLogEntry>)
    ensures
        0 <= consec_skips(log) <= log.len(),
    decreases log.len(),
{
    if log.len() > 0 && !(log.last().outcome is Applied) {
        lemma_consec_skips_bound(log.drop_last());
    }
}

/// Everything `run_battle` promises of a finished battle's record: the
/// references and arena size are the requested ones, the log is a valid
/// trace that replays from the seeded board, the scores are counted from
/// the replayed board, the winner has the strictly higher score, and the
/// battle ended on a full round of both players without an applied move.
pub open spec fn battle_result_ok(
    strain_a_ref: u128,
    strain_b_ref: u128,
    size: int,
    m: int,
    res: BattleResult,
) -> bool {
    &&& res.strain_a == strain_a_ref
    &&& res.strain_b == strain_b_ref
    &&& res.arena_size as int == size
    &&& valid_trace(size, m, res.log@)
    &&& replay(size, res.log@) is Some
    &&& res.score_a as int == count_cells(replay(size, res.log@).unwrap(), Some(Player::A))
    &&& res.score_b as int == count_cells(replay(size, res.log@).unwrap(), Some(Player::B))
    &&& res.winner == (if res.score_a > res.score_b {
        Some(strain_a_ref)
    } else if res.score_b > res.score_a {
        Some(strain_b_ref)
    } else {
        None::<u128>
    })
    &&& res.score_a + res.score_b <= size * size
    &&& consec_skips(res.log@) == 2 * m
    &&& res.log@.len() >= 2 * m
}

/// Run one whole battle between two freshly loaded strain handles: drive
/// alternating move slots through the perspective transform, the legality
/// engine and the sandbox adapter until both players have passed a full
/// round without an applied move, then build the battle record. The two
/// handles are consumed, and with them released, when the battle ends.
/// Fails exactly when the arena size or the move budget is out of range;
/// per-slot sandbox failures never propagate.
pub fn run_battle(
    strain_a_ref: u128,
    strain_b_ref: u128,
    arena_size: i32,
    moves_per_round: usize,
    handle_a: StrainHandle,
    handle_b: StrainHandle,
) -> (r: Result<BattleResult, ConfigurationError>)
    ensures
        match r {
            Ok(res) => valid_arena_size(arena_size as int) && valid_move_budget(
                moves_per_round as int,
            ) && battle_result_ok(
                strain_a_ref,
                strain_b_ref,
                arena_size as int,
                moves_per_round as int,
                res,
            ),
            Err(ConfigurationError::InvalidArenaSize) => !valid_arena_size(arena_size as int),
            Err(ConfigurationError::InvalidMoveBudget) => valid_arena_size(arena_size as int)
                && !valid_move_budget(moves_per_round as int),
        },
{
    let id = fresh_battle_id();
    let mut battle = Battle::new(id, strain_a_ref, strain_b_ref, arena_size, moves_per_round)?;
    let mut a = handle_a;
    let mut b = handle_b;
    while !battle.is_finished()
        invariant
            battle.wf(),
            battle@.strain_a == strain_a_ref,
            battle@.strain_b == strain_b_ref,
            battle@.size == arena_size as int,
            battle@.m == moves_per_round as int,
        decreases count_cells(battle@.board, None), 2 * battle@.m - battle@.skips,
    {
        let ghost pre = battle@;
        proof {
            lemma_count_cells_bounds(pre.board, None);
        }
        match battle.turn_input() {
            None => {
                battle.advance(TurnEvent::NoMoves);
            },
            Some(input) => {
                let next = battle.next_player();
                let outcome = if next == Player::A {
                    invoke(&mut a, &input)
                } else {
                    invoke(&mut b, &input)
                };
                let ev = match outcome {
                    Ok(c) => TurnEvent::Response(c.0, c.1),
                    Err(_) => TurnEvent::Failure,
                };
                battle.advance(ev);
            },
        }
        proof {
            let post = battle@;
            lemma_count_cells_bounds(post.board, None);
            match post.log.last().outcome {
                TurnOutcome::Applied(x, y) => {
                    crate::board::lemma_cell_index_bounds(pre.size, x as int, y as int);
                    lemma_count_cells_update(
                        pre.board,
                        cell_index(pre.size, x as int, y as int),
                        Some(post.log.last().player),
                        None,
                    );
                    assert(count_cells(post.board, None) < count_cells(pre.board, None));
                },
                TurnOutcome::Skipped => {
                    assert(post.board == pre.board);
                    assert(post.skips == pre.skips + 1);
                },
                TurnOutcome::Illegal(_, _) => {
                    assert(post.board == pre.board);
                    assert(post.skips == pre.skips + 1);
                },
            }
        }
    }
    let ghost finals = battle@;
    let result = battle.finalize();
    proof {
        lemma_replay_len(finals.size, finals.log);
        crate::board::lemma_score_sum(finals.board);
        lemma_consec_skips_bound(finals.log);
    }
    Ok(result)
}

/// Once a prefix of a log fails to replay, the whole log fails to replay.
pub proof fn lemma_replay_none_extends(size: int, log: Seq<BattleLogEntry>, k: int)
    requires
        0 <= k <= log.len(),
        replay(size, log.take(k)) is None,
    ensures
        replay(size, log) is None,
{
    if replay(size, log) is Some {
        lemma_replay_prefix(size, log, k);
    }
}

} // verus!
