//! The arena board: an `N x N` grid of cells, each empty or owned by one of
//! the two players.
//!
//! The model of a board is the pair of its side length and the sequence of
//! its cells in row-major order (index `y * size + x`). Player A is seeded at
//! the near corner `(0, 0)`, player B at the far corner `(size-1, size-1)`.

use vstd::prelude::*;

use crate::errors::{ConfigurationError, OccupyError};

verus! {

/// A player of a battle: `A` is seeded at `(0, 0)`, `B` at the far corner.
#[derive(Clone, Copy, Debug, PartialEq, Eq, Structural)]
pub enum Player {
    A,
    B,
}

/// Largest supported arena side length; the cell count of a board this size
/// still fits an `i32` score.
pub const MAX_ARENA_SIZE: i32 = 46340;

/// A side length the engine accepts: at least 2, so the two seed corners are
/// distinct cells, and small enough that the cell count fits the score type.
pub open spec fn valid_arena_size(size: int) -> bool {
    2 <= size <= MAX_ARENA_SIZE
}

/// Whether `(x, y)` lies inside an arena of the given side length.
pub open spec fn in_bounds(size: int, x: int, y: int) -> bool {
    0 <= x < size && 0 <= y < size
}

/// Two coordinates at Chebyshev distance exactly 1: the 8-directional
/// adjacency of the game.
pub open spec fn adjacent8(ax: int, ay: int, bx: int, by: int) -> bool {
    &&& -1 <= ax - bx <= 1
    &&& -1 <= ay - by <= 1
    &&& !(ax == bx && ay == by)
}

/// Row-major position of `(x, y)` in the cell sequence.
pub open spec fn cell_index(size: int, x: int, y: int) -> int {
    y * size + x
}

/// The cell `(x, y)` of a row-major cell sequence.
pub open spec fn cell_at(size: int, cells: Seq<Option<Player>>, x: int, y: int) -> Option<Player> {
    cells[cell_index(size, x, y)]
}

/// The initial board: all cells empty except the two seeds.
pub open spec fn seeded_cells(size: int) -> Seq<Option<Player>> {
    Seq::new(
        (size * size) as nat,
        |i: int|
            if i == 0 {
                Some(Player::A)
            } else if i == size * size - 1 {
                Some(Player::B)
            } else {
                None
            },
    )
}

/// How many cells of the sequence hold exactly the value `v`.
pub open spec fn count_cells(cells: Seq<Option<Player>>, v: Option<Player>) -> int
    decreases cells.len(),
{
    if cells.len() == 0 {
        0
    } else {
        count_cells(cells.drop_last(), v) + if cells.last() == v {
            1int
        } else {
            0int
        }
    }
}

pub proof fn lemma_count_cells_bounds(cells: Seq<Option<Player>>, v: Option<Player>)
    ensures
        0 <= count_cells(cells, v) <= cells.len(),
    decreases cells.len(),
{
    if cells.len() > 0 {
        lemma_count_cells_bounds(cells.drop_last(), v);
    }
}

/// Overwriting one cell moves at most one unit of count from the old value
/// to the new one.
pub proof fn lemma_count_cells_update(
    cells: Seq<Option<Player>>,
    i: int,
    w: Option<Player>,
    v: Option<Player>,
)
    requires
        0 <= i < cells.len(),
    ensures
        count_cells(cells.update(i, w), v) == count_cells(cells, v) - (if cells[i] == v {
            1int
        } else {
            0int
        }) + (if w == v {
            1int
        } else {
            0int
        }),
    decreases cells.len(),
{
    let updated = cells.update(i, w);
    if i == cells.len() - 1 {
        assert(updated.drop_last() =~= cells.drop_last());
    } else {
        assert(updated.drop_last() =~= cells.drop_last().update(i, w));
        lemma_count_cells_update(cells.drop_last(), i, w, v);
    }
}

/// Every cell holds exactly one of the three occupancies, so the three
/// counts partition the board.
pub proof fn lemma_count_cells_partition(cells: Seq<Option<Player>>)
    ensures
        count_cells(cells, Some(Player::A)) + count_cells(cells, Some(Player::B)) + count_cells(
            cells,
            None,
        ) == cells.len(),
    decreases cells.len(),
{
    if cells.len() > 0 {
        lemma_count_cells_partition(cells.drop_last());
        match cells.last() {
            Some(Player::A) => {},
            Some(Player::B) => {},
            None => {},
        }
    }
}

/// The two scores sum to at most the cell count, with equality exactly when
/// the board has filled (no empty cell is left).
pub proof fn lemma_score_sum(cells: Seq<Option<Player>>)
    ensures
        count_cells(cells, Some(Player::A)) + count_cells(cells, Some(Player::B)) <= cells.len(),
        count_cells(cells, Some(Player::A)) + count_cells(cells, Some(Player::B)) == cells.len()
            <==> count_cells(cells, None) == 0,
{
    lemma_count_cells_partition(cells);
    lemma_count_cells_bounds(cells, None);
}

/// A row-major index stays inside the cell sequence of a well-formed board,
/// and the whole cell count fits the machine's integer types.
pub proof fn lemma_cell_index_bounds(size: int, x: int, y: int)
    requires
        valid_arena_size(size),
        in_bounds(size, x, y),
    ensures
        0 <= cell_index(size, x, y) < size * size,
        0 <= y * size <= cell_index(size, x, y),
        size * size <= 46340 * 46340,
{
    assert(0 <= y * size && y * size + x < size * size && size * size <= 46340 * 46340)
        by (nonlinear_arith)
        requires
            0 <= x < size,
            0 <= y < size,
            size <= 46340,
    ;
}

/// The arena of one battle.
#[derive(Debug)]
pub struct Board {
    size: i32,
    cells: Vec<Option<Player>>,
}

impl Board {
    /// The side length `N` of the arena.
    pub closed spec fn size(&self) -> int {
        self.size as int
    }

    /// The cells in row-major order.
    pub closed spec fn cells(&self) -> Seq<Option<Player>> {
        self.cells@
    }

    /// A board is well formed when its size is valid and it holds exactly
    /// one cell per coordinate of the grid.
    pub open spec fn wf(&self) -> bool {
        valid_arena_size(self.size()) && self.cells().len() == self.size() * self.size()
    }

    /// The occupancy of cell `(x, y)`.
    pub open spec fn cell(&self, x: int, y: int) -> Option<Player> {
        cell_at(self.size(), self.cells(), x, y)
    }

    /// The side length `N` of the arena.
    pub fn arena_size(&self) -> (r: i32)
        ensures
            r as int == self.size(),
    {
        self.size
    }

    /// Create the initial board for one battle: every cell empty except the
    /// seed of player A at `(0, 0)` and the seed of player B at
    /// `(size-1, size-1)`.
    pub fn initialize(size: i32) -> (r: Result<Board, ConfigurationError>)
        ensures
            match r {
                Ok(b) => valid_arena_size(size as int) && b.wf() && b.size() == size
                    && b.cells() == seeded_cells(size as int),
                Err(e) => !valid_arena_size(size as int) && e
                    == ConfigurationError::InvalidArenaSize,
            },
    {
        if size < 2 || size > MAX_ARENA_SIZE {
            return Err(ConfigurationError::InvalidArenaSize);
        }
        proof {
            assert(4 <= (size as int) * (size as int) <= 46340 * 46340) by (nonlinear_arith)
                requires
                    2 <= size <= 46340,
            ;
        }
        let n: usize = (size as usize) * (size as usize);
        let mut cells: Vec<Option<Player>> = Vec::with_capacity(n);
        let mut i: usize = 0;
        while i < n
            invariant
                n == (size as int) * (size as int),
                4 <= n <= 46340 * 46340,
                i <= n,
                cells@.len() == i,
                forall|j: int| 0 <= j < i ==> cells@[j] == seeded_cells(size as int)[j],
            decreases n - i,
        {
            let value: Option<Player> = if i == 0 {
                Some(Player::A)
            } else if i == n - 1 {
                Some(Player::B)
            } else {
                None
            };
            cells.push(value);
            i = i + 1;
        }
        let b = Board { size, cells };
        proof {
            assert(b.cells() =~= seeded_cells(size as int));
        }
        Ok(b)
    }

    /// Read the occupancy of an in-bounds cell.
    pub fn get(&self, x: i32, y: i32) -> (r: Option<Player>)
        requires
            self.wf(),
            in_bounds(self.size(), x as int, y as int),
        ensures
            r == self.cell(x as int, y as int),
    {
        proof {
            lemma_cell_index_bounds(self.size(), x as int, y as int);
            assert((y as int) * (self.size as int) + (x as int) == cell_index(
                self.size(),
                x as int,
                y as int,
            ));
        }
        self.cells[(y as usize) * (self.size as usize) + (x as usize)]
    }

    /// Give the cell `(x, y)` to player `p`. Fails with `OutOfBounds` when
    /// the coordinate lies outside the arena and with `AlreadyOccupied` when
    /// the cell is not empty; the board is unchanged on failure.
    pub fn occupy(&mut self, x: i32, y: i32, p: Player) -> (r: Result<(), OccupyError>)
        requires
            old(self).wf(),
        ensures
            final(self).wf(),
            final(self).size() == old(self).size(),
            match r {
                Ok(()) => in_bounds(old(self).size(), x as int, y as int) && old(self).cell(
                    x as int,
                    y as int,
                ) is None && final(self).cells() == old(self).cells().update(
                    cell_index(old(self).size(), x as int, y as int),
                    Some(p),
                ),
                Err(OccupyError::OutOfBounds) => !in_bounds(old(self).size(), x as int, y as int)
                    && final(self).cells() == old(self).cells(),
                Err(OccupyError::AlreadyOccupied) => in_bounds(old(self).size(), x as int, y as int)
                    && old(self).cell(x as int, y as int) is Some && final(self).cells() == old(
                    self,
                ).cells(),
            },
    {
        if x < 0 || x >= self.size || y < 0 || y >= self.size {
            return Err(OccupyError::OutOfBounds);
        }
        proof {
            lemma_cell_index_bounds(self.size(), x as int, y as int);
        }
        let idx: usize = (y as usize) * (self.size as usize) + (x as usize);
        match self.cells[idx] {
            Some(_) => Err(OccupyError::AlreadyOccupied),
            None => {
                self.cells[idx] = Some(p);
                Ok(())
            },
        }
    }

    /// The up-to-8 coordinates at Chebyshev distance 1 from an in-bounds
    /// cell, in row-major order; neighbors outside the arena are excluded,
    /// not wrapped.
    pub fn neighbors8(&self, x: i32, y: i32) -> (r: Vec<(i32, i32)>)
        requires
            self.wf(),
            in_bounds(self.size(), x as int, y as int),
        ensures
            forall|i: int|
                0 <= i < r@.len() ==> in_bounds(
                    self.size(),
                    (#[trigger] r@[i]).0 as int,
                    r@[i].1 as int,
                ) && adjacent8(x as int, y as int, r@[i].0 as int, r@[i].1 as int),
            forall|nx: int, ny: int|
                in_bounds(self.size(), nx, ny) && #[trigger] adjacent8(x as int, y as int, nx, ny)
                    ==> r@.contains((nx as i32, ny as i32)),
            r@.no_duplicates(),
    {
        let size: i32 = self.arena_size();
        let mut r: Vec<(i32, i32)> = Vec::new();
        let mut dy: i32 = -1;
        while dy <= 1
            invariant
                self.wf(),
                size as int == self.size(),
                in_bounds(self.size(), x as int, y as int),
                -1 <= dy <= 2,
                forall|i: int|
                    0 <= i < r@.len() ==> in_bounds(
                        self.size(),
                        (#[trigger] r@[i]).0 as int,
                        r@[i].1 as int,
                    ) && adjacent8(x as int, y as int, r@[i].0 as int, r@[i].1 as int),
                forall|nx: int, ny: int|
                    in_bounds(self.size(), nx, ny) && #[trigger] adjacent8(
                        x as int,
                        y as int,
                        nx,
                        ny,
                    ) && ny < y + dy ==> r@.contains((nx as i32, ny as i32)),
                forall|i: int| 0 <= i < r@.len() ==> (#[trigger] r@[i]).1 < y + dy,
                forall|i: int, j: int|
                    0 <= i < j < r@.len() ==> r@[i].1 < r@[j].1 || (r@[i].1 == r@[j].1 && r@[i].0
                        < r@[j].0),
            decreases 2 - dy,
        {
            let mut dx: i32 = -1;
            while dx <= 1
                invariant
                    self.wf(),
                    size as int == self.size(),
                    in_bounds(self.size(), x as int, y as int),
                    -1 <= dy <= 1,
                    -1 <= dx <= 2,
                    forall|i: int|
                        0 <= i < r@.len() ==> in_bounds(
                            self.size(),
                            (#[trigger] r@[i]).0 as int,
                            r@[i].1 as int,
                        ) && adjacent8(x as int, y as int, r@[i].0 as int, r@[i].1 as int),
                    forall|nx: int, ny: int|
                        in_bounds(self.size(), nx, ny) && #[trigger] adjacent8(
                            x as int,
                            y as int,
                            nx,
                            ny,
                        ) && (ny < y + dy || (ny == y + dy && nx < x + dx)) ==> r@.contains((
                            nx as i32,
                            ny as i32,
                        )),
                    forall|i: int|
                        0 <= i < r@.len() ==> (#[trigger] r@[i]).1 < y + dy || (r@[i].1 == y + dy
                            && r@[i].0 < x + dx),
                    forall|i: int, j: int|
                        0 <= i < j < r@.len() ==> r@[i].1 < r@[j].1 || (r@[i].1 == r@[j].1
                            && r@[i].0 < r@[j].0),
                decreases 2 - dx,
            {
                let ghost old_r = r@;
                if !(dx == 0 && dy == 0) {
                    let nx: i32 = x + dx;
                    let ny: i32 = y + dy;
                    if nx >= 0 && nx < size && ny >= 0 && ny < size {
                        r.push((nx, ny));
                    }
                }
                proof {
                    assert forall|c: (i32, i32)| old_r.contains(c) implies r@.contains(c) by {
                        let i = choose|i: int| 0 <= i < old_r.len() && old_r[i] == c;
                        assert(r@[i] == c);
                    };
                    if !(dx == 0 && dy == 0) && in_bounds(
                        self.size(),
                        x as int + dx as int,
                        y as int + dy as int,
                    ) {
                        assert(r@[r@.len() - 1] == ((x + dx) as i32, (y + dy) as i32));
                        assert(r@.contains(((x + dx) as i32, (y + dy) as i32)));
                    }
                }
                dx = dx + 1;
            }
            dy = dy + 1;
        }
        proof {
            assert forall|i: int, j: int| 0 <= i < j < r@.len() implies r@[i] != r@[j] by {
                assert(r@[i].1 < r@[j].1 || (r@[i].1 == r@[j].1 && r@[i].0 < r@[j].0));
            };
        }
        r
    }

    /// The number of cells currently owned by player `p`. This is the score
    /// of `p` once the battle reaches a terminal state.
    pub fn score(&self, p: Player) -> (r: i32)
        requires
            self.wf(),
        ensures
            r == count_cells(self.cells(), Some(p)),
    {
        let n: usize = self.cells.len();
        let mut i: usize = 0;
        let mut count: i32 = 0;
        proof {
            assert((self.size as int) * (self.size as int) <= 46340 * 46340) by (nonlinear_arith)
                requires
                    2 <= self.size <= 46340,
            ;
        }
        while i < n
            invariant
                self.wf(),
                n == self.cells().len(),
                n <= 46340 * 46340,
                i <= n,
                count == count_cells(self.cells().take(i as int), Some(p)),
                0 <= count <= i,
            decreases n - i,
        {
            proof {
                lemma_count_cells_bounds(self.cells().take(i as int), Some(p));
                assert(self.cells().take(i as int + 1).drop_last() =~= self.cells().take(i as int));
            }
            let here: Option<Player> = self.cells[i];
            let matches_p: bool = match (here, p) {
                (Some(Player::A), Player::A) => true,
                (Some(Player::B), Player::B) => true,
                _ => false,
            };
            if matches_p {
                count = count + 1;
            }
            i = i + 1;
        }
        proof {
            assert(self.cells().take(n as int) =~= self.cells());
        }
        count
    }
}

} // verus!
