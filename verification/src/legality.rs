//! Per-turn legality: the set of cells the acting player may play into.
//!
//! A cell is allowed for a player exactly when it is an in-bounds empty cell
//! with at least one 8-neighbor owned by that player. The set is recomputed
//! every turn, since occupancy changes between turns.

use vstd::prelude::*;

use crate::board::{Board, Player, adjacent8, cell_at, in_bounds};

verus! {

/// `(x, y)` is an in-bounds cell owned by `p`.
pub open spec fn friendly_at(
    size: int,
    cells: Seq<Option<Player>>,
    x: int,
    y: int,
    p: Player,
) -> bool {
    in_bounds(size, x, y) && cell_at(size, cells, x, y) == Some(p)
}

/// `(x, y)` is an in-bounds empty cell.
pub open spec fn empty_at(size: int, cells: Seq<Option<Player>>, x: int, y: int) -> bool {
    in_bounds(size, x, y) && cell_at(size, cells, x, y) is None
}

/// Some 8-neighbor of `(x, y)` is owned by `p`.
pub open spec fn has_friendly_neighbor(
    size: int,
    cells: Seq<Option<Player>>,
    x: int,
    y: int,
    p: Player,
) -> bool {
    exists|nx: int, ny: int|
        adjacent8(x, y, nx, ny) && #[trigger] friendly_at(size, cells, nx, ny, p)
}

/// `(x, y)` is a member of `AllowedMoves` for player `p`: an empty cell
/// adjacent to at least one cell owned by `p`.
pub open spec fn allowed_cell(
    size: int,
    cells: Seq<Option<Player>>,
    x: int,
    y: int,
    p: Player,
) -> bool {
    empty_at(size, cells, x, y) && has_friendly_neighbor(size, cells, x, y, p)
}

/// The player `p` has at least one legal move on the board.
pub open spec fn some_move_allowed(size: int, cells: Seq<Option<Player>>, p: Player) -> bool {
    exists|x: int, y: int| #[trigger] allowed_cell(size, cells, x, y, p)
}

/// Row-major order on coordinates: by row `y` first, then by column `x`.
pub open spec fn row_major_lt(a: (i32, i32), b: (i32, i32)) -> bool {
    a.1 < b.1 || (a.1 == b.1 && a.0 < b.0)
}

/// `AllowedMoves` is always a subset of the empty cells, and it is empty
/// exactly when the player owns no cell adjacent to any empty cell.
pub proof fn lemma_allowed_frontier(size: int, cells: Seq<Option<Player>>, p: Player)
    ensures
        forall|x: int, y: int|
            #[trigger] allowed_cell(size, cells, x, y, p) ==> empty_at(size, cells, x, y),
        some_move_allowed(size, cells, p) <==> (exists|ox: int, oy: int, ex: int, ey: int|
            #![trigger friendly_at(size, cells, ox, oy, p), empty_at(size, cells, ex, ey)]
            friendly_at(size, cells, ox, oy, p) && empty_at(size, cells, ex, ey) && adjacent8(
                ox,
                oy,
                ex,
                ey,
            )),
{
    if some_move_allowed(size, cells, p) {
        let (x, y) = choose|x: int, y: int| #[trigger] allowed_cell(size, cells, x, y, p);
        let (nx, ny) = choose|nx: int, ny: int|
            adjacent8(x, y, nx, ny) && #[trigger] friendly_at(size, cells, nx, ny, p);
        assert(friendly_at(size, cells, nx, ny, p) && empty_at(size, cells, x, y) && adjacent8(
            nx,
            ny,
            x,
            y,
        ));
    }
    if exists|ox: int, oy: int, ex: int, ey: int|
        #![trigger friendly_at(size, cells, ox, oy, p), empty_at(size, cells, ex, ey)]
        friendly_at(size, cells, ox, oy, p) && empty_at(size, cells, ex, ey) && adjacent8(
            ox,
            oy,
            ex,
            ey,
        ) {
        let (ox, oy, ex, ey) = choose|ox: int, oy: int, ex: int, ey: int|
            #![trigger friendly_at(size, cells, ox, oy, p), empty_at(size, cells, ex, ey)]
            friendly_at(size, cells, ox, oy, p) && empty_at(size, cells, ex, ey) && adjacent8(
                ox,
                oy,
                ex,
                ey,
            );
        assert(adjacent8(ex, ey, ox, oy) && friendly_at(size, cells, ox, oy, p));
        assert(allowed_cell(size, cells, ex, ey, p));
    }
}

/// Whether the in-bounds cell at the (possibly out-of-range) coordinate
/// `(x, y)` is owned by `p`; out-of-range coordinates are simply not owned.
fn friendly_probe(b: &Board, x: i64, y: i64, p: Player) -> (r: bool)
    requires
        b.wf(),
    ensures
        r == friendly_at(b.size(), b.cells(), x as int, y as int, p),
{
    let size: i32 = b.arena_size();
    if x < 0 || y < 0 || x >= size as i64 || y >= size as i64 {
        return false;
    }
    let cx: i32 = x as i32;
    let cy: i32 = y as i32;
    match (b.get(cx, cy), p) {
        (Some(Player::A), Player::A) => true,
        (Some(Player::B), Player::B) => true,
        _ => false,
    }
}

/// Decide membership in `AllowedMoves` for a single cell.
pub fn is_allowed(b: &Board, x: i32, y: i32, p: Player) -> (r: bool)
    requires
        b.wf(),
    ensures
        r == allowed_cell(b.size(), b.cells(), x as int, y as int, p),
{
    let size: i32 = b.arena_size();
    if x < 0 || y < 0 || x >= size || y >= size {
        return false;
    }
    if let Some(_) = b.get(x, y) {
        return false;
    }
    let xl: i64 = x as i64;
    let yl: i64 = y as i64;
    let found: bool = friendly_probe(b, xl - 1, yl - 1, p) || friendly_probe(b, xl, yl - 1, p)
        || friendly_probe(b, xl + 1, yl - 1, p) || friendly_probe(b, xl - 1, yl, p)
        || friendly_probe(b, xl + 1, yl, p) || friendly_probe(b, xl - 1, yl + 1, p)
        || friendly_probe(b, xl, yl + 1, p) || friendly_probe(b, xl + 1, yl + 1, p);
    proof {
        let gs = b.size();
        let gc = b.cells();
        let gx = x as int;
        let gy = y as int;
        if !found {
            assert(!has_friendly_neighbor(gs, gc, gx, gy, p)) by {
                if has_friendly_neighbor(gs, gc, gx, gy, p) {
                    let (nx, ny) = choose|nx: int, ny: int|
                        adjacent8(gx, gy, nx, ny) && #[trigger] friendly_at(gs, gc, nx, ny, p);
                    assert(nx == gx - 1 || nx == gx || nx == gx + 1);
                    assert(ny == gy - 1 || ny == gy || ny == gy + 1);
                }
            };
        }
    }
    found
}

/// Compute `AllowedMoves` for player `p`: every empty cell with an
/// 8-neighbor owned by `p`, listed in row-major order without duplicates.
pub fn allowed_moves(b: &Board, p: Player) -> (r: Vec<(i32, i32)>)
    requires
        b.wf(),
    ensures
        forall|i: int|
            0 <= i < r@.len() ==> allowed_cell(
                b.size(),
                b.cells(),
                #[trigger] r@[i].0 as int,
                r@[i].1 as int,
                p,
            ),
        forall|x: int, y: int|
            #[trigger] allowed_cell(b.size(), b.cells(), x, y, p) ==> r@.contains((
                x as i32,
                y as i32,
            )),
        forall|i: int, j: int| 0 <= i < j < r@.len() ==> row_major_lt(r@[i], r@[j]),
        r@.no_duplicates(),
{
    let size: i32 = b.arena_size();
    let mut r: Vec<(i32, i32)> = Vec::new();
    let mut y: i32 = 0;
    while y < size
        invariant
            b.wf(),
            size as int == b.size(),
            0 <= y <= size,
            forall|i: int|
                0 <= i < r@.len() ==> allowed_cell(
                    b.size(),
                    b.cells(),
                    #[trigger] r@[i].0 as int,
                    r@[i].1 as int,
                    p,
                ),
            forall|cx: int, cy: int|
                #[trigger] allowed_cell(b.size(), b.cells(), cx, cy, p) && cy < y
                    ==> r@.contains((cx as i32, cy as i32)),
            forall|i: int| 0 <= i < r@.len() ==> #[trigger] r@[i].1 < y,
            forall|i: int, j: int| 0 <= i < j < r@.len() ==> row_major_lt(r@[i], r@[j]),
        decreases size - y,
    {
        let mut x: i32 = 0;
        while x < size
            invariant
                b.wf(),
                size as int == b.size(),
                0 <= y < size,
                0 <= x <= size,
                forall|i: int|
                    0 <= i < r@.len() ==> allowed_cell(
                        b.size(),
                        b.cells(),
                        #[trigger] r@[i].0 as int,
                        r@[i].1 as int,
                        p,
                    ),
                forall|cx: int, cy: int|
                    #[trigger] allowed_cell(b.size(), b.cells(), cx, cy, p) && (cy < y || (cy == y
                        && cx < x)) ==> r@.contains((cx as i32, cy as i32)),
                forall|i: int|
                    0 <= i < r@.len() ==> #[trigger] r@[i].1 < y || (r@[i].1 == y && r@[i].0 < x),
                forall|i: int, j: int| 0 <= i < j < r@.len() ==> row_major_lt(r@[i], r@[j]),
            decreases size - x,
        {
            let ghost old_r = r@;
            if is_allowed(b, x, y, p) {
                r.push((x, y));
            }
            proof {
                assert forall|c: (i32, i32)| old_r.contains(c) implies r@.contains(c) by {
                    let i = choose|i: int| 0 <= i < old_r.len() && old_r[i] == c;
                    assert(r@[i] == c);
                };
                if allowed_cell(b.size(), b.cells(), x as int, y as int, p) {
                    assert(r@[r@.len() - 1] == (x, y));
                    assert(r@.contains((x, y)));
                }
            }
            x = x + 1;
        }
        y = y + 1;
    }
    proof {
        assert(forall|cx: int, cy: int|
            #[trigger] allowed_cell(b.size(), b.cells(), cx, cy, p) ==> cy < size as int);
        assert(forall|i: int, j: int|
            0 <= i < j < r@.len() ==> r@[i] != r@[j]) by {
            assert(forall|i: int, j: int|
                0 <= i < j < r@.len() ==> row_major_lt(#[trigger] r@[i], #[trigger] r@[j]));
        };
    }
    r
}

} // verus!
