//! Perspective normalization: the board is presented to each sandboxed
//! strain in a canonical orientation, so a strain never needs to know which
//! physical corner it started from.
//!
//! The player seeded at `(0, 0)` sees the board unchanged. For the player
//! seeded at the far corner the board is rotated 180 degrees (point
//! reflection through the center: `(x, y) -> (N-1-x, N-1-y)`) and ownership
//! labels are flipped, so that in every view the acting player reads as
//! `Some(true)`, the opponent as `Some(false)` and empty cells as `None`.
//! The same map translates an accepted response back to board coordinates.

use vstd::prelude::*;

use crate::StrainInput;
use crate::board::{Board, Player, cell_at, cell_index, in_bounds, valid_arena_size};

verus! {

/// The canonical-view coordinate of the board cell `(x, y)` as seen by
/// player `p`; the map is its own inverse, so it also takes view
/// coordinates back to board coordinates.
pub open spec fn view_coord(size: int, p: Player, x: int, y: int) -> (int, int) {
    match p {
        Player::A => (x, y),
        Player::B => (size - 1 - x, size - 1 - y),
    }
}

/// Relabel an occupancy for the acting player: friendly cells read `true`,
/// enemy cells `false`, empty cells stay empty.
pub open spec fn relabel(p: Player, c: Option<Player>) -> Option<bool> {
    match c {
        None => None,
        Some(q) => Some(q == p),
    }
}

/// The occupancy player `p` sees at view coordinate `(vx, vy)`.
pub open spec fn view_cell(
    size: int,
    cells: Seq<Option<Player>>,
    p: Player,
    vx: int,
    vy: int,
) -> Option<bool> {
    relabel(p, cell_at(size, cells, view_coord(size, p, vx, vy).0, view_coord(size, p, vx, vy).1))
}

/// The perspective transform is self-inverse: transforming a coordinate and
/// transforming the result again returns the original coordinate.
pub proof fn lemma_view_coord_involutive(size: int, p: Player, x: int, y: int)
    ensures
        view_coord(size, p, view_coord(size, p, x, y).0, view_coord(size, p, x, y).1) == (x, y),
{
}

/// The transform maps the arena onto itself: a coordinate is in bounds
/// exactly when its view coordinate is.
pub proof fn lemma_view_coord_in_bounds(size: int, p: Player, x: int, y: int)
    ensures
        in_bounds(size, x, y) <==> in_bounds(
            size,
            view_coord(size, p, x, y).0,
            view_coord(size, p, x, y).1,
        ),
{
}

/// In every well-seeded board the origin of the transformed view is owned
/// by the acting player. This is the geometry invariant checked after the
/// transform; because it holds of every board whose two seed corners are
/// intact, the fatal abort it would otherwise trigger cannot arise.
pub proof fn lemma_view_origin_friendly(size: int, cells: Seq<Option<Player>>, p: Player)
    requires
        valid_arena_size(size),
        cells.len() == size * size,
        cell_at(size, cells, 0, 0) == Some(Player::A),
        cell_at(size, cells, size - 1, size - 1) == Some(Player::B),
    ensures
        view_cell(size, cells, p, 0, 0) == Some(true),
{
}

/// Apply the perspective transform of player `p` to one in-bounds
/// coordinate (or, equally, map a view coordinate back to the board).
pub fn transform_coord(size: i32, p: Player, x: i32, y: i32) -> (r: (i32, i32))
    requires
        in_bounds(size as int, x as int, y as int),
    ensures
        (r.0 as int, r.1 as int) == view_coord(size as int, p, x as int, y as int),
{
    match p {
        Player::A => (x, y),
        Player::B => (size - 1 - x, size - 1 - y),
    }
}

/// Indices grow along the row-major scan of the grid.
proof fn lemma_row_major_monotone(size: int, wx: int, wy: int, vx: int, vy: int)
    requires
        in_bounds(size, wx, wy),
        0 <= vx <= size,
        0 <= vy <= size,
        wy < vy || (wy == vy && wx < vx),
    ensures
        0 <= cell_index(size, wx, wy) < vy * size + vx,
{
    assert(0 <= wy * size + wx < vy * size + vx) by (nonlinear_arith)
        requires
            0 <= wx < size,
            0 <= wy < size,
            0 <= vx <= size,
            0 <= vy <= size,
            wy < vy || (wy == vy && wx < vx),
    ;
}

/// Build the wire view handed to player `p` on its turn: the full board in
/// the player's canonical perspective, in row-major view order, together
/// with the allowed moves mapped into the same perspective.
pub fn build_view(b: &Board, p: Player, allowed: &Vec<(i32, i32)>) -> (r: StrainInput)
    requires
        b.wf(),
        forall|i: int|
            0 <= i < allowed@.len() ==> in_bounds(
                b.size(),
                #[trigger] allowed@[i].0 as int,
                allowed@[i].1 as int,
            ),
    ensures
        r.board@.len() == b.size() * b.size(),
        forall|vx: int, vy: int|
            in_bounds(b.size(), vx, vy) ==> #[trigger] r.board@[cell_index(b.size(), vx, vy)] == (
                (vx as i32, vy as i32),
                view_cell(b.size(), b.cells(), p, vx, vy),
            ),
        r.allowed@.len() == allowed@.len(),
        forall|i: int|
            0 <= i < allowed@.len() ==> ((#[trigger] r.allowed@[i]).0 as int, r.allowed@[i].1 as int)
                == view_coord(b.size(), p, allowed@[i].0 as int, allowed@[i].1 as int),
{
    let size: i32 = b.arena_size();
    let ghost gs = b.size();
    let mut entries: Vec<((i32, i32), Option<bool>)> = Vec::new();
    let mut vy: i32 = 0;
    while vy < size
        invariant
            b.wf(),
            size as int == gs,
            gs == b.size(),
            0 <= vy <= size,
            entries@.len() == vy * gs,
            forall|wx: int, wy: int|
                in_bounds(gs, wx, wy) && wy < vy ==> #[trigger] entries@[cell_index(gs, wx, wy)]
                    == ((wx as i32, wy as i32), view_cell(gs, b.cells(), p, wx, wy)),
        decreases size - vy,
    {
        let mut vx: i32 = 0;
        while vx < size
            invariant
                b.wf(),
                size as int == gs,
                gs == b.size(),
                0 <= vy < size,
                0 <= vx <= size,
                entries@.len() == vy * gs + vx,
                forall|wx: int, wy: int|
                    in_bounds(gs, wx, wy) && (wy < vy || (wy == vy && wx < vx))
                        ==> #[trigger] entries@[cell_index(gs, wx, wy)] == (
                        (wx as i32, wy as i32),
                        view_cell(gs, b.cells(), p, wx, wy),
                    ),
            decreases size - vx,
        {
            let (rx, ry) = transform_coord(size, p, vx, vy);
            proof {
                lemma_view_coord_in_bounds(gs, p, vx as int, vy as int);
            }
            let occ: Option<bool> = match b.get(rx, ry) {
                None => None,
                Some(q) => Some(q == p),
            };
            entries.push(((vx, vy), occ));
            proof {
                assert(cell_index(gs, vx as int, vy as int) == entries@.len() - 1);
                assert(entries@[cell_index(gs, vx as int, vy as int)] == (
                    (vx, vy),
                    view_cell(gs, b.cells(), p, vx as int, vy as int),
                ));
                assert forall|wx: int, wy: int|
                    in_bounds(gs, wx, wy) && (wy < vy as int || (wy == vy as int && wx < vx as int
                        + 1)) implies #[trigger] entries@[cell_index(gs, wx, wy)] == (
                    (wx as i32, wy as i32),
                    view_cell(gs, b.cells(), p, wx, wy),
                ) by {
                    if wy < vy as int || (wy == vy as int && wx < vx as int) {
                        lemma_row_major_monotone(gs, wx, wy, vx as int, vy as int);
                    }
                };
            }
            vx = vx + 1;
        }
        proof {
            assert((vy as int + 1) * gs == vy as int * gs + gs) by (nonlinear_arith);
            assert forall|wx: int, wy: int|
                in_bounds(gs, wx, wy) && wy < vy as int + 1 implies #[trigger] entries@[cell_index(
                gs,
                wx,
                wy,
            )] == ((wx as i32, wy as i32), view_cell(gs, b.cells(), p, wx, wy)) by {
                if wy < vy as int || (wy == vy as int && wx < gs) {
                }
            };
        }
        vy = vy + 1;
    }
    proof {
        assert(entries@.len() == gs * gs) by (nonlinear_arith)
            requires
                entries@.len() == (size as int) * gs,
                size as int == gs,
        ;
    }
    let mut mapped: Vec<(i32, i32)> = Vec::new();
    let mut i: usize = 0;
    let n: usize = allowed.len();
    while i < n
        invariant
            b.wf(),
            size as int == gs,
            gs == b.size(),
            n == allowed@.len(),
            0 <= i <= n,
            forall|j: int|
                0 <= j < allowed@.len() ==> in_bounds(
                    gs,
                    #[trigger] allowed@[j].0 as int,
                    allowed@[j].1 as int,
                ),
            mapped@.len() == i,
            forall|j: int|
                0 <= j < i ==> ((#[trigger] mapped@[j]).0 as int, mapped@[j].1 as int) == view_coord(
                    gs,
                    p,
                    allowed@[j].0 as int,
                    allowed@[j].1 as int,
                ),
        decreases n - i,
    {
        let (ax, ay) = allowed[i];
        let v = transform_coord(size, p, ax, ay);
        mapped.push(v);
        i = i + 1;
    }
    StrainInput { board: entries, allowed: mapped }
}

} // verus!
