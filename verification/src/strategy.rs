//! Built-in strain strategies: deterministic policies that pick a move from
//! the wire view a strain receives on its turn.
//!
//! Each policy works purely on the view it is handed and returns `None`
//! exactly when it has no move to offer, instead of failing.

use vstd::prelude::*;

use crate::StrainInput;

verus! {

/// The squared Euclidean distance of a view coordinate from the view
/// origin, which is the acting player's own seed corner.
pub open spec fn origin_dist(c: (i32, i32)) -> int {
    c.0 * c.0 + c.1 * c.1
}

/// The squared distance of a coordinate from the view origin.
fn origin_dist_key(c: (i32, i32)) -> (r: i128)
    ensures
        r == origin_dist(c),
{
    proof {
        assert((c.0 as int) * (c.0 as int) <= 0x4000000000000000int && (c.0 as int) * (
        c.0 as int) >= 0 && (c.1 as int) * (c.1 as int) <= 0x4000000000000000int && (c.1 as int)
            * (c.1 as int) >= 0) by (nonlinear_arith)
            requires
                -0x80000000 <= c.0 <= 0x7fffffff,
                -0x80000000 <= c.1 <= 0x7fffffff,
        ;
    }
    (c.0 as i128) * (c.0 as i128) + (c.1 as i128) * (c.1 as i128)
}

/// Play the first allowed move of the view.
pub fn first_choice(input: &StrainInput) -> (r: Option<(i32, i32)>)
    ensures
        match r {
            Some(m) => input.allowed@.len() > 0 && m == input.allowed@[0],
            None => input.allowed@.len() == 0,
        },
{
    if input.allowed.len() == 0 {
        None
    } else {
        Some(input.allowed[0])
    }
}

/// `m` is the earliest member of `allowed` with minimal squared distance
/// from the view origin.
pub open spec fn is_first_nearest(allowed: Seq<(i32, i32)>, m: (i32, i32)) -> bool {
    &&& (exists|i: int|
        0 <= i < allowed.len() && m == #[trigger] allowed[i] && (forall|k: int|
            0 <= k < i ==> origin_dist(#[trigger] allowed[k]) > origin_dist(m)))
    &&& (forall|k: int|
        0 <= k < allowed.len() ==> origin_dist(#[trigger] allowed[k]) >= origin_dist(m))
}

/// `m` is the latest member of `allowed` with maximal squared distance from
/// the view origin.
pub open spec fn is_last_farthest(allowed: Seq<(i32, i32)>, m: (i32, i32)) -> bool {
    &&& (exists|i: int|
        0 <= i < allowed.len() && m == #[trigger] allowed[i] && (forall|k: int|
            i < k < allowed.len() ==> origin_dist(#[trigger] allowed[k]) < origin_dist(m)))
    &&& (forall|k: int|
        0 <= k < allowed.len() ==> origin_dist(#[trigger] allowed[k]) <= origin_dist(m))
}

/// Play the allowed move closest to the view origin (the earliest such move
/// on a tie): fill outward from the player's own corner.
pub fn fill(input: &StrainInput) -> (r: Option<(i32, i32)>)
    ensures
        match r {
            Some(m) => input.allowed@.len() > 0 && is_first_nearest(input.allowed@, m),
            None => input.allowed@.len() == 0,
        },
{
    let n: usize = input.allowed.len();
    if n == 0 {
        return None;
    }
    let mut best: (i32, i32) = input.allowed[0];
    let mut best_key: i128 = origin_dist_key(best);
    let mut best_idx: usize = 0;
    let mut k: usize = 1;
    while k < n
        invariant
            n == input.allowed@.len(),
            0 < n,
            1 <= k <= n,
            0 <= best_idx < k,
            best == input.allowed@[best_idx as int],
            best_key == origin_dist(best),
            forall|j: int|
                0 <= j < k ==> origin_dist(#[trigger] input.allowed@[j]) >= origin_dist(best),
            forall|j: int|
                0 <= j < best_idx ==> origin_dist(#[trigger] input.allowed@[j]) > origin_dist(
                    best,
                ),
        decreases n - k,
    {
        let cand = input.allowed[k];
        let cand_key = origin_dist_key(cand);
        if cand_key < best_key {
            best = cand;
            best_key = cand_key;
            best_idx = k;
        }
        k = k + 1;
    }
    Some(best)
}

/// Play the allowed move farthest from the view origin (the latest such
/// move on a tie): fill backward from the opponent's corner.
pub fn fill_reverse(input: &StrainInput) -> (r: Option<(i32, i32)>)
    ensures
        match r {
            Some(m) => input.allowed@.len() > 0 && is_last_farthest(input.allowed@, m),
            None => input.allowed@.len() == 0,
        },
{
    let n: usize = input.allowed.len();
    if n == 0 {
        return None;
    }
    let mut best: (i32, i32) = input.allowed[0];
    let mut best_key: i128 = origin_dist_key(best);
    let mut best_idx: usize = 0;
    let mut k: usize = 1;
    while k < n
        invariant
            n == input.allowed@.len(),
            0 < n,
            1 <= k <= n,
            0 <= best_idx < k,
            best == input.allowed@[best_idx as int],
            best_key == origin_dist(best),
            forall|j: int|
                0 <= j < k ==> origin_dist(#[trigger] input.allowed@[j]) <= origin_dist(best),
            forall|j: int|
                best_idx < j < k ==> origin_dist(#[trigger] input.allowed@[j]) < origin_dist(
                    best,
                ),
        decreases n - k,
    {
        let cand = input.allowed[k];
        let cand_key = origin_dist_key(cand);
        if cand_key >= best_key {
            best = cand;
            best_key = cand_key;
            best_idx = k;
        }
        k = k + 1;
    }
    Some(best)
}

/// `c` occurs in the view, as a board coordinate or as an allowed move.
pub open spec fn known_coord(
    board: Seq<((i32, i32), Option<bool>)>,
    allowed: Seq<(i32, i32)>,
    c: (i32, i32),
) -> bool {
    (exists|j: int| 0 <= j < board.len() && (#[trigger] board[j]).0 == c) || allowed.contains(c)
}

/// A duplicate-free sequence of view coordinates has at most as many
/// entries as the board and allowed lists together.
proof fn lemma_visited_bound(
    visited: Seq<(i32, i32)>,
    board: Seq<((i32, i32), Option<bool>)>,
    allowed: Seq<(i32, i32)>,
)
    requires
        visited.no_duplicates(),
        forall|i: int| 0 <= i < visited.len() ==> known_coord(board, allowed, #[trigger] visited[i]),
    ensures
        visited.len() <= board.len() + allowed.len(),
{
    broadcast use vstd::seq_lib::seq_to_set_is_finite;

    let keys = board.map_values(|e: ((i32, i32), Option<bool>)| e.0);
    visited.unique_seq_to_set();
    keys.lemma_cardinality_of_set();
    allowed.lemma_cardinality_of_set();
    assert forall|v: (i32, i32)| visited.to_set().contains(v) implies keys.to_set().union(
        allowed.to_set(),
    ).contains(v) by {
        let i = choose|i: int| 0 <= i < visited.len() && visited[i] == v;
        assert(known_coord(board, allowed, v));
        if exists|j: int| 0 <= j < board.len() && (#[trigger] board[j]).0 == v {
            let j = choose|j: int| 0 <= j < board.len() && (#[trigger] board[j]).0 == v;
            assert(keys[j] == v);
            assert(keys.contains(v));
            assert(keys.to_set().contains(v));
        } else {
            assert(allowed.to_set().contains(v));
        }
    };
    vstd::set_lib::lemma_len_union(keys.to_set(), allowed.to_set());
    vstd::set_lib::lemma_len_subset(
        visited.to_set(),
        keys.to_set().union(allowed.to_set()),
    );
}

/// Whether the list of coordinates contains `c`.
fn contains_coord(v: &Vec<(i32, i32)>, c: (i32, i32)) -> (r: bool)
    ensures
        r == v@.contains(c),
{
    let n: usize = v.len();
    let mut i: usize = 0;
    while i < n
        invariant
            n == v@.len(),
            0 <= i <= n,
            forall|t: int| 0 <= t < i ==> v@[t] != c,
        decreases n - i,
    {
        if v[i].0 == c.0 && v[i].1 == c.1 {
            proof {
                assert(v@[i as int] == c);
            }
            return true;
        }
        i = i + 1;
    }
    false
}

/// Look the candidate neighbor up in the view; when it is an empty board
/// cell that was not yet visited, mark it and enqueue it with the allowed
/// move its search started from.
fn bfs_push(
    input: &StrainInput,
    queue: &mut Vec<((i32, i32), (i32, i32))>,
    visited: &mut Vec<(i32, i32)>,
    first: (i32, i32),
    nx: i64,
    ny: i64,
)
    requires
        old(visited)@.no_duplicates(),
        forall|t: int|
            0 <= t < old(visited)@.len() ==> known_coord(
                input.board@,
                input.allowed@,
                #[trigger] old(visited)@[t],
            ),
        forall|t: int|
            0 <= t < old(queue)@.len() ==> input.allowed@.contains(
                (#[trigger] old(queue)@[t]).0,
            ),
        input.allowed@.contains(first),
    ensures
        final(visited)@.no_duplicates(),
        forall|t: int|
            0 <= t < final(visited)@.len() ==> known_coord(
                input.board@,
                input.allowed@,
                #[trigger] final(visited)@[t],
            ),
        forall|t: int|
            0 <= t < final(queue)@.len() ==> input.allowed@.contains(
                (#[trigger] final(queue)@[t]).0,
            ),
        final(queue)@.len() - old(queue)@.len() == final(visited)@.len() - old(visited)@.len(),
        old(queue)@.len() <= final(queue)@.len() <= old(queue)@.len() + 1,
        forall|t: int| 0 <= t < old(queue)@.len() ==> final(queue)@[t] == old(queue)@[t],
{
    let n: usize = input.board.len();
    let mut idx: usize = 0;
    let mut hit: bool = false;
    let mut hit_key: (i32, i32) = (0, 0);
    let mut hit_empty: bool = false;
    while idx < n && !hit
        invariant
            n == input.board@.len(),
            0 <= idx <= n,
            hit ==> idx < n && (exists|j: int|
                0 <= j < input.board@.len() && (#[trigger] input.board@[j]).0 == hit_key),
        decreases n - idx, (if hit {
            0int
        } else {
            1int
        }),
    {
        let e = input.board[idx];
        if (e.0.0 as i64) == nx && (e.0.1 as i64) == ny {
            hit = true;
            hit_key = e.0;
            hit_empty = matches!(e.1, None);
        } else {
            idx = idx + 1;
        }
    }
    if hit && hit_empty {
        if !contains_coord(visited, hit_key) {
            visited.push(hit_key);
            queue.push((first, hit_key));
        }
    }
}

/// Search for an allowed move from which the far corner of the view (the
/// last cell maximizing `x + y`) is reachable through empty cells,
/// breadth-first, four-directionally. When no allowed move reaches it, play
/// the one whose search came closest to it. Returns a member of the allowed
/// list, and `None` exactly when the view is empty.
pub fn pathfinding(input: &StrainInput) -> (r: Option<(i32, i32)>)
    ensures
        match r {
            Some(m) => input.board@.len() > 0 && input.allowed@.len() > 0
                && input.allowed@.contains(m),
            None => input.board@.len() == 0 || input.allowed@.len() == 0,
        },
{
    let n: usize = input.board.len();
    let an: usize = input.allowed.len();
    if n == 0 || an == 0 {
        return None;
    }
    let mut target: (i32, i32) = input.board[0].0;
    let mut tkey: i64 = (target.0 as i64) + (target.1 as i64);
    let mut i: usize = 1;
    while i < n
        invariant
            n == input.board@.len(),
            1 <= i <= n,
        decreases n - i,
    {
        let c = input.board[i].0;
        let ck: i64 = (c.0 as i64) + (c.1 as i64);
        if ck >= tkey {
            target = c;
            tkey = ck;
        }
        i = i + 1;
    }
    let mut queue: Vec<((i32, i32), (i32, i32))> = Vec::new();
    let mut visited: Vec<(i32, i32)> = Vec::new();
    let mut k: usize = 0;
    while k < an
        invariant
            n == input.board@.len(),
            an == input.allowed@.len(),
            0 <= k <= an,
            visited@.no_duplicates(),
            forall|t: int|
                0 <= t < visited@.len() ==> known_coord(
                    input.board@,
                    input.allowed@,
                    #[trigger] visited@[t],
                ),
            forall|t: int|
                0 <= t < queue@.len() ==> input.allowed@.contains((#[trigger] queue@[t]).0),
        decreases an - k,
    {
        let c = input.allowed[k];
        if !contains_coord(&visited, c) {
            proof {
                assert(input.allowed@.contains(input.allowed@[k as int]));
            }
            visited.push(c);
            queue.push((c, c));
        }
        k = k + 1;
    }
    proof {
        assert(input.allowed@.contains(input.allowed@[0]));
        lemma_visited_bound(visited@, input.board@, input.allowed@);
    }
    let mut best_first: (i32, i32) = input.allowed[0];
    let mut best_dist: i64 = i64::MAX;
    let mut head: usize = 0;
    while head < queue.len()
        invariant
            n == input.board@.len(),
            an == input.allowed@.len(),
            n > 0,
            an > 0,
            0 <= head <= queue@.len(),
            visited@.no_duplicates(),
            forall|t: int|
                0 <= t < visited@.len() ==> known_coord(
                    input.board@,
                    input.allowed@,
                    #[trigger] visited@[t],
                ),
            forall|t: int|
                0 <= t < queue@.len() ==> input.allowed@.contains((#[trigger] queue@[t]).0),
            input.allowed@.contains(best_first),
            visited@.len() <= n + an,
        decreases (n + an) - visited@.len(), queue@.len() - head,
    {
        let (first, pos) = queue[head];
        if pos.0 == target.0 && pos.1 == target.1 {
            return Some(first);
        }
        let mut dx: i64 = (target.0 as i64) - (pos.0 as i64);
        if dx < 0 {
            dx = -dx;
        }
        let mut dy: i64 = (target.1 as i64) - (pos.1 as i64);
        if dy < 0 {
            dy = -dy;
        }
        let d: i64 = dx + dy;
        if d < best_dist {
            best_dist = d;
            best_first = first;
        }
        bfs_push(input, &mut queue, &mut visited, first, (pos.0 as i64) + 1, pos.1 as i64);
        bfs_push(input, &mut queue, &mut visited, first, (pos.0 as i64) - 1, pos.1 as i64);
        bfs_push(input, &mut queue, &mut visited, first, pos.0 as i64, (pos.1 as i64) + 1);
        bfs_push(input, &mut queue, &mut visited, first, pos.0 as i64, (pos.1 as i64) - 1);
        proof {
            lemma_visited_bound(visited@, input.board@, input.allowed@);
        }
        head = head + 1;
    }
    Some(best_first)
}

} // verus!
