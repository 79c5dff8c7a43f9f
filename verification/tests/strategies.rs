use codestrain::strategy::{fill, fill_reverse, first_choice, pathfinding};
use codestrain::StrainInput;

fn view(board: Vec<((i32, i32), Option<bool>)>, allowed: Vec<(i32, i32)>) -> StrainInput {
    StrainInput { board, allowed }
}

#[test]
fn first_choice_takes_the_first_allowed_move() {
    let input = view(vec![], vec![(5, 5), (1, 1)]);
    assert_eq!(first_choice(&input), Some((5, 5)));
    assert_eq!(first_choice(&view(vec![], vec![])), None);
}

#[test]
fn fill_takes_the_nearest_move_and_breaks_ties_forward() {
    let input = view(vec![], vec![(2, 2), (1, 0), (0, 1), (3, 0)]);
    assert_eq!(fill(&input), Some((1, 0)));
    // a tie keeps the earliest candidate
    let tie = view(vec![], vec![(1, 0), (0, 1)]);
    assert_eq!(fill(&tie), Some((1, 0)));
    assert_eq!(fill(&view(vec![], vec![])), None);
}

#[test]
fn fill_reverse_takes_the_farthest_move_and_breaks_ties_backward() {
    let input = view(vec![], vec![(2, 2), (1, 0), (0, 1), (3, 0)]);
    assert_eq!(fill_reverse(&input), Some((3, 0)));
    // a tie keeps the latest candidate
    let tie = view(vec![], vec![(1, 0), (0, 1)]);
    assert_eq!(fill_reverse(&tie), Some((0, 1)));
    assert_eq!(fill_reverse(&view(vec![], vec![])), None);
}

#[test]
fn pathfinding_prefers_a_move_that_reaches_the_far_corner() {
    // 3x3 view: own seed at the origin, everything else empty; the far
    // corner (2,2) is reachable from (1,1) but the search from (0,1) is
    // crowded out by the earlier visit marks
    let mut board: Vec<((i32, i32), Option<bool>)> = Vec::new();
    for y in 0..3 {
        for x in 0..3 {
            let occ = if x == 0 && y == 0 { Some(true) } else { None };
            board.push(((x, y), occ));
        }
    }
    let input = view(board, vec![(0, 1), (1, 1)]);
    assert_eq!(pathfinding(&input), Some((1, 1)));
}

#[test]
fn pathfinding_falls_back_to_the_closest_search() {
    // the far corner is owned, so no search reaches it; both allowed moves
    // come equally close and the first is kept
    let board = vec![
        ((0, 0), Some(true)),
        ((1, 0), None),
        ((0, 1), None),
        ((1, 1), Some(false)),
    ];
    let input = view(board, vec![(1, 0), (0, 1)]);
    assert_eq!(pathfinding(&input), Some((1, 0)));
}

#[test]
fn pathfinding_needs_a_board_and_allowed_moves() {
    assert_eq!(pathfinding(&view(vec![], vec![(1, 1)])), None);
    assert_eq!(pathfinding(&view(vec![((0, 0), None)], vec![])), None);
}
