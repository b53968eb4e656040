use std::collections::HashMap;
use std::collections::VecDeque;

use block_the_pig::board::Board;
use block_the_pig::board::ClassicTile;
use block_the_pig::game::ClassicPig;
use block_the_pig::posn::HexPosn;

/// Builds a board from rows of characters: 'E' exit, 'F' free, 'B'
/// blocked, '.' no tile at all.
fn board_from(rows: &[&str]) -> Board {
    let mut tiles = Vec::new();
    for (r, row) in rows.iter().enumerate() {
        for (c, ch) in row.chars().enumerate() {
            let t = match ch {
                'E' => ClassicTile::Edge,
                'F' => ClassicTile::Free,
                'B' => ClassicTile::Block,
                _ => continue,
            };
            tiles.push((HexPosn::from_vals(r as isize, c as isize), t));
        }
    }
    Board::new(tiles)
}

/// Exhaustive shortest-distance search, independent of the pig's own
/// algorithm: the length of the shortest walk across passable tiles from
/// `start` to any exit, or `None` when no exit can be reached.
fn exhaustive_escape_distance(board: &Board, start: HexPosn) -> Option<usize> {
    let mut dist: HashMap<(isize, isize), usize> = HashMap::new();
    let mut queue: VecDeque<HexPosn> = VecDeque::new();
    dist.insert((start.r, start.c), 0);
    queue.push_back(start);
    while let Some(p) = queue.pop_front() {
        let d = dist[&(p.r, p.c)];
        if let Some(t) = board.get_tile(p) {
            if t.is_exit() && d > 0 {
                return Some(d);
            }
        }
        if d == 0 || board.get_tile(p).map(|t| t.is_passable()).unwrap_or(false) {
            for (_, q) in p.get_neighbors() {
                let passable = board.get_tile(q).map(|t| t.is_passable()).unwrap_or(false);
                if passable && !dist.contains_key(&(q.r, q.c)) {
                    dist.insert((q.r, q.c), d + 1);
                    queue.push_back(q);
                }
            }
        }
    }
    None
}

fn check_one_move_against_exhaustive(rows: &[&str], start: HexPosn) {
    let board = board_from(rows);
    let d = exhaustive_escape_distance(&board, start);
    let mut pig = ClassicPig { position: start };
    let moved = pig.move_pig(&board);
    match d {
        None => {
            assert_eq!(moved, None);
            assert_eq!(pig.position, start);
        }
        Some(d) => {
            let p = moved.expect("an exit is reachable, so the pig must move");
            assert_eq!(pig.position, p);
            assert!(start.get_neighbors().iter().any(|(_, q)| *q == p));
            let rest = exhaustive_escape_distance(&board, p);
            if d == 1 {
                // the step itself reached the exit
                assert!(board.get_tile(p).unwrap().is_exit());
            } else {
                assert_eq!(rest, Some(d - 1), "the move must follow a shortest route");
            }
        }
    }
}

#[test]
fn bfs_distance_matches_exhaustive_search() {
    // several boards no larger than 7x7, checked against exhaustive search
    check_one_move_against_exhaustive(
        &["EEEEEEE", "EFFFFFE", "EFBBBFE", "EFBFBFE", "EFBBBFE", "EFFFFFE", "EEEEEEE"],
        HexPosn::from_vals(3, 3),
    );
    check_one_move_against_exhaustive(
        &["EEEEE", "EFFFE", "EFFFE", "EFFFE", "EEEEE"],
        HexPosn::from_vals(2, 2),
    );
    check_one_move_against_exhaustive(
        &["EEEEEEE", "EBBBBBE", "EBFFFBE", "EBFFFBE", "EBBFBBE", "EFFFFFE", "EEEEEEE"],
        HexPosn::from_vals(3, 3),
    );
    check_one_move_against_exhaustive(
        &["EEEEE", "EFBFE", "EBFBE", "EFBFE", "EEEEE"],
        HexPosn::from_vals(2, 2),
    );
}

#[test]
fn enclosed_pig_reports_no_move() {
    // every neighbor of (2,2) is blocked; exits exist but are unreachable
    let board = board_from(&["EEEEE", "EBBFE", "EBFBE", "EBBFE", "EEEEE"]);
    let start = HexPosn::from_vals(2, 2);
    assert_eq!(exhaustive_escape_distance(&board, start), None);
    let mut pig = ClassicPig { position: start };
    assert_eq!(pig.move_pig(&board), None);
    assert_eq!(pig.position, start);
}

#[test]
fn single_reachable_exit_is_approached() {
    // one exit at (0,2); every other boundary tile is blocked
    let board = board_from(&["BBEBB", "BFFFB", "BFFFB", "BFFFB", "BBBBB"]);
    let start = HexPosn::from_vals(3, 2);
    let exit = HexPosn::from_vals(0, 2);
    let d_before = exhaustive_escape_distance(&board, start).unwrap();
    let mut pig = ClassicPig { position: start };
    let p = pig.move_pig(&board).unwrap();
    // the chosen step lands strictly closer to the only reachable exit
    let d_after = exhaustive_escape_distance(&board, p);
    if d_before == 1 {
        assert_eq!(p, exit);
    } else {
        assert_eq!(d_after, Some(d_before - 1));
    }
}

#[test]
fn tie_break_prefers_up_left() {
    // all rim tiles are exits at equal distance; the lexicographically
    // least shortest route starts with UpLeft
    let board = board_from(&["EEEEE", "EFFFE", "EFFFE", "EFFFE", "EEEEE"]);
    let start = HexPosn::from_vals(2, 2);
    let mut pig = ClassicPig { position: start };
    let p = pig.move_pig(&board).unwrap();
    // (2,2) is an even row: UpLeft is (1,1)
    assert_eq!(p, HexPosn::from_vals(1, 1));
}

#[test]
fn pig_standing_next_to_exit_steps_onto_it() {
    let board = board_from(&["EEE", "EFE", "EEE"]);
    let start = HexPosn::from_vals(1, 1);
    let mut pig = ClassicPig { position: start };
    let p = pig.move_pig(&board).unwrap();
    assert!(board.get_tile(p).unwrap().is_exit());
    // odd row: the UpLeft neighbor of (1,1) is (0,1)
    assert_eq!(p, HexPosn::from_vals(0, 1));
}
