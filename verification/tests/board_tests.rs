use block_the_pig::board::Board;
use block_the_pig::board::ClassicTile;
use block_the_pig::board::PlaceError;
use block_the_pig::posn::HexPosn;

fn small_board() -> Board {
    // 3x3: rim of exits around one free tile
    let mut tiles = Vec::new();
    for r in 0..3isize {
        for c in 0..3isize {
            let t = if r == 0 || c == 0 || r == 2 || c == 2 {
                ClassicTile::Edge
            } else {
                ClassicTile::Free
            };
            tiles.push((HexPosn::from_vals(r, c), t));
        }
    }
    Board::new(tiles)
}

#[test]
fn tile_kinds() {
    assert!(ClassicTile::Free.is_passable());
    assert!(ClassicTile::Edge.is_passable());
    assert!(!ClassicTile::Block.is_passable());
    assert!(!ClassicTile::Free.is_exit());
    assert!(ClassicTile::Edge.is_exit());
    assert!(!ClassicTile::Block.is_exit());
}

#[test]
fn place_onto_cases() {
    assert_eq!(ClassicTile::Free.place_onto(ClassicTile::Block), Ok(ClassicTile::Block));
    assert_eq!(ClassicTile::Edge.place_onto(ClassicTile::Block), Ok(ClassicTile::Block));
    assert_eq!(
        ClassicTile::Block.place_onto(ClassicTile::Block),
        Err(PlaceError::AlreadyBlocked)
    );
    assert_eq!(
        ClassicTile::Free.place_onto(ClassicTile::Free),
        Err(PlaceError::AlreadyBlocked)
    );
}

#[test]
fn get_tile_present_and_absent() {
    let b = small_board();
    assert!(matches!(b.get_tile(HexPosn::from_vals(1, 1)), Some(ClassicTile::Free)));
    assert!(matches!(b.get_tile(HexPosn::from_vals(0, 2)), Some(ClassicTile::Edge)));
    assert_eq!(b.get_tile(HexPosn::from_vals(5, 5)), None);
    assert_eq!(b.get_tile(HexPosn::from_vals(-1, 0)), None);
}

#[test]
fn place_twice_first_succeeds_second_fails() {
    let mut b = small_board();
    let p = HexPosn::from_vals(1, 1);
    assert_eq!(b.place(p, ClassicTile::Block), Ok(()));
    assert!(matches!(b.get_tile(p), Some(ClassicTile::Block)));
    assert_eq!(b.place(p, ClassicTile::Block), Err(PlaceError::AlreadyBlocked));
}

#[test]
fn place_outside_the_map_fails() {
    let mut b = small_board();
    assert_eq!(
        b.place(HexPosn::from_vals(9, 9), ClassicTile::Block),
        Err(PlaceError::NotOnBoard)
    );
}

#[test]
fn later_entry_for_a_position_wins() {
    let tiles = vec![
        (HexPosn::from_vals(0, 0), ClassicTile::Free),
        (HexPosn::from_vals(0, 0), ClassicTile::Edge),
    ];
    let b = Board::new(tiles);
    assert!(matches!(b.get_tile(HexPosn::from_vals(0, 0)), Some(ClassicTile::Edge)));
}

#[test]
fn construction_caps_the_tile_count() {
    let mut tiles = Vec::new();
    for i in 0..120isize {
        tiles.push((HexPosn::from_vals(0, i), ClassicTile::Free));
    }
    let b = Board::new(tiles);
    assert!(b.get_tile(HexPosn::from_vals(0, 99)).is_some());
    assert_eq!(b.get_tile(HexPosn::from_vals(0, 100)), None);
    assert_eq!(b.get_tile(HexPosn::from_vals(0, 119)), None);
}

#[test]
fn far_positions_are_kept() {
    // the key set is exactly the consumed entries, wherever they lie
    let far = HexPosn::from_vals(268435457, 0);
    let b = Board::new(vec![(far, ClassicTile::Free)]);
    assert!(matches!(b.get_tile(far), Some(ClassicTile::Free)));
    let (lo, hi) = b.get_dimensions();
    assert_eq!(lo, far);
    assert_eq!(hi, far);
}

#[test]
fn dimensions_are_the_minimal_box() {
    let tiles = vec![
        (HexPosn::from_vals(-2, -1), ClassicTile::Free),
        (HexPosn::from_vals(3, 4), ClassicTile::Free),
    ];
    let b = Board::new(tiles);
    let (lo, hi) = b.get_dimensions();
    assert_eq!(lo, HexPosn::from_vals(-2, -1));
    assert_eq!(hi, HexPosn::from_vals(3, 4));

    let only_positive = Board::new(vec![(HexPosn::from_vals(2, 3), ClassicTile::Free)]);
    let (lo2, hi2) = only_positive.get_dimensions();
    // the box is the smallest one over the occupied positions alone
    assert_eq!(lo2, HexPosn::from_vals(2, 3));
    assert_eq!(hi2, HexPosn::from_vals(2, 3));
}

#[test]
fn dimensions_identical_across_two_calls() {
    let b = small_board();
    let first = b.get_dimensions();
    let second = b.get_dimensions();
    assert_eq!(first, second);
}

#[test]
fn empty_board_has_origin_bounds_and_no_tiles() {
    let b = Board::new(Vec::new());
    assert_eq!(b.get_tile(HexPosn::from_vals(0, 0)), None);
    let (lo, hi) = b.get_dimensions();
    assert_eq!(lo, HexPosn::from_vals(0, 0));
    assert_eq!(hi, HexPosn::from_vals(0, 0));
}
