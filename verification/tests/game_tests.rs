use block_the_pig::board::ClassicTile;
use block_the_pig::board::PlaceError;
use block_the_pig::game::GameInstance;
use block_the_pig::maps::ClassicMap;
use block_the_pig::posn::HexPosn;

fn enclosed_game() -> GameInstance {
    // the pig at (1,1) is walled in; the exits at the far corner cannot
    // be reached; no free placements are left
    let tiles = vec![
        (HexPosn::from_vals(1, 1), ClassicTile::Free),
        (HexPosn::from_vals(0, 1), ClassicTile::Block),
        (HexPosn::from_vals(0, 2), ClassicTile::Block),
        (HexPosn::from_vals(1, 0), ClassicTile::Block),
        (HexPosn::from_vals(1, 2), ClassicTile::Block),
        (HexPosn::from_vals(2, 1), ClassicTile::Block),
        (HexPosn::from_vals(2, 2), ClassicTile::Block),
        (HexPosn::from_vals(3, 3), ClassicTile::Edge),
        (HexPosn::from_vals(3, 4), ClassicTile::Free),
    ];
    GameInstance::new(tiles, HexPosn::from_vals(1, 1), 0).unwrap()
}

#[test]
fn classic_board_shape() {
    let g = GameInstance::classic();
    assert_eq!(g.get_dimensions(), (11, 5));
    assert_eq!(g.pig_pos(), HexPosn::from_vals(5, 2));
    let mut block_count = 0;
    for r in 0..11isize {
        for c in 0..5isize {
            let t = g.tile_at(HexPosn::from_vals(r, c)).unwrap();
            if r == 0 || c == 0 || r == 10 || c == 4 {
                assert!(t.is_exit(), "the rim must be exits");
            } else if r == 5 && c == 2 {
                assert!(matches!(t, ClassicTile::Free), "the pig's start stays free");
            } else if matches!(t, ClassicTile::Block) {
                block_count += 1;
            }
        }
    }
    // between 3 and 9 positions are drawn; duplicates and draws on the
    // rim or the start can only lower the count of blocked tiles
    assert!(block_count <= 9);
    assert_eq!(g.tile_at(HexPosn::from_vals(11, 0)), None);
}

#[test]
fn blocking_the_pig_fails_in_setup() {
    let mut g = GameInstance::classic();
    let pig = g.pig_pos();
    assert_eq!(g.block(pig), Err(PlaceError::PigInTheWay));
    // nothing changed
    assert_eq!(g.pig_pos(), pig);
    assert!(matches!(g.tile_at(pig), Some(ClassicTile::Free)));
}

#[test]
fn blocking_the_pig_fails_in_steady() {
    let mut g = enclosed_game();
    // free placements are zero, so the phase is Steady from the start
    let pig = g.pig_pos();
    assert_eq!(g.block(pig), Err(PlaceError::PigInTheWay));
    assert_eq!(g.pig_pos(), pig);
}

#[test]
fn block_outside_the_board_fails() {
    let mut g = GameInstance::classic();
    assert_eq!(g.block(HexPosn::from_vals(50, 50)), Err(PlaceError::NotOnBoard));
}

#[test]
fn block_on_a_blocked_tile_fails() {
    let mut g = enclosed_game();
    assert_eq!(
        g.block(HexPosn::from_vals(0, 1)),
        Err(PlaceError::AlreadyBlocked)
    );
}

#[test]
fn classic_scenario_four_free_placements_then_one_move() {
    // 11x5 classic board, pig at (5,2), budget 4: four placements in
    // Setup never move the pig; the fifth (entering Steady) triggers
    // exactly one pig move
    let mut g = GameInstance::classic();
    let start = g.pig_pos();
    assert_eq!(start, HexPosn::from_vals(5, 2));
    let mut successes = 0;
    'outer: for r in 1..10isize {
        for c in 1..4isize {
            if r == 5 && c == 2 {
                continue;
            }
            // keep clear of the pig's immediate ring so its one move
            // stays onto a free interior tile
            if (4..=6).contains(&r) && (1..=3).contains(&c) {
                continue;
            }
            match g.block(HexPosn::from_vals(r, c)) {
                Ok(outcome) => {
                    successes += 1;
                    if successes <= 4 {
                        assert_eq!(outcome, None, "setup placements keep the game ongoing");
                        assert_eq!(g.pig_pos(), start, "setup placements never move the pig");
                    } else {
                        // the fifth successful placement made the pig move once
                        let now = g.pig_pos();
                        assert_ne!(now, start);
                        assert!(
                            start.get_neighbors().iter().any(|(_, q)| *q == now),
                            "one single step"
                        );
                        assert_eq!(outcome, None);
                        break 'outer;
                    }
                }
                Err(PlaceError::AlreadyBlocked) => {
                    // a random block already sat here; try the next tile
                }
                Err(e) => panic!("unexpected error: {:?}", e),
            }
        }
    }
    assert_eq!(successes, 5);
}

#[test]
fn disconnected_exits_first_steady_placement_wins() {
    // all Edge tiles are cut off from the pig by pre-placed blocks: the
    // first Steady-phase placement yields the player's win
    let mut g = enclosed_game();
    assert_eq!(g.block(HexPosn::from_vals(3, 4)), Ok(Some(true)));
}

#[test]
fn game_dimensions_identical_across_two_calls() {
    let g = GameInstance::classic();
    assert_eq!(g.get_dimensions(), g.get_dimensions());
}

#[test]
fn game_refused_when_start_is_off_board_or_exit() {
    let tiles = vec![
        (HexPosn::from_vals(0, 0), ClassicTile::Edge),
        (HexPosn::from_vals(0, 1), ClassicTile::Free),
    ];
    assert!(GameInstance::new(tiles.clone(), HexPosn::from_vals(9, 9), 4).is_none());
    assert!(GameInstance::new(tiles.clone(), HexPosn::from_vals(0, 0), 4).is_none());
    assert!(GameInstance::new(tiles, HexPosn::from_vals(0, 1), 4).is_some());
}

#[test]
fn game_refused_when_a_position_is_out_of_range() {
    // boards are kept as given, but a game instance visibly refuses
    // positions outside its coordinate range
    let tiles = vec![
        (HexPosn::from_vals(0, 0), ClassicTile::Free),
        (HexPosn::from_vals(268435457, 0), ClassicTile::Edge),
    ];
    assert!(GameInstance::new(tiles, HexPosn::from_vals(0, 0), 4).is_none());
}

#[test]
fn classic_map_lists_every_cell_once() {
    let map = ClassicMap::new(11, 5);
    let tiles = map.tiles();
    assert_eq!(tiles.len(), 55);
    for r in 0..11isize {
        for c in 0..5isize {
            let idx = (r * 5 + c) as usize;
            let (p, t) = tiles[idx];
            assert_eq!(p, HexPosn::from_vals(r, c));
            if r == 0 || c == 0 || r == 10 || c == 4 {
                assert!(t.is_exit());
            }
            if r == 5 && c == 2 {
                assert!(matches!(t, ClassicTile::Free));
            }
        }
    }
}

#[test]
fn pig_win_when_step_reaches_an_exit() {
    // a tiny corridor: the pig's only neighbor tiles are one exit and
    // blocks, and no free placements are left; placing a block far away
    // makes the pig step straight onto the exit
    let tiles = vec![
        (HexPosn::from_vals(1, 1), ClassicTile::Free),
        (HexPosn::from_vals(0, 1), ClassicTile::Edge),
        (HexPosn::from_vals(0, 2), ClassicTile::Block),
        (HexPosn::from_vals(1, 0), ClassicTile::Block),
        (HexPosn::from_vals(1, 2), ClassicTile::Block),
        (HexPosn::from_vals(2, 1), ClassicTile::Block),
        (HexPosn::from_vals(2, 2), ClassicTile::Block),
        (HexPosn::from_vals(3, 3), ClassicTile::Free),
    ];
    let mut g = GameInstance::new(tiles, HexPosn::from_vals(1, 1), 0).unwrap();
    assert_eq!(g.block(HexPosn::from_vals(3, 3)), Ok(Some(false)));
    assert_eq!(g.pig_pos(), HexPosn::from_vals(0, 1));
}
