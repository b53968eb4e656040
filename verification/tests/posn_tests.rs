use block_the_pig::posn::HexDirection;
use block_the_pig::posn::HexPosn;

fn all_directions() -> Vec<HexDirection> {
    vec![
        HexDirection::UpLeft,
        HexDirection::UpRight,
        HexDirection::Left,
        HexDirection::Right,
        HexDirection::BotLeft,
        HexDirection::BotRight,
    ]
}

#[test]
fn neighbors_of_even_row() {
    let p = HexPosn::from_vals(4, 2);
    assert_eq!(p.get_neighbor(HexDirection::UpLeft), HexPosn::from_vals(3, 1));
    assert_eq!(p.get_neighbor(HexDirection::UpRight), HexPosn::from_vals(3, 2));
    assert_eq!(p.get_neighbor(HexDirection::Left), HexPosn::from_vals(4, 1));
    assert_eq!(p.get_neighbor(HexDirection::Right), HexPosn::from_vals(4, 3));
    assert_eq!(p.get_neighbor(HexDirection::BotLeft), HexPosn::from_vals(5, 1));
    assert_eq!(p.get_neighbor(HexDirection::BotRight), HexPosn::from_vals(5, 2));
}

#[test]
fn neighbors_of_odd_row() {
    let p = HexPosn::from_vals(5, 2);
    assert_eq!(p.get_neighbor(HexDirection::UpLeft), HexPosn::from_vals(4, 2));
    assert_eq!(p.get_neighbor(HexDirection::UpRight), HexPosn::from_vals(4, 3));
    assert_eq!(p.get_neighbor(HexDirection::Left), HexPosn::from_vals(5, 1));
    assert_eq!(p.get_neighbor(HexDirection::Right), HexPosn::from_vals(5, 3));
    assert_eq!(p.get_neighbor(HexDirection::BotLeft), HexPosn::from_vals(6, 2));
    assert_eq!(p.get_neighbor(HexDirection::BotRight), HexPosn::from_vals(6, 3));
}

#[test]
fn neighbors_of_negative_odd_row() {
    // odd rows are shifted: parity is taken of the row value, whatever its sign
    let p = HexPosn::from_vals(-1, 0);
    assert_eq!(p.get_neighbor(HexDirection::UpLeft), HexPosn::from_vals(-2, 0));
    assert_eq!(p.get_neighbor(HexDirection::UpRight), HexPosn::from_vals(-2, 1));
}

#[test]
fn neighbor_then_opposite_returns() {
    for r in -3..4isize {
        for c in -3..4isize {
            let p = HexPosn::from_vals(r, c);
            for d in all_directions() {
                let q = p.get_neighbor(d);
                assert_eq!(q.get_neighbor(d.opposite()), p);
            }
        }
    }
}

#[test]
fn get_neighbors_order_is_canonical() {
    let p = HexPosn::from_vals(2, 2);
    let ns = p.get_neighbors();
    assert_eq!(ns.len(), 6);
    let dirs: Vec<HexDirection> = ns.iter().map(|e| e.0).collect();
    assert_eq!(dirs, all_directions());
    for (d, q) in ns {
        assert_eq!(p.get_neighbor(d), q);
    }
}

#[test]
fn direction_ranks_are_total_order() {
    let ranks: Vec<u8> = all_directions().iter().map(|d| d.rank()).collect();
    assert_eq!(ranks, vec![0, 1, 2, 3, 4, 5]);
}

#[test]
fn neighbor_steps_work_far_from_the_origin() {
    // neighbor arithmetic is defined everywhere but the isize extremes
    let p = HexPosn::from_vals(isize::MAX - 1, isize::MAX - 1);
    assert_eq!(
        p.get_neighbor(HexDirection::Right),
        HexPosn::from_vals(isize::MAX - 1, isize::MAX)
    );
    let q = HexPosn::from_vals(isize::MIN + 1, isize::MIN + 1);
    assert_eq!(
        q.get_neighbor(HexDirection::Left),
        HexPosn::from_vals(isize::MIN + 1, isize::MIN)
    );
}

#[test]
fn bounds_are_the_minimal_box_over_positions() {
    let coords = vec![
        HexPosn::from_vals(-2, 5),
        HexPosn::from_vals(3, -1),
        HexPosn::from_vals(1, 1),
    ];
    let (lo, hi) = HexPosn::get_bounds(&coords);
    assert_eq!(lo, HexPosn::from_vals(-2, -1));
    assert_eq!(hi, HexPosn::from_vals(3, 5));
    // the box of a single position is that position alone
    let (lo2, hi2) = HexPosn::get_bounds(&vec![HexPosn::from_vals(4, 7)]);
    assert_eq!(lo2, HexPosn::from_vals(4, 7));
    assert_eq!(hi2, HexPosn::from_vals(4, 7));
    // an empty list yields the origin box
    let (lo3, hi3) = HexPosn::get_bounds(&Vec::new());
    assert_eq!(lo3, HexPosn::from_vals(0, 0));
    assert_eq!(hi3, HexPosn::from_vals(0, 0));
}

#[test]
fn bounding_coords_and_in_bounds() {
    let a = HexPosn::from_vals(-2, 5);
    let b = HexPosn::from_vals(3, -1);
    let (lo, hi) = a.get_bounding_coords(b);
    assert_eq!(lo, HexPosn::from_vals(-2, -1));
    assert_eq!(hi, HexPosn::from_vals(3, 5));
    assert!(HexPosn::from_vals(0, 0).in_bounds((lo, hi)));
    assert!(HexPosn::from_vals(-2, 5).in_bounds((lo, hi)));
    assert!(!HexPosn::from_vals(4, 0).in_bounds((lo, hi)));
    assert!(!HexPosn::from_vals(0, -2).in_bounds((lo, hi)));
}
