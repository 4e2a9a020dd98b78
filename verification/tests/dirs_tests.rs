use floodfill::dirs::{
    Neighbours, EAST, NORTH, NORTHEAST, NORTHWEST, SOUTH, SOUTHEAST, SOUTHWEST, WEST,
};

#[test]
fn reverse_of_each_single_direction() {
    let pairs = [
        (NORTH, SOUTH),
        (NORTHEAST, SOUTHWEST),
        (EAST, WEST),
        (SOUTHEAST, NORTHWEST),
        (SOUTH, NORTH),
        (SOUTHWEST, NORTHEAST),
        (WEST, EAST),
        (NORTHWEST, SOUTHEAST),
    ];
    for (d, r) in pairs {
        assert_eq!(Neighbours { bits: d }.reverse(), Some(Neighbours { bits: r }));
    }
}

#[test]
fn reverse_rejects_empty_and_multi_bit_sets() {
    assert_eq!(Neighbours { bits: 0 }.reverse(), None);
    assert_eq!(Neighbours { bits: NORTH | EAST }.reverse(), None);
    assert_eq!(Neighbours { bits: 0xFF }.reverse(), None);
}

#[test]
fn step_moves_one_cell_with_diagonals_moving_both_ways() {
    assert_eq!(Neighbours { bits: NORTH }.step((5, 5)), (4, 5));
    assert_eq!(Neighbours { bits: SOUTH }.step((5, 5)), (6, 5));
    assert_eq!(Neighbours { bits: EAST }.step((5, 5)), (5, 6));
    assert_eq!(Neighbours { bits: WEST }.step((5, 5)), (5, 4));
    assert_eq!(Neighbours { bits: NORTHWEST }.step((1, 1)), (0, 0));
    assert_eq!(Neighbours { bits: SOUTHEAST }.step((1, 1)), (2, 2));
    assert_eq!(Neighbours { bits: NORTHEAST }.step((3, 3)), (2, 4));
    assert_eq!(Neighbours { bits: SOUTHWEST }.step((3, 3)), (4, 2));
}

#[test]
fn step_usize_matches_step() {
    assert_eq!(Neighbours { bits: SOUTHEAST }.step_usize((7, 2)), (8, 3));
    assert_eq!(Neighbours { bits: NORTH }.step_usize((1, 0)), (0, 0));
}

#[test]
fn rotate_left_turns_a_quarter_anticlockwise() {
    // the spiral turns left by rotating two compass steps
    let south = Neighbours { bits: SOUTH };
    let east = south.rotate_left(2).unwrap();
    assert_eq!(east.bits, EAST);
    let north = east.rotate_left(2).unwrap();
    assert_eq!(north.bits, NORTH);
    let west = north.rotate_left(2).unwrap();
    assert_eq!(west.bits, WEST);
    assert_eq!(west.rotate_left(2).unwrap().bits, SOUTH);
}

#[test]
fn rotate_right_undoes_rotate_left() {
    let d = Neighbours { bits: NORTHEAST };
    assert_eq!(d.rotate_left(3).unwrap().rotate_right(3).unwrap().bits, NORTHEAST);
}

#[test]
fn directions_lists_members_in_canonical_order() {
    let s = Neighbours { bits: NORTH | EAST | SOUTH | WEST };
    let ds: Vec<u8> = s.directions().iter().map(|n| n.bits).collect();
    assert_eq!(ds, vec![NORTH, EAST, SOUTH, WEST]);
    assert!(Neighbours { bits: 0 }.directions().is_empty());
    let all: Vec<u8> = Neighbours { bits: 0xFF }.directions().iter().map(|n| n.bits).collect();
    assert_eq!(
        all,
        vec![NORTH, NORTHEAST, EAST, SOUTHEAST, SOUTH, SOUTHWEST, WEST, NORTHWEST]
    );
}

#[test]
fn next_drains_the_set_in_canonical_order() {
    let mut s = Neighbours { bits: SOUTH | NORTHEAST };
    assert_eq!(s.next(), Some(Neighbours { bits: NORTHEAST }));
    assert_eq!(s.next(), Some(Neighbours { bits: SOUTH }));
    assert_eq!(s.next(), None);
    assert_eq!(s.bits, 0);
}

#[test]
fn set_operations_behave_like_a_bit_set() {
    let mut s = Neighbours::empty();
    assert!(s.is_empty());
    s.insert(Neighbours { bits: NORTH | WEST });
    assert!(s.contains(Neighbours { bits: NORTH }));
    assert!(!s.contains(Neighbours { bits: EAST }));
    s.remove(Neighbours { bits: NORTH });
    assert_eq!(s.bits, WEST);
    let d = Neighbours { bits: WEST | SOUTH }.difference(Neighbours { bits: SOUTH });
    assert_eq!(d.bits, WEST);
    assert_eq!(Neighbours::all().bits, 0xFF);
}
