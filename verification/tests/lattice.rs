use euler::lattice::lattice_points;

#[test]
fn points_on_the_circle_of_a_square() {
    // side 10: 50 = 7*7 + 1*1 = 5*5 + 5*5; only y below 5 is looked at
    assert_eq!(lattice_points(10, 7), vec![(7, 1)]);
    // side 26: 338 = 17*17 + 7*7 = 13*13 + 13*13
    assert_eq!(lattice_points(26, 18), vec![(17, 7)]);
    // side 130: 8450 = 91*91 + 13*13 = 89*89 + 23*23 = 85*85 + 35*35 = 79*79 + 47*47 = 65*65 + 65*65
    assert_eq!(lattice_points(130, 91), vec![(91, 13), (89, 23), (85, 35), (79, 47)]);
}

#[test]
fn the_start_of_the_walk_does_not_matter() {
    for start in [0, 1, 50, 91, 92, 130, 100_000] {
        assert_eq!(lattice_points(130, start), vec![(91, 13), (89, 23), (85, 35), (79, 47)]);
    }
}

#[test]
fn small_squares() {
    assert!(lattice_points(0, 0).is_empty());
    assert!(lattice_points(1, 0).is_empty());
    assert!(lattice_points(4, 2).is_empty());
    // side 9: 40 = 6*6 + 2*2
    assert_eq!(lattice_points(9, 6), vec![(6, 2)]);
    // side 2: radius squared 2, y = 0: no whole x
    assert!(lattice_points(2, 1).is_empty());
}
