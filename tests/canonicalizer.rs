use tokyodoves::canonicalizer::PositionMapper;

#[test]
fn quarter_turn_of_a_three_by_two_rectangle() {
    // b at 0, a at 1, B at 4, H at 9 go to 2, 6, 1 and 4.
    let mapper = PositionMapper::try_create(3, 2).unwrap();
    assert_eq!(mapper.map(0, 0), 2);
    assert_eq!(mapper.map(0, 1), 6);
    assert_eq!(mapper.map(0, 4), 1);
    assert_eq!(mapper.map(0, 9), 4);
}

#[test]
fn sizes_out_of_range_are_refused() {
    assert!(PositionMapper::try_create(0, 1).is_none());
    assert!(PositionMapper::try_create(1, 5).is_none());
    let mapper = PositionMapper::try_create(4, 4).unwrap();
    assert_eq!(mapper.map(8, 0), 0);
    assert_eq!(mapper.map(0, 16), 0);
}

#[test]
fn full_square_maps_are_permutations() {
    let mapper = PositionMapper::try_create(4, 4).unwrap();
    for index in 0..8 {
        let mut seen = [false; 16];
        for pos in 0..16 {
            seen[mapper.map(index, pos)] = true;
        }
        assert!(seen.iter().all(|&s| s));
    }
    // Four quarter turns bring every square back.
    let mut pos = 5;
    for _ in 0..4 {
        pos = PositionMapper::try_create(4, 4).unwrap().map(0, pos);
    }
    assert_eq!(pos, 5);
}
