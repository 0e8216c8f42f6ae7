use numbers_station::generator::generate_sequence;

#[test]
fn sequence_for_seed_42() {
    assert_eq!(
        generate_sequence(42),
        "0 3 6 4 5  0 2 2 6 8  2 0 0 8 9  6 6 3 7 3  0 9 6 7 9  9 4 2 1 5"
    );
}

#[test]
fn sequences_for_neighbouring_seeds() {
    assert_eq!(
        generate_sequence(123),
        "0 6 7 8 8  5 8 1 7 9  9 0 7 9 1  3 9 9 7 1  2 8 0 1 3  4 2 5 1 6"
    );
    assert_eq!(
        generate_sequence(124),
        "1 8 7 0 8  3 4 5 8 2  5 6 9 9 9  7 0 1 8 0  6 5 6 8 7  8 3 1 0 5"
    );
}

#[test]
fn zero_seed_uses_the_fixed_constant() {
    let zero = generate_sequence(0);
    assert_eq!(zero, "0 3 1 0 0  2 2 4 7 5  3 3 2 1 8  1 6 3 7 9  7 6 9 2 6  8 9 4 3 8");
    assert_eq!(zero, generate_sequence(0x9E37_79B9_7F4A_7C15));
}

#[test]
fn sequence_shape() {
    let s = generate_sequence(7);
    assert_eq!(s.len(), 64);
    let groups: Vec<&str> = s.split("  ").collect();
    assert_eq!(groups.len(), 6);
    for g in groups {
        let digits: Vec<&str> = g.split(' ').collect();
        assert_eq!(digits.len(), 5);
        for d in digits {
            assert_eq!(d.len(), 1);
            assert!(d.chars().all(|c| c.is_ascii_digit()));
        }
    }
}
