use toroidal_life::grid::next_alive;

#[test]
fn rule_exhaustive() {
    for &alive in &[false, true] {
        for n in 0u8..=8 {
            let expected = (alive && n == 2) || n == 3;
            assert_eq!(next_alive(alive, n), expected, "alive={} n={}", alive, n);
        }
    }
}

#[test]
fn rule_examples() {
    assert!(next_alive(true, 2));
    assert!(next_alive(true, 3));
    assert!(next_alive(false, 3));
    assert!(!next_alive(false, 2));
    assert!(!next_alive(true, 1));
    assert!(!next_alive(true, 4));
    assert!(!next_alive(false, 0));
    assert!(!next_alive(false, 8));
}
