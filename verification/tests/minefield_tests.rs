use minesweeper::minefield::Minefield;

#[test]
fn test_minefield_new() {
    let m1 = Minefield::new(10, 10, 100);
    assert!(m1.is_ok());
    let m2 = Minefield::new(10, 10, 101);
    assert!(m2.is_err());
}

#[test]
fn test_minefield_rejects_bad_dimensions() {
    assert!(Minefield::new(0, 5, 0).is_err());
    assert!(Minefield::new(5, 0, 0).is_err());
    assert!(Minefield::new(-3, 5, 1).is_err());
    assert!(Minefield::new(5, -3, 1).is_err());
    assert!(Minefield::new(5, 5, -1).is_err());
}

#[test]
fn test_minefield_places_exact_mine_count() {
    let m = Minefield::new(9, 7, 11).unwrap();
    let mut mines = 0;
    for r in 0..9 {
        for c in 0..7 {
            if m.is_mine(r, c) {
                mines += 1;
            }
        }
    }
    assert_eq!(mines, 11);
    assert_eq!(m.get_rows(), 9);
    assert_eq!(m.get_cols(), 7);
    assert_eq!(m.get_minecount(), 11);
}

#[test]
fn test_minefield_zero_mines() {
    let m = Minefield::new(4, 4, 0).unwrap();
    for r in 0..4 {
        for c in 0..4 {
            assert!(!m.is_mine(r, c));
        }
    }
}

#[test]
fn test_minefield_full_of_mines() {
    let m = Minefield::new(2, 2, 4).unwrap();
    for r in 0..2 {
        for c in 0..2 {
            assert!(m.is_mine(r, c));
        }
    }
    assert!(Minefield::new(2, 2, 5).is_err());
}

#[test]
fn test_queries_accept_any_coordinates() {
    let m = Minefield::new(3, 3, 1).unwrap();
    assert!(!m.is_valid_index(-1, 0));
    assert!(!m.is_valid_index(0, -1));
    assert!(!m.is_valid_index(3, 0));
    assert!(!m.is_valid_index(i32::MIN, i32::MAX));
    assert!(m.is_valid_index(2, 2));
    assert!(!m.is_mine(i32::MIN, i32::MIN));
    assert!(!m.is_mine(-1, 1));
    assert!(!m.is_mine(1, i32::MAX));
}
