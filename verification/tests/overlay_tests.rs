use minesweeper::overlay::{Overlay, OverlayCell};

#[test]
fn test_overlay_new_all_covered() {
    let o = Overlay::new(3, 4, 2).unwrap();
    assert_eq!(o.get_rows(), 3);
    assert_eq!(o.get_cols(), 4);
    assert_eq!(o.get_minecount(), 2);
    assert_eq!(o.get_flag_count(), 0);
    for r in 0..3 {
        for c in 0..4 {
            assert_eq!(o.get_cell(r, c), Some(OverlayCell::Covered));
        }
    }
    assert_eq!(o.get_cell(-1, 0), None);
    assert_eq!(o.get_cell(0, 4), None);
    assert_eq!(o.get_cell(i32::MAX, i32::MIN), None);
}

#[test]
fn test_overlay_new_propagates_failure() {
    assert!(Overlay::new(10, 10, 101).is_err());
    assert!(Overlay::new(0, 10, 0).is_err());
}

#[test]
fn test_flag_unflag_restores() {
    let mut o = Overlay::new(2, 2, 4).unwrap();
    let before = o.get_flag_count();
    o.flag(1, 1);
    assert_eq!(o.get_cell(1, 1), Some(OverlayCell::Flagged));
    assert_eq!(o.get_flag_count(), before + 1);
    o.unflag(1, 1);
    assert_eq!(o.get_cell(1, 1), Some(OverlayCell::Covered));
    assert_eq!(o.get_flag_count(), before);
}

#[test]
fn test_flag_ignores_everything_but_covered() {
    let mut o = Overlay::new(2, 2, 0).unwrap();
    o.dig(0, 0);
    let dug = o.get_cell(0, 0);
    o.flag(0, 0);
    assert_eq!(o.get_cell(0, 0), dug);
    assert_eq!(o.get_flag_count(), 0);
    o.flag(-5, 2);
    assert_eq!(o.get_flag_count(), 0);
    o.unflag(1, 1);
    assert_eq!(o.get_cell(1, 1), Some(OverlayCell::Covered));
    assert_eq!(o.get_flag_count(), 0);
}

#[test]
fn test_dig_is_noop_on_non_covered() {
    let mut o = Overlay::new(2, 2, 0).unwrap();
    assert_eq!(o.dig(0, 0), Some(OverlayCell::Uncovered(0)));
    assert_eq!(o.dig(0, 0), Some(OverlayCell::Uncovered(0)));
    assert_eq!(o.dig(-1, 0), None);
    o.flag(1, 1);
    assert_eq!(o.dig(1, 1), Some(OverlayCell::Flagged));
    assert_eq!(o.get_cell(1, 1), Some(OverlayCell::Flagged));
}

#[test]
fn test_dig_mine_explodes() {
    let mut o = Overlay::new(1, 1, 1).unwrap();
    assert_eq!(o.dig(0, 0), Some(OverlayCell::Exploded));
    assert_eq!(o.get_cell(0, 0), Some(OverlayCell::Exploded));
}

#[test]
fn test_dig_counts_adjacent_mines() {
    // every other cell of a 2x2 board is a mine: the safe dig reports three
    let mut o = Overlay::new(2, 2, 4).unwrap();
    // all four are mines here, so digging explodes instead
    assert_eq!(o.dig(0, 0), Some(OverlayCell::Exploded));

    // a board without mines counts zero everywhere
    let mut z = Overlay::new(3, 3, 0).unwrap();
    assert_eq!(z.dig(1, 1), Some(OverlayCell::Uncovered(0)));
}

#[test]
fn test_victory_condition_arithmetic() {
    let mut o = Overlay::new(1, 2, 1).unwrap();
    // two covered cells, one mine: 0 flags + 2 covered != 1
    assert!(!o.is_victory_condition());
    // flagging one cell keeps the sum: 1 + 1 != 1 is false -> victory holds
    // only once a cell is actually uncovered or the numbers line up
    o.flag(0, 0);
    assert_eq!(o.get_flag_count(), 1);
    assert!(!o.is_victory_condition());
    o.unflag(0, 0);
    assert!(!o.is_victory_condition());
}

#[test]
fn test_reveal_mines_marks_covered_mines_and_bad_flags() {
    // all mines: flag one cell, then reveal; the flag sits on a mine so it
    // stays, every other covered cell shows its mine
    let mut o = Overlay::new(2, 2, 4).unwrap();
    o.flag(0, 1);
    o.reveal_mines();
    assert_eq!(o.get_cell(0, 0), Some(OverlayCell::Mine));
    assert_eq!(o.get_cell(0, 1), Some(OverlayCell::Flagged));
    assert_eq!(o.get_cell(1, 0), Some(OverlayCell::Mine));
    assert_eq!(o.get_cell(1, 1), Some(OverlayCell::Mine));

    // no mines: a flag on a harmless cell becomes a bad flag
    let mut z = Overlay::new(1, 2, 0).unwrap();
    z.flag(0, 0);
    z.reveal_mines();
    assert_eq!(z.get_cell(0, 0), Some(OverlayCell::BadFlag));
    assert_eq!(z.get_cell(0, 1), Some(OverlayCell::Covered));
}

#[test]
fn test_flag_all_mines_flags_covered_mines() {
    let mut o = Overlay::new(2, 2, 4).unwrap();
    o.flag_all_mines();
    assert_eq!(o.get_flag_count(), 4);
    for r in 0..2 {
        for c in 0..2 {
            assert_eq!(o.get_cell(r, c), Some(OverlayCell::Flagged));
        }
    }
}
