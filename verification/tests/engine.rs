use minesweeper::game::{Cell, State};

fn scripted_board() -> State {
    // 3x3 grid, one mine forced into the top-left corner.
    let mut st = State::new(3, 3, 1, Some(0)).unwrap();
    st.place_mines_from(&vec![(0, 0)]);
    st
}

fn count_mines(st: &State) -> i32 {
    let mut n = 0;
    for c in st.under_field.iter() {
        if matches!(c, Cell::Mine | Cell::DeactivatedMine) {
            n += 1;
        }
    }
    n
}

#[test]
fn new_rejects_too_many_mines() {
    // 3*3 - 1 = 8 cells outside a radius-0 safe zone.
    assert!(State::new(3, 3, 9, Some(0)).is_err());
    assert!(State::new(3, 3, 8, Some(0)).is_ok());
}

#[test]
fn new_default_radius_is_three() {
    // 8*8 - 7*7 = 15 cells left over with the default radius.
    assert!(State::new(8, 8, 15, None).is_ok());
    assert!(State::new(8, 8, 16, None).is_err());
}

#[test]
fn new_board_starts_hidden() {
    let st = State::new(4, 3, 2, Some(1)).unwrap();
    assert_eq!(st.field_width, 4);
    assert_eq!(st.field_height, 3);
    assert!(st.is_play);
    assert_eq!(st.marked_mines_count, 0);
    assert!(st.under_field.iter().all(|c| matches!(c, Cell::Uninitialized)));
    assert!(st.mask_field.iter().all(|c| matches!(c, Cell::Closed)));
}

#[test]
fn scripted_numbers_are_exact() {
    let st = scripted_board();
    // Mine at (0,0); its three neighbours count it; the rest are empty.
    let expect = [
        Cell::Mine,
        Cell::Number(1),
        Cell::Empty,
        Cell::Number(1),
        Cell::Number(1),
        Cell::Empty,
        Cell::Empty,
        Cell::Empty,
        Cell::Empty,
    ];
    assert_eq!(st.under_field, expect);
}

#[test]
fn mine_count_after_first_open() {
    let mut st = State::new(9, 9, 10, None).unwrap();
    st.open(4, 4);
    assert_eq!(count_mines(&st), 10);
}

#[test]
fn safe_zone_holds_no_mine() {
    let mut st = State::new(9, 9, 10, Some(2)).unwrap();
    st.open(4, 4);
    for y in 2..=6usize {
        for x in 2..=6usize {
            let c = st.under_field[y * 9 + x];
            assert!(!matches!(c, Cell::Mine | Cell::DeactivatedMine));
        }
    }
}

#[test]
fn first_open_in_safe_zone_is_not_a_mine() {
    let mut st = State::new(5, 5, 8, Some(1)).unwrap();
    let c = st.open(2, 2);
    assert!(!matches!(c, Cell::Mine | Cell::DeactivatedMine));
}

#[test]
fn flood_fill_reveals_region_and_border() {
    let mut st = scripted_board();
    let c = st.open(2, 2);
    assert_eq!(c, Cell::Empty);
    // Every cell but the mine belongs to the empty region or its
    // numbered border, so only the mine stays hidden.
    for y in 0..3usize {
        for x in 0..3usize {
            if x == 0 && y == 0 {
                assert_eq!(st.mask_field[y * 3 + x], Cell::Closed);
            } else {
                assert_eq!(st.mask_field[y * 3 + x], Cell::Open);
            }
        }
    }
}

#[test]
fn reopening_is_a_no_op() {
    let mut st = scripted_board();
    st.open(2, 2);
    let mask_before = st.mask_field.clone();
    let under_before = st.under_field.clone();
    let c = st.open(2, 2);
    assert_eq!(c, Cell::Empty);
    assert_eq!(st.mask_field, mask_before);
    assert_eq!(st.under_field, under_before);
}

#[test]
fn flood_fill_stops_at_numbers() {
    // 5x1 row with a mine at the right end: Empty Empty Empty 1 Mine.
    let mut st = State::new(5, 1, 1, Some(0)).unwrap();
    st.place_mines_from(&vec![(4, 0)]);
    st.open(0, 0);
    assert_eq!(st.mask_field[0], Cell::Open);
    assert_eq!(st.mask_field[1], Cell::Open);
    assert_eq!(st.mask_field[2], Cell::Open);
    assert_eq!(st.mask_field[3], Cell::Open);
    assert_eq!(st.mask_field[4], Cell::Closed);
    assert_eq!(st.under_field[3], Cell::Number(1));
}

#[test]
fn opening_a_mine_returns_mine_and_open_all_reveals() {
    let mut st = scripted_board();
    let c = st.open(0, 0);
    assert_eq!(c, Cell::Mine);
    st.open_all();
    assert!(st.mask_field.iter().all(|c| matches!(c, Cell::Open)));
    // The reveal never touches the truth grid.
    assert_eq!(st.under_field[0], Cell::Mine);
}

#[test]
fn mark_disarms_and_unmark_restores() {
    let mut st = scripted_board();
    let c = st.mark(0, 0);
    assert_eq!(c, Cell::DeactivatedMine);
    assert_eq!(st.mask_field[0], Cell::Mark);
    assert_eq!(st.marked_mines_count, 1);
    let c = st.mark(0, 0);
    assert_eq!(c, Cell::Mine);
    assert_eq!(st.mask_field[0], Cell::Closed);
    assert_eq!(st.marked_mines_count, 0);
}

#[test]
fn mark_on_a_plain_cell_moves_no_counter() {
    let mut st = scripted_board();
    let c = st.mark(2, 2);
    assert_eq!(c, Cell::Empty);
    assert_eq!(st.mask_field[2 * 3 + 2], Cell::Mark);
    assert_eq!(st.marked_mines_count, 0);
    st.mark(2, 2);
    assert_eq!(st.mask_field[2 * 3 + 2], Cell::Closed);
    assert_eq!(st.marked_mines_count, 0);
}

#[test]
fn mark_leaves_revealed_cells_alone() {
    let mut st = scripted_board();
    st.open(2, 2);
    st.mark(2, 2);
    assert_eq!(st.mask_field[2 * 3 + 2], Cell::Open);
    assert_eq!(st.marked_mines_count, 0);
}

#[test]
fn question_toggles_and_touches_nothing_else() {
    let mut st = scripted_board();
    let c = st.question(0, 0);
    assert_eq!(c, Cell::Mine);
    assert_eq!(st.mask_field[0], Cell::Question);
    assert_eq!(st.marked_mines_count, 0);
    st.question(0, 0);
    assert_eq!(st.mask_field[0], Cell::Closed);
    // A flagged cell cannot be questioned.
    st.mark(0, 0);
    st.question(0, 0);
    assert_eq!(st.mask_field[0], Cell::Mark);
}

#[test]
fn win_needs_exactly_the_mine_flagged() {
    // 5x5 grid, one mine forced into the centre.
    let mut st = State::new(5, 5, 1, Some(0)).unwrap();
    st.place_mines_from(&vec![(2, 2)]);
    assert!(!st.check_win());
    st.mark(2, 2);
    assert!(st.check_win());

    let mut other = State::new(5, 5, 1, Some(0)).unwrap();
    other.place_mines_from(&vec![(2, 2)]);
    other.mark(1, 1);
    assert!(!other.check_win());
}

#[test]
fn wrongly_flagged_cells_do_not_block_a_win() {
    let mut st = scripted_board();
    st.mark(1, 1);
    assert!(!st.check_win());
    st.mark(0, 0);
    assert!(st.check_win());
}

#[test]
fn scripted_placement_skips_taken_positions() {
    // The script repeats a position; the second mine lands on the next
    // fresh position in the list.
    let mut st = State::new(3, 3, 2, Some(0)).unwrap();
    st.place_mines_from(&vec![(0, 0), (0, 0), (2, 0)]);
    assert_eq!(st.under_field[0], Cell::Mine);
    assert_eq!(st.under_field[2], Cell::Mine);
    assert_eq!(count_mines(&st), 2);
}

#[test]
fn scenario_three_by_three_corner_mine() {
    let mut st = scripted_board();
    let c = st.open(2, 2);
    assert_eq!(c, Cell::Empty);
    let c = st.open(1, 1);
    assert_eq!(c, Cell::Number(1));
    let c = st.mark(0, 0);
    assert_eq!(c, Cell::DeactivatedMine);
    assert!(st.check_win());
}
