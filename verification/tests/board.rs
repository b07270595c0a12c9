use lights_out::board::Board;
use lights_out::puzzle::Search;
use rand::rngs::StdRng;
use rand::Rng;
use rand::SeedableRng;

fn board_of(width: usize, rows: &[u64]) -> Board {
    Board::from_rows(width, rows.to_vec()).unwrap()
}

fn rows_of(board: &Board) -> Vec<u64> {
    (0..board.height()).map(|y| board.row(y)).collect()
}

#[test]
fn new_board_is_dark_and_solved() {
    let board = Board::new(3, 2);
    assert_eq!(board.width(), 3);
    assert_eq!(board.height(), 2);
    assert_eq!(rows_of(&board), vec![0, 0]);
    for y in 0..2 {
        for x in 0..3 {
            assert!(!board.get(x, y));
        }
    }
    assert_eq!(board.score(), 6);
    assert!(board.end());
}

#[test]
fn board_without_cells_is_solved() {
    let no_columns = Board::new(0, 3);
    assert_eq!(no_columns.score(), 0);
    assert!(no_columns.end());
    assert!(no_columns.moves().is_empty());
    let no_rows = Board::new(4, 0);
    assert_eq!(no_rows.score(), 0);
    assert!(no_rows.end());
    assert!(no_rows.moves().is_empty());
}

#[test]
fn set_writes_one_cell() {
    let mut board = Board::new(3, 2);
    board.set(1, 0, true);
    assert!(board.get(1, 0));
    assert!(!board.get(0, 0));
    assert!(!board.get(2, 0));
    assert!(!board.get(1, 1));
    assert_eq!(rows_of(&board), vec![2, 0]);
    assert_eq!(board.score(), 5);
    assert!(!board.end());
    board.set(1, 0, true);
    assert_eq!(rows_of(&board), vec![2, 0]);
    board.set(2, 1, true);
    assert_eq!(rows_of(&board), vec![2, 4]);
    board.set(1, 0, false);
    assert_eq!(rows_of(&board), vec![0, 4]);
    board.set(0, 1, false);
    assert_eq!(rows_of(&board), vec![0, 4]);
}

#[test]
fn from_rows_takes_rows_that_fit() {
    let board = board_of(3, &[0b101, 0b010]);
    assert_eq!(board.width(), 3);
    assert_eq!(board.height(), 2);
    assert!(board.get(0, 0));
    assert!(!board.get(1, 0));
    assert!(board.get(2, 0));
    assert!(!board.get(0, 1));
    assert!(board.get(1, 1));
    assert!(!board.get(2, 1));
    assert!(Board::from_rows(64, vec![u64::MAX]).is_some());
    assert!(Board::from_rows(0, vec![0, 0]).is_some());
    assert!(Board::from_rows(5, Vec::new()).is_some());
}

#[test]
fn from_rows_refuses_what_does_not_fit() {
    assert!(Board::from_rows(65, vec![0]).is_none());
    assert!(Board::from_rows(3, vec![0b1000]).is_none());
    assert!(Board::from_rows(3, vec![0b111, 0b1111]).is_none());
    assert!(Board::from_rows(0, vec![1]).is_none());
    assert!(Board::from_rows(63, vec![1 << 63]).is_none());
}

#[test]
fn score_counts_the_cells_that_are_off() {
    assert_eq!(board_of(3, &[0b111, 0b111]).score(), 0);
    assert_eq!(board_of(3, &[0b101, 0b010]).score(), 3);
    assert_eq!(board_of(3, &[0b000, 0b100]).score(), 5);
    assert_eq!(board_of(64, &[u64::MAX, 0, 1]).score(), 127);
    assert_eq!(board_of(1, &[1, 0, 1, 1]).score(), 1);
}

#[test]
fn score_lies_between_zero_and_the_number_of_cells() {
    for first in 0..8u64 {
        for second in 0..8u64 {
            let board = board_of(3, &[first, second]);
            assert!(board.score() <= 6);
        }
    }
}

#[test]
fn end_holds_exactly_at_the_full_score() {
    for first in 0..4u64 {
        for second in 0..4u64 {
            let board = board_of(2, &[first, second]);
            assert_eq!(board.end(), board.score() == 4);
            assert_eq!(board.end(), first == 0 && second == 0);
        }
    }
}

#[test]
fn toggle_in_the_interior_flips_five_cells() {
    let board = Board::new(3, 3).clone_toggle(1, 1);
    assert_eq!(rows_of(&board), vec![0b010, 0b111, 0b010]);
    assert_eq!(board.score(), 4);
}

#[test]
fn toggle_on_an_edge_flips_four_cells() {
    let top = Board::new(3, 3).clone_toggle(1, 0);
    assert_eq!(rows_of(&top), vec![0b111, 0b010, 0b000]);
    let left = Board::new(3, 3).clone_toggle(0, 1);
    assert_eq!(rows_of(&left), vec![0b001, 0b011, 0b001]);
    let right = Board::new(3, 3).clone_toggle(2, 1);
    assert_eq!(rows_of(&right), vec![0b100, 0b110, 0b100]);
    let bottom = Board::new(3, 3).clone_toggle(1, 2);
    assert_eq!(rows_of(&bottom), vec![0b000, 0b010, 0b111]);
    assert_eq!(bottom.score(), 5);
}

#[test]
fn toggle_in_a_corner_flips_three_cells() {
    let first = Board::new(3, 3).clone_toggle(0, 0);
    assert_eq!(rows_of(&first), vec![0b011, 0b001, 0b000]);
    let last = Board::new(3, 3).clone_toggle(2, 2);
    assert_eq!(rows_of(&last), vec![0b000, 0b100, 0b110]);
    assert_eq!(last.score(), 6);
}

#[test]
fn toggle_flips_lit_cells_off() {
    let board = board_of(3, &[0b110, 0b011, 0b000]).clone_toggle(1, 1);
    assert_eq!(rows_of(&board), vec![0b100, 0b100, 0b010]);
}

#[test]
fn toggle_stays_within_the_board() {
    let narrow = Board::new(1, 1).clone_toggle(0, 0);
    assert_eq!(rows_of(&narrow), vec![1]);
    let column = Board::new(1, 3).clone_toggle(0, 1);
    assert_eq!(rows_of(&column), vec![1, 1, 1]);
    let row = Board::new(3, 1).clone_toggle(2, 0);
    assert_eq!(rows_of(&row), vec![0b110]);
    let wide = Board::new(64, 1).clone_toggle(63, 0);
    assert_eq!(rows_of(&wide), vec![0xC000_0000_0000_0000]);
    let wide_first = Board::new(64, 2).clone_toggle(0, 1);
    assert_eq!(rows_of(&wide_first), vec![1, 3]);
}

#[test]
fn toggle_leaves_its_board_as_it_was() {
    let board = board_of(3, &[0b101, 0b010]);
    let _ = board.clone_toggle(1, 1);
    assert_eq!(rows_of(&board), vec![0b101, 0b010]);
}

#[test]
fn toggle_twice_gives_the_board_back() {
    let board = board_of(4, &[0b1010, 0b0110, 0b0001]);
    for y in 0..3 {
        for x in 0..4 {
            let once = board.clone_toggle(x, y);
            assert!(once != board);
            let twice = once.clone_toggle(x, y);
            assert_eq!(twice, board);
            assert!(twice.same(&board));
        }
    }
}

#[test]
fn dark_board_has_no_moves() {
    assert!(Board::new(3, 3).moves().is_empty());
    assert!(Board::new(5, 5).moves().is_empty());
}

#[test]
fn lit_plus_in_the_interior_is_a_move() {
    let board = board_of(3, &[0b010, 0b111, 0b010]);
    let moves = board.moves();
    assert_eq!(moves.len(), 1);
    assert_eq!(moves[0].1, 4);
    assert_eq!(moves[0].0, Board::new(3, 3));
}

#[test]
fn lit_plus_on_an_edge_is_a_move() {
    let board = board_of(3, &[0b111, 0b010, 0b000]);
    let moves = board.moves();
    assert_eq!(moves.len(), 1);
    assert_eq!(moves[0].1, 3);
    assert_eq!(moves[0].0, Board::new(3, 3));
}

#[test]
fn lit_plus_in_a_corner_is_a_move() {
    let board = board_of(3, &[0b011, 0b001, 0b000]);
    let moves = board.moves();
    assert_eq!(moves.len(), 1);
    assert_eq!(moves[0].1, 0);
    assert_eq!(moves[0].0, Board::new(3, 3));
    let other = board_of(3, &[0b000, 0b100, 0b110]);
    let moves = other.moves();
    assert_eq!(moves.len(), 1);
    assert_eq!(moves[0].1, 8);
    assert_eq!(moves[0].0, Board::new(3, 3));
}

#[test]
fn toggle_that_changes_the_score_by_less_is_no_move() {
    let partly_lit = board_of(3, &[0b010, 0b101, 0b010]);
    assert!(partly_lit.moves().is_empty());
    let one_cell = board_of(3, &[0b000, 0b010, 0b000]);
    assert!(one_cell.moves().is_empty());
}

#[test]
fn board_of_one_column_or_one_row_has_no_moves() {
    assert!(board_of(1, &[1]).moves().is_empty());
    assert!(board_of(1, &[1, 1, 1]).moves().is_empty());
    assert!(board_of(3, &[0b111]).moves().is_empty());
    assert!(board_of(2, &[0b11]).moves().is_empty());
}

#[test]
fn moves_come_column_by_column() {
    let board = board_of(5, &[0b00010, 0b00111, 0b01010, 0b11100, 0b01000]);
    let moves = board.moves();
    assert_eq!(moves.len(), 2);
    assert_eq!(moves[0].1, 6);
    assert_eq!(rows_of(&moves[0].0), vec![0, 0, 0b01000, 0b11100, 0b01000]);
    assert_eq!(moves[1].1, 18);
    assert_eq!(rows_of(&moves[1].0), vec![0b00010, 0b00111, 0b00010, 0, 0]);
}

#[test]
fn identifier_of_a_move_is_column_times_width_plus_row() {
    let board = board_of(4, &[0b0111, 0b0010]);
    let moves = board.moves();
    assert_eq!(moves.len(), 1);
    assert_eq!(moves[0].1, 4);
    let tall = board_of(2, &[0b11, 0b11, 0b11]);
    let ids: Vec<usize> = tall.moves().iter().map(|step| step.1).collect();
    assert_eq!(ids, vec![0, 1, 2, 2, 3, 4]);
}

#[test]
fn moves_never_hold_the_board_itself() {
    let board = board_of(2, &[0b11, 0b11, 0b11]);
    for (next, _) in board.moves() {
        assert!(next != board);
    }
}

#[test]
fn set_row_keeps_the_first_cells_of_the_word() {
    let mut board = Board::new(4, 2);
    board.set_row(1, 0xff);
    assert_eq!(rows_of(&board), vec![0, 0xf]);
    board.set_row(0, 0b10101);
    assert_eq!(rows_of(&board), vec![0b0101, 0xf]);
    let mut wide = Board::new(64, 1);
    wide.set_row(0, u64::MAX);
    assert_eq!(rows_of(&wide), vec![u64::MAX]);
    let mut none = Board::new(0, 1);
    none.set_row(0, u64::MAX);
    assert_eq!(rows_of(&none), vec![0]);
}

#[test]
fn randomize_gives_the_same_board_for_the_same_seed() {
    let mut first = Board::new(5, 5);
    first.randomize(42);
    let mut second = Board::new(5, 5);
    second.set(3, 3, true);
    second.randomize(42);
    assert_eq!(first, second);
    assert_eq!(rows_of(&first), rows_of(&second));
}

#[test]
fn randomize_takes_its_rows_from_the_seeded_generator() {
    let mut board = Board::new(5, 4);
    board.randomize(7);
    let mut rng = StdRng::seed_from_u64(7);
    let expected: Vec<u64> = (0..4).map(|_| rng.gen::<u64>() % (1 << 5)).collect();
    assert_eq!(rows_of(&board), expected);
    let mut wide = Board::new(64, 3);
    wide.randomize(7);
    let mut rng = StdRng::seed_from_u64(7);
    let expected: Vec<u64> = (0..3).map(|_| rng.gen::<u64>()).collect();
    assert_eq!(rows_of(&wide), expected);
    assert!(expected[0] != 7);
    assert!(expected[0] != expected[1]);
}

#[test]
fn randomize_depends_on_the_seed() {
    let mut first = Board::new(64, 4);
    first.randomize(1);
    let mut second = Board::new(64, 4);
    second.randomize(2);
    assert!(first != second);
}

#[test]
fn render_draws_two_characters_for_each_cell() {
    let board = board_of(2, &[0b01, 0b10]);
    assert_eq!(board.render(), "██░░\n░░██\n");
    assert_eq!(Board::new(3, 1).render(), "░░░░░░\n");
    assert_eq!(Board::new(0, 2).render(), "\n\n");
    assert_eq!(Board::new(2, 0).render(), "");
}

#[test]
fn boards_are_equal_when_shape_and_cells_are() {
    let board = board_of(3, &[0b101, 0b010]);
    let copy = board.clone();
    assert_eq!(board, copy);
    assert!(board.same(&copy));
    let other = board_of(3, &[0b101, 0b011]);
    assert!(board != other);
    assert!(!board.same(&other));
    assert!(Board::new(2, 3) != Board::new(3, 2));
    assert!(Board::new(2, 2) != Board::new(3, 2));
    assert!(!Board::new(2, 2).same(&Board::new(2, 3)));
}

#[test]
fn moves_are_the_toggles_that_raise_the_score_as_expected() {
    let expected = [[3, 4, 3], [4, 5, 4], [3, 4, 3]];
    for bits in 0..512u64 {
        let board = board_of(3, &[bits & 7, (bits >> 3) & 7, bits >> 6]);
        let moves = board.moves();
        let mut at = 0;
        for x in 0..3 {
            for y in 0..3 {
                let next = board.clone_toggle(x, y);
                if next.score() == board.score() + expected[y][x] {
                    assert_eq!(moves[at].0, next);
                    assert_eq!(moves[at].1, x * 3 + y);
                    at += 1;
                }
            }
        }
        assert_eq!(moves.len(), at);
    }
}

#[test]
fn move_turns_a_lit_plus_off() {
    for bits in 0..512u64 {
        let board = board_of(3, &[bits & 7, (bits >> 3) & 7, bits >> 6]);
        for (next, id) in board.moves() {
            let (x, y) = (id / 3, id % 3);
            assert!(board.get(x, y));
            assert!(!next.get(x, y));
            assert!(next.score() >= board.score() + 3);
            for (nx, ny) in [(x + 1, y), (x, y + 1)] {
                if nx < 3 && ny < 3 {
                    assert!(board.get(nx, ny));
                    assert!(!next.get(nx, ny));
                }
            }
        }
    }
}
