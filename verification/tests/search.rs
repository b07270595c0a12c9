use lights_out::board::Board;
use lights_out::driver::search;
use lights_out::puzzle::Search;
use lights_out::replay::find_move;
use lights_out::replay::replay;
use lights_out::replay::try_replay;
use lights_out::state::SearchState;

fn lit_board(width: usize, rows: &[u64]) -> Board {
    Board::from_rows(width, rows.to_vec()).unwrap()
}

fn two_pluses() -> Board {
    lit_board(5, &[0b00010, 0b00111, 0b01010, 0b11100, 0b01000])
}

fn three_pluses() -> Board {
    lit_board(6, &[0b010010, 0b111111, 0b010010, 0b000010, 0b000111, 0b000010])
}

#[test]
fn solved_one_by_one_board_is_returned_at_once() {
    for max_depth in [0, 1, 5, usize::MAX] {
        let board = lit_board(1, &[0]);
        assert!(board.end());
        let (result, explored) = search(board, max_depth);
        let state = result.unwrap();
        assert_eq!(state.history().len(), 0);
        assert_eq!(state.latest_move_index(), None);
        assert_eq!(state.path(), Vec::<usize>::new());
        assert_eq!(*state.latest(), Board::new(1, 1));
        assert_eq!(explored, 0);
    }
}

#[test]
fn solved_board_is_returned_at_once() {
    let (result, explored) = search(Board::new(5, 5), 0);
    let state = result.unwrap();
    assert!(state.history().is_empty());
    assert_eq!(state.latest_move_index(), None);
    assert_eq!(*state.latest(), Board::new(5, 5));
    assert_eq!(*state.score(), 25);
    assert_eq!(explored, 0);
}

#[test]
fn lit_one_by_one_board_has_no_move_to_take() {
    let board = lit_board(1, &[1]);
    assert_eq!(board.score(), 0);
    assert!(!board.end());
    assert_eq!(board.clone_toggle(0, 0), Board::new(1, 1));
    assert!(board.moves().is_empty());
    let (result, explored) = search(board.clone(), 1);
    assert!(result.is_none());
    assert_eq!(explored, 1);
    let (result, explored) = search(board, 0);
    assert!(result.is_none());
    assert_eq!(explored, 0);
}

#[test]
fn one_move_solves_a_lit_plus() {
    let board = lit_board(3, &[0b010, 0b111, 0b010]);
    let (result, explored) = search(board, 1);
    let state = result.unwrap();
    assert!(state.history().is_empty());
    assert_eq!(state.latest_move_index(), Some(4));
    assert_eq!(state.path(), vec![4]);
    assert_eq!(*state.latest(), Board::new(3, 3));
    assert!(state.latest().end());
    assert_eq!(*state.score(), 9);
    assert_eq!(explored, 1);
}

#[test]
fn depth_bound_of_zero_expands_nothing() {
    let board = lit_board(3, &[0b010, 0b111, 0b010]);
    let (result, explored) = search(board, 0);
    assert!(result.is_none());
    assert_eq!(explored, 0);
}

#[test]
fn two_moves_solve_two_lit_pluses() {
    let (result, explored) = search(two_pluses(), 1);
    let state = result.unwrap();
    assert_eq!(*state.history(), vec![6]);
    assert_eq!(state.latest_move_index(), Some(18));
    assert_eq!(state.path(), vec![6, 18]);
    assert_eq!(*state.latest(), Board::new(5, 5));
    assert_eq!(explored, 2);
}

#[test]
fn state_with_a_history_as_long_as_the_bound_is_not_expanded() {
    let (result, explored) = search(three_pluses(), 1);
    assert!(result.is_none());
    assert_eq!(explored, 4);
    let (result, explored) = search(three_pluses(), 2);
    let state = result.unwrap();
    assert_eq!(*state.history(), vec![7, 10]);
    assert_eq!(state.latest_move_index(), Some(25));
    assert_eq!(*state.latest(), Board::new(6, 6));
    assert_eq!(explored, 3);
}

#[test]
fn search_without_a_way_ends_without_a_solution() {
    let board = lit_board(3, &[0b000, 0b010, 0b000]);
    let (result, explored) = search(board, 9);
    assert!(result.is_none());
    assert_eq!(explored, 1);
    let stuck = lit_board(3, &[0b011, 0b001, 0b100]);
    let (result, explored) = search(stuck, 9);
    assert!(result.is_none());
    assert_eq!(explored, 2);
}

#[test]
fn search_gives_the_same_result_when_it_is_repeated() {
    for max_depth in [0, 1, 2, 36] {
        let (first, first_explored) = search(three_pluses(), max_depth);
        let (second, second_explored) = search(three_pluses(), max_depth);
        assert_eq!(first_explored, second_explored);
        assert_eq!(first.is_some(), second.is_some());
        if let (Some(a), Some(b)) = (first, second) {
            assert_eq!(a.latest(), b.latest());
            assert_eq!(a.path(), b.path());
        }
    }
}

#[test]
fn solution_is_solved_and_within_the_bound() {
    for max_depth in [2, 3, 36] {
        let (result, _) = search(three_pluses(), max_depth);
        let state = result.unwrap();
        assert!(state.latest().end());
        assert!(state.history().len() <= max_depth);
        assert_eq!(*state.score(), state.latest().score());
    }
}

#[test]
fn replay_of_the_path_ends_in_the_solution() {
    let initial = two_pluses();
    let (result, _) = search(initial.clone(), 25);
    let state = result.unwrap();
    let boards = replay(&initial, &state.path());
    assert_eq!(boards.len(), 2);
    assert_eq!(boards[0], lit_board(5, &[0, 0, 0b01000, 0b11100, 0b01000]));
    assert_eq!(boards[1], *state.latest());
    let initial = three_pluses();
    let (result, _) = search(initial.clone(), 36);
    let state = result.unwrap();
    let boards = try_replay(&initial, &state.path()).unwrap();
    assert_eq!(boards.len(), state.path().len());
    assert_eq!(boards.last().unwrap(), state.latest());
}

#[test]
fn replay_of_the_history_ends_in_the_parent_of_the_solution() {
    let initial = two_pluses();
    let (result, _) = search(initial.clone(), 25);
    let state = result.unwrap();
    let boards = replay(&initial, state.history());
    assert_eq!(boards.len(), 1);
    assert_eq!(boards[0].clone_toggle(3, 3), *state.latest());
}

#[test]
fn replay_of_no_moves_gives_no_boards() {
    let boards = replay(&two_pluses(), &Vec::new());
    assert!(boards.is_empty());
}

#[test]
fn replay_names_the_move_that_it_cannot_find() {
    let initial = lit_board(3, &[0b010, 0b111, 0b010]);
    assert_eq!(try_replay(&initial, &vec![3]).err(), Some(3));
    assert_eq!(try_replay(&initial, &vec![4, 4]).err(), Some(4));
    assert_eq!(try_replay(&two_pluses(), &vec![6, 18, 6]).err(), Some(6));
    assert_eq!(try_replay(&two_pluses(), &vec![18, 7, 6]).err(), Some(7));
}

#[test]
fn find_move_takes_the_first_move_with_the_identifier() {
    let tall = lit_board(2, &[0b11, 0b11, 0b11]);
    assert_eq!(find_move(&tall, 2), Some(tall.clone_toggle(0, 2)));
    assert_eq!(find_move(&tall, 4), Some(tall.clone_toggle(1, 2)));
    assert_eq!(find_move(&tall, 5), None);
}

#[test]
fn root_has_no_history_and_no_move() {
    let state = SearchState::from(two_pluses());
    assert!(state.history().is_empty());
    assert_eq!(state.latest_move_index(), None);
    assert_eq!(*state.score(), 15);
    assert_eq!(*state.latest(), two_pluses());
    assert!(state.path().is_empty());
}

#[test]
fn child_takes_over_the_path_of_its_parent() {
    let root = SearchState::from(two_pluses());
    let children = root.moves();
    assert_eq!(children.len(), 2);
    assert!(children[0].history().is_empty());
    assert_eq!(children[0].latest_move_index(), Some(6));
    assert_eq!(*children[0].score(), 20);
    assert!(children[1].history().is_empty());
    assert_eq!(children[1].latest_move_index(), Some(18));
    let grandchildren = children[1].moves();
    assert_eq!(grandchildren.len(), 1);
    assert_eq!(*grandchildren[0].history(), vec![18]);
    assert_eq!(grandchildren[0].latest_move_index(), Some(6));
    assert_eq!(grandchildren[0].path(), vec![18, 6]);
    assert_eq!(*grandchildren[0].score(), 25);
    assert_eq!(*grandchildren[0].latest(), Board::new(5, 5));
    assert!(grandchildren[0].moves().is_empty());
    assert!(children[1].history().is_empty());
}

#[test]
fn search_states_are_ordered_by_their_score() {
    let low = SearchState::from(two_pluses());
    let high = SearchState::from(Board::new(5, 5));
    assert!(high.outranks(&low));
    assert!(!low.outranks(&high));
    assert!(!low.outranks(&low));
    assert_eq!(low.into_latest(), two_pluses());
}

#[test]
fn replay_can_miss_the_way_where_cells_share_an_identifier() {
    let initial = lit_board(3, &[0b010, 0b111, 0b011, 0b111, 0b111]);
    let (result, _) = search(initial.clone(), 15);
    let state = result.unwrap();
    assert!(state.latest().end());
    assert_eq!(state.path(), vec![4, 3, 10]);
    assert_eq!(try_replay(&initial, &state.path()).err(), Some(3));
}
