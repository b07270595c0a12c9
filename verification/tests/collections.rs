use lights_out::board::Board;
use lights_out::frontier::Frontier;
use lights_out::puzzle::Ordered;
use lights_out::state::SearchState;
use lights_out::visited::Visited;

fn state_of(width: usize, rows: &[u64]) -> SearchState<Board> {
    SearchState::from(Board::from_rows(width, rows.to_vec()).unwrap())
}

#[test]
fn frontier_gives_the_highest_score_first() {
    let mut frontier: Frontier<Board> = Frontier::new();
    assert_eq!(frontier.len(), 0);
    frontier.push(state_of(2, &[0b11, 0b01]));
    frontier.push(state_of(2, &[0b00, 0b01]));
    frontier.push(state_of(2, &[0b11, 0b11]));
    frontier.push(state_of(2, &[0b10, 0b01]));
    assert_eq!(frontier.len(), 4);
    let scores: Vec<usize> =
        (0..4).map(|_| *frontier.pop().unwrap().score()).collect();
    assert_eq!(scores, vec![3, 2, 1, 0]);
    assert_eq!(frontier.len(), 0);
    assert!(frontier.pop().is_none());
}

#[test]
fn frontier_gives_the_first_of_equal_scores_first() {
    let mut frontier: Frontier<Board> = Frontier::new();
    frontier.push(state_of(2, &[0b01, 0b00]));
    frontier.push(state_of(2, &[0b11, 0b00]));
    frontier.push(state_of(2, &[0b10, 0b00]));
    frontier.push(state_of(2, &[0b00, 0b10]));
    let first = frontier.pop().unwrap();
    assert_eq!(first.latest().row(0), 0b01);
    let second = frontier.pop().unwrap();
    assert_eq!(second.latest().row(0), 0b10);
    let third = frontier.pop().unwrap();
    assert_eq!(third.latest().row(1), 0b10);
    let fourth = frontier.pop().unwrap();
    assert_eq!(fourth.latest().row(0), 0b11);
    assert!(frontier.pop().is_none());
}

#[test]
fn visited_counts_each_board_once() {
    let mut visited: Visited<Board> = Visited::new();
    assert_eq!(visited.len(), 0);
    let board = Board::from_rows(2, vec![0b01, 0b10]).unwrap();
    assert!(!visited.contains(&board));
    assert!(visited.insert(board.clone()));
    assert!(visited.contains(&board));
    assert_eq!(visited.len(), 1);
    assert!(!visited.insert(board.clone()));
    assert_eq!(visited.len(), 1);
    let other = Board::from_rows(2, vec![0b01, 0b11]).unwrap();
    assert!(!visited.contains(&other));
    assert!(visited.insert(other.clone()));
    assert_eq!(visited.len(), 2);
    assert!(visited.contains(&board));
    assert!(visited.contains(&other));
    assert!(!visited.contains(&Board::new(2, 2)));
}

#[test]
fn scores_are_ordered_as_numbers() {
    assert!(5usize.exceeds(&4));
    assert!(!4usize.exceeds(&5));
    assert!(!4usize.exceeds(&4));
}
