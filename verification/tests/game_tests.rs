use twozero48::{Game, Move};

fn board4(r0: [usize; 4], r1: [usize; 4], r2: [usize; 4], r3: [usize; 4]) -> Vec<Vec<usize>> {
    vec![r0.to_vec(), r1.to_vec(), r2.to_vec(), r3.to_vec()]
}

fn game4(r0: [usize; 4], r1: [usize; 4], r2: [usize; 4], r3: [usize; 4], winning: usize) -> Game {
    Game::with_board(board4(r0, r1, r2, r3), winning).expect("board should be accepted")
}

const Z: [usize; 4] = [0, 0, 0, 0];

#[test]
fn left_merges_first_pair_without_chaining() {
    let mut g = game4([2, 2, 2, 0], Z, Z, Z, 2048);
    let changed = g.mover(Move::Left).unwrap();
    assert!(changed);
    assert_eq!(g.board()[0], vec![4, 2, 0, 0]);
    assert_eq!(g.board()[1], vec![0, 0, 0, 0]);
}

#[test]
fn left_closes_gaps_then_merges() {
    let mut g = game4([0, 2, 0, 2], Z, Z, Z, 2048);
    let changed = g.mover(Move::Left).unwrap();
    assert!(changed);
    assert_eq!(g.board()[0], vec![4, 0, 0, 0]);
}

#[test]
fn left_merges_two_independent_pairs() {
    let mut g = game4([4, 2, 2, 4], Z, Z, Z, 2048);
    let changed = g.mover(Move::Left).unwrap();
    assert!(changed);
    assert_eq!(g.board()[0], vec![4, 4, 4, 0]);
}

#[test]
fn rightward_is_mirror_of_leftward() {
    let mut g = game4([2, 0, 2, 4], Z, Z, Z, 2048);
    let changed = g.mover(Move::Right).unwrap();
    assert!(changed);
    assert_eq!(g.board()[0], vec![0, 0, 4, 4]);
}

#[test]
fn second_compression_changes_nothing_once_settled() {
    let mut g = game4([2, 2, 0, 0], Z, Z, Z, 2048);
    assert_eq!(g.mover(Move::Left).unwrap(), true);
    assert_eq!(g.board()[0], vec![4, 0, 0, 0]);
    assert_eq!(g.mover(Move::Left).unwrap(), false);
    assert_eq!(g.board()[0], vec![4, 0, 0, 0]);
}

#[test]
fn merge_that_leaves_equal_neighbours_merges_again_next_move() {
    let mut g = game4([2, 2, 4, 0], Z, Z, Z, 2048);
    assert_eq!(g.mover(Move::Left).unwrap(), true);
    assert_eq!(g.board()[0], vec![4, 4, 0, 0]);
    assert_eq!(g.mover(Move::Left).unwrap(), true);
    assert_eq!(g.board()[0], vec![8, 0, 0, 0]);
}

#[test]
fn compression_conserves_sum_and_drops_count_per_merge() {
    let mut g = game4([2, 2, 4, 0], [4, 0, 4, 2], Z, Z, 2048);
    let sum_before: usize = g.board().iter().flatten().sum();
    let count_before = g.board().iter().flatten().filter(|&&v| v != 0).count();
    g.mover(Move::Left).unwrap();
    let sum_after: usize = g.board().iter().flatten().sum();
    let count_after = g.board().iter().flatten().filter(|&&v| v != 0).count();
    assert_eq!(sum_before, sum_after);
    // One merge in each of the two occupied rows.
    assert_eq!(count_after, count_before - 2);
    assert_eq!(g.board()[0], vec![4, 4, 0, 0]);
    assert_eq!(g.board()[1], vec![8, 2, 0, 0]);
}

#[test]
fn full_board_without_equal_neighbours_is_lost() {
    let mut g = Game::with_board(vec![vec![2, 4], vec![8, 16]], 2048).unwrap();
    let res = g.mover(Move::Dont);
    assert_eq!(res, Err("You have Lost!".to_string()));
}

#[test]
fn one_empty_cell_keeps_the_game_going() {
    let mut g = Game::with_board(vec![vec![2, 4], vec![8, 0]], 2048).unwrap();
    assert_eq!(g.mover(Move::Dont), Ok(false));
}

#[test]
fn full_board_with_equal_neighbours_is_not_lost() {
    let mut g = Game::with_board(vec![vec![2, 2], vec![8, 16]], 2048).unwrap();
    assert_eq!(g.mover(Move::Dont), Ok(false));
}

#[test]
fn winning_merge_reports_won() {
    let mut g = game4([1024, 1024, 0, 0], Z, Z, Z, 2048);
    let res = g.mover(Move::Left);
    assert_eq!(res, Err("You have Won!".to_string()));
    assert_eq!(g.board()[0], vec![2048, 0, 0, 0]);
}

#[test]
fn lock_is_checked_before_the_winning_value() {
    // The board is both locked and shows the target: the engine reports the
    // loss, as the lock check comes first.
    let mut g = Game::with_board(vec![vec![2, 4], vec![8, 16]], 16).unwrap();
    assert_eq!(g.mover(Move::Dont), Err("You have Lost!".to_string()));
}

#[test]
fn spawn_fills_exactly_one_empty_cell() {
    let mut g = Game::with_board(vec![vec![2, 0], vec![4, 8]], 2048).unwrap();
    let before = g.board().clone();
    g.refresh();
    let after = g.board().clone();
    let mut changed = 0;
    for i in 0..2 {
        for j in 0..2 {
            if before[i][j] != after[i][j] {
                changed += 1;
                assert_eq!(before[i][j], 0);
                assert!(after[i][j] == 2 || after[i][j] == 4);
            }
        }
    }
    assert_eq!(changed, 1);
}

#[test]
fn new_board_has_exactly_one_starting_tile() {
    let g = Game::new(4, 2048);
    assert_eq!(g.board().len(), 4);
    let mut nonzero = 0;
    for row in g.board() {
        assert_eq!(row.len(), 4);
        for &v in row {
            if v != 0 {
                nonzero += 1;
                assert!(v == 2 || v == 4);
            }
        }
    }
    assert_eq!(nonzero, 1);
    assert_eq!(g.winning(), 2048);
}

#[test]
fn new_normalizes_winning_down_to_a_power_of_two() {
    assert_eq!(Game::new(4, 1000).winning(), 512);
    assert_eq!(Game::new(4, 2048).winning(), 2048);
    assert_eq!(Game::new(2, 5).winning(), 4);
    assert_eq!(Game::new(2, 1).winning(), 1);
}

#[test]
fn with_board_rejects_bad_setups() {
    assert!(Game::with_board(vec![vec![2, 2], vec![2]], 2048).is_none());
    assert!(Game::with_board(vec![vec![2]], 2048).is_none());
    assert!(Game::with_board(vec![vec![3, 0], vec![0, 0]], 2048).is_none());
    assert!(Game::with_board(vec![vec![2, 0], vec![0, 0]], 1000).is_none());
    assert!(Game::with_board(vec![vec![2, 0], vec![0, 0]], 2048).is_some());
}

#[test]
fn upward_compresses_each_column_toward_the_top() {
    let mut g = game4([2, 0, 0, 0], [2, 0, 0, 0], [4, 0, 0, 0], Z, 2048);
    assert_eq!(g.mover(Move::Up).unwrap(), true);
    assert_eq!(g.board()[0], vec![4, 0, 0, 0]);
    assert_eq!(g.board()[1], vec![4, 0, 0, 0]);
    assert_eq!(g.board()[2], vec![0, 0, 0, 0]);
    assert_eq!(g.board()[3], vec![0, 0, 0, 0]);
}

#[test]
fn downward_compresses_each_column_toward_the_bottom() {
    let mut g = game4([2, 0, 0, 0], [2, 0, 0, 0], [4, 0, 0, 0], Z, 2048);
    assert_eq!(g.mover(Move::Down).unwrap(), true);
    assert_eq!(g.board()[0], vec![0, 0, 0, 0]);
    assert_eq!(g.board()[1], vec![0, 0, 0, 0]);
    assert_eq!(g.board()[2], vec![4, 0, 0, 0]);
    assert_eq!(g.board()[3], vec![4, 0, 0, 0]);
}

#[test]
fn blocked_move_reports_no_change() {
    let mut g = game4([2, 4, 8, 16], Z, Z, Z, 2048);
    assert_eq!(g.mover(Move::Left).unwrap(), false);
    assert_eq!(g.board()[0], vec![2, 4, 8, 16]);
}
