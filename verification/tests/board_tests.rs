use tictactoe::board::{Board, Grid, Move, Player};

fn play_move(grid: &mut Grid, i: usize, j: usize, player: Player) {
    grid.set(i, j, player);
}

#[test]
fn get_winner_fast_test() {
    // human
    let mut grid = Grid::new();
    assert_eq!(grid.get_winner_fast(), None);
    play_move(&mut grid, 0, 0, Player::Computer);
    play_move(&mut grid, 0, 1, Player::Computer);
    play_move(&mut grid, 0, 2, Player::Computer);
    assert_eq!(grid.get_winner_fast(), Some(Player::Computer));

    let mut grid = Grid::new();
    play_move(&mut grid, 1, 0, Player::Computer);
    play_move(&mut grid, 1, 1, Player::Computer);
    play_move(&mut grid, 1, 2, Player::Computer);
    assert_eq!(grid.get_winner_fast(), Some(Player::Computer));
    let mut grid = Grid::new();
    play_move(&mut grid, 2, 0, Player::Computer);
    play_move(&mut grid, 2, 1, Player::Computer);
    play_move(&mut grid, 2, 2, Player::Computer);
    assert_eq!(grid.get_winner_fast(), Some(Player::Computer));
    let mut grid = Grid::new();
    play_move(&mut grid, 0, 0, Player::Computer);
    play_move(&mut grid, 1, 0, Player::Computer);
    play_move(&mut grid, 2, 0, Player::Computer);
    assert_eq!(grid.get_winner_fast(), Some(Player::Computer));
    let mut grid = Grid::new();
    play_move(&mut grid, 0, 1, Player::Computer);
    play_move(&mut grid, 1, 1, Player::Computer);
    play_move(&mut grid, 2, 1, Player::Computer);
    assert_eq!(grid.get_winner_fast(), Some(Player::Computer));
    let mut grid = Grid::new();
    play_move(&mut grid, 0, 2, Player::Computer);
    play_move(&mut grid, 1, 2, Player::Computer);
    play_move(&mut grid, 2, 2, Player::Computer);
    assert_eq!(grid.get_winner_fast(), Some(Player::Computer));
    let mut grid = Grid::new();
    play_move(&mut grid, 0, 0, Player::Computer);
    play_move(&mut grid, 1, 1, Player::Computer);
    play_move(&mut grid, 2, 2, Player::Computer);
    assert_eq!(grid.get_winner_fast(), Some(Player::Computer));
    let mut grid = Grid::new();
    play_move(&mut grid, 0, 2, Player::Computer);
    play_move(&mut grid, 1, 1, Player::Computer);
    play_move(&mut grid, 2, 0, Player::Computer);
    assert_eq!(grid.get_winner_fast(), Some(Player::Computer));

    // computer
    let mut grid = Grid::new();
    play_move(&mut grid, 0, 0, Player::Human);
    play_move(&mut grid, 0, 1, Player::Human);
    play_move(&mut grid, 0, 2, Player::Human);
    assert_eq!(grid.get_winner_fast(), Some(Player::Human));

    let mut grid = Grid::new();
    play_move(&mut grid, 1, 0, Player::Human);
    play_move(&mut grid, 1, 1, Player::Human);
    play_move(&mut grid, 1, 2, Player::Human);
    assert_eq!(grid.get_winner_fast(), Some(Player::Human));
    let mut grid = Grid::new();
    play_move(&mut grid, 2, 0, Player::Human);
    play_move(&mut grid, 2, 1, Player::Human);
    play_move(&mut grid, 2, 2, Player::Human);
    assert_eq!(grid.get_winner_fast(), Some(Player::Human));
    let mut grid = Grid::new();
    play_move(&mut grid, 0, 0, Player::Human);
    play_move(&mut grid, 1, 0, Player::Human);
    play_move(&mut grid, 2, 0, Player::Human);
    assert_eq!(grid.get_winner_fast(), Some(Player::Human));
    let mut grid = Grid::new();
    play_move(&mut grid, 0, 1, Player::Human);
    play_move(&mut grid, 1, 1, Player::Human);
    play_move(&mut grid, 2, 1, Player::Human);
    assert_eq!(grid.get_winner_fast(), Some(Player::Human));
    let mut grid = Grid::new();
    play_move(&mut grid, 0, 2, Player::Human);
    play_move(&mut grid, 1, 2, Player::Human);
    play_move(&mut grid, 2, 2, Player::Human);
    assert_eq!(grid.get_winner_fast(), Some(Player::Human));
    let mut grid = Grid::new();
    play_move(&mut grid, 0, 0, Player::Human);
    play_move(&mut grid, 1, 1, Player::Human);
    play_move(&mut grid, 2, 2, Player::Human);
    assert_eq!(grid.get_winner_fast(), Some(Player::Human));
    let mut grid = Grid::new();
    play_move(&mut grid, 0, 2, Player::Human);
    play_move(&mut grid, 1, 1, Player::Human);
    play_move(&mut grid, 2, 0, Player::Human);
    assert_eq!(grid.get_winner_fast(), Some(Player::Human));

    // no winner
    let mut grid = Grid::new();
    play_move(&mut grid, 0, 1, Player::Human);
    play_move(&mut grid, 1, 0, Player::Human);
    play_move(&mut grid, 2, 0, Player::Human);
    assert_eq!(grid.get_winner_fast(), None);
}

#[test]
fn free_count_plus_filled_count_is_always_nine() {
    let mut b = Board::new();
    let filled = |b: &Board| b.grid.iter().iter().filter(|c| c.is_some()).count();
    assert_eq!(b.count_free_spots() + filled(&b), 9);
    for (r, c, p) in [
        (0, 0, Player::Human),
        (1, 1, Player::Computer),
        (2, 2, Player::Human),
        (0, 2, Player::Computer),
    ] {
        b.play_move(&Move::new(r, c, p)).unwrap();
        assert_eq!(b.count_free_spots() + filled(&b), 9);
    }
}

#[test]
fn player_names() {
    assert_eq!(Player::Computer.name(), "Computer");
    assert_eq!(Player::Human.name(), "You");
}

#[test]
fn opponent_is_involutive() {
    assert_eq!(Player::Human.get_opponent(), Player::Computer);
    assert_eq!(Player::Computer.get_opponent(), Player::Human);
    assert_eq!(Player::Human.get_opponent().get_opponent(), Player::Human);
    assert_eq!(Player::Computer.get_opponent().get_opponent(), Player::Computer);
}

#[test]
fn new_board_is_empty() {
    let b = Board::new();
    assert!(b.is_empty());
    assert!(!b.is_game_over());
    assert_eq!(b.get_winner(), None);
    assert_eq!(b.count_free_spots(), 9);
    assert_eq!(b.iter_free_spots().len(), 9);
}

#[test]
fn free_spots_are_row_major() {
    let mut b = Board::new();
    b.play_move(&Move::new(0, 1, Player::Human)).unwrap();
    b.play_move(&Move::new(2, 2, Player::Computer)).unwrap();
    let spots = b.iter_free_spots();
    assert_eq!(
        spots,
        vec![(0, 0), (0, 2), (1, 0), (1, 1), (1, 2), (2, 0), (2, 1)]
    );
}

#[test]
fn play_move_fills_the_cell_and_frees_shrink_by_one() {
    let mut b = Board::new();
    let before = b.count_free_spots();
    assert!(b.play_move(&Move::new(1, 1, Player::Human)).is_ok());
    assert_eq!(b.count_free_spots(), before - 1);
    assert!(!b.grid.is_empty_at(1, 1));
    assert!(b.grid.is_empty_at(0, 0));
    assert_eq!(b.grid.iter()[4], Some(Player::Human));
}

#[test]
fn play_move_out_of_bounds_is_rejected() {
    let mut b = Board::new();
    assert!(b.play_move(&Move::new(3, 0, Player::Human)).is_err());
    assert!(b.play_move(&Move::new(0, 3, Player::Human)).is_err());
    assert!(b.play_move(&Move::new(17, 22, Player::Computer)).is_err());
    assert_eq!(b.count_free_spots(), 9);
    assert!(b.is_empty());
}

#[test]
fn play_move_on_an_owned_cell_overwrites_it() {
    let mut b = Board::new();
    b.play_move(&Move::new(0, 0, Player::Human)).unwrap();
    assert!(b.play_move(&Move::new(0, 0, Player::Computer)).is_ok());
    assert_eq!(b.grid.iter()[0], Some(Player::Computer));
    assert_eq!(b.count_free_spots(), 8);
}

#[test]
fn full_board_is_game_over() {
    let mut b = Board::new();
    // a drawn filling
    let seq = [
        (0, 0, Player::Human),
        (1, 1, Player::Computer),
        (0, 1, Player::Human),
        (0, 2, Player::Computer),
        (2, 0, Player::Human),
        (1, 0, Player::Computer),
        (1, 2, Player::Human),
        (2, 1, Player::Computer),
        (2, 2, Player::Human),
    ];
    for (r, c, p) in seq {
        assert!(!b.is_game_over());
        b.play_move(&Move::new(r, c, p)).unwrap();
    }
    assert!(b.is_game_over());
    assert_eq!(b.count_free_spots(), 0);
    assert_eq!(b.get_winner(), None);
}

#[test]
fn grid_index_helpers() {
    let g = Grid::new();
    assert_eq!(g.get_index(0, 0), 0);
    assert_eq!(g.get_index(1, 2), 5);
    assert_eq!(g.get_index(2, 2), 8);
    assert_eq!(g.get_tuple_index(0), (0, 0));
    assert_eq!(g.get_tuple_index(5), (1, 2));
    assert_eq!(g.get_tuple_index(8), (2, 2));
    assert!(g.idx_in_range(2, 2));
    assert!(!g.idx_in_range(3, 0));
}

#[test]
fn grid_row_iters() {
    let mut g = Grid::new();
    g.set(1, 0, Player::Human);
    g.set(1, 2, Player::Computer);
    let row = g.row_iter(1);
    assert_eq!(row, vec![Some(Player::Human), None, Some(Player::Computer)]);
    let rows = g.rows_iter();
    assert_eq!(rows.len(), 3);
    assert_eq!(rows[0], vec![None, None, None]);
    assert_eq!(rows[1], vec![Some(Player::Human), None, Some(Player::Computer)]);
    assert_eq!(rows[2], vec![None, None, None]);
    assert_eq!(g.iter().len(), 9);
}

#[test]
fn render_draws_the_grid() {
    let b = Board::new();
    assert_eq!(
        b.render().as_str(),
        "\n-------\n| | | |\n-------\n| | | |\n-------\n| | | |\n-------\n"
    );
    let mut b = Board::new();
    b.play_move(&Move::new(0, 0, Player::Human)).unwrap();
    b.play_move(&Move::new(1, 1, Player::Computer)).unwrap();
    assert_eq!(
        b.render().as_str(),
        "\n-------\n|O| | |\n-------\n| |X| |\n-------\n| | | |\n-------\n"
    );
}

#[test]
fn random_move_takes_a_free_cell() {
    let mut b = Board::new();
    b.play_move(&Move::new(0, 0, Player::Human)).unwrap();
    b.play_random_move(Player::Computer);
    assert_eq!(b.count_free_spots(), 7);
    assert_eq!(b.grid.iter()[0], Some(Player::Human));
    let computers = b
        .grid
        .iter()
        .iter()
        .filter(|c| **c == Some(Player::Computer))
        .count();
    assert_eq!(computers, 1);
}
