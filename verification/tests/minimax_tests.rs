use tictactoe::board::{Board, Move, Player};
use tictactoe::minimax::{computer_turn, minimax};

fn board_from(moves: &[(usize, usize, Player)]) -> Board {
    let mut b = Board::new();
    for (r, c, p) in moves {
        b.play_move(&Move::new(*r, *c, *p)).unwrap();
    }
    b
}

#[test]
fn minimax_takes_the_winning_cell() {
    // Computer at (0,0) and (0,1); taking (0,2) wins at once.
    let b = board_from(&[(0, 0, Player::Computer), (0, 1, Player::Computer)]);
    let (chosen, score) = minimax(&b, b.count_free_spots(), Player::Computer);
    assert_eq!(chosen, Some((0, 2)));
    assert_eq!(score, 1);
}

#[test]
fn minimax_blocks_a_guaranteed_loss() {
    // The human threatens (0,2); every other reply loses the game.
    let b = board_from(&[
        (0, 0, Player::Human),
        (0, 1, Player::Human),
        (1, 1, Player::Computer),
    ]);
    let (chosen, _score) = minimax(&b, b.count_free_spots(), Player::Computer);
    assert_eq!(chosen, Some((0, 2)));
}

#[test]
fn minimax_on_a_won_board_names_no_move() {
    let b = board_from(&[
        (0, 0, Player::Human),
        (0, 1, Player::Human),
        (0, 2, Player::Human),
    ]);
    let (chosen, score) = minimax(&b, b.count_free_spots(), Player::Computer);
    assert_eq!(chosen, None);
    assert_eq!(score, -1);

    let b = board_from(&[
        (2, 0, Player::Computer),
        (2, 1, Player::Computer),
        (2, 2, Player::Computer),
    ]);
    let (chosen, score) = minimax(&b, b.count_free_spots(), Player::Human);
    assert_eq!(chosen, None);
    assert_eq!(score, 1);
}

#[test]
fn minimax_with_no_budget_scores_zero() {
    let b = board_from(&[(1, 1, Player::Computer)]);
    let (chosen, score) = minimax(&b, 0, Player::Human);
    assert_eq!(chosen, None);
    assert_eq!(score, 0);
}

#[test]
fn minimax_is_deterministic_across_replays() {
    let moves = [
        (1, 1, Player::Computer),
        (0, 0, Player::Human),
        (2, 2, Player::Computer),
        (0, 2, Player::Human),
    ];
    let b1 = board_from(&moves);
    let b2 = board_from(&moves);
    let r1 = minimax(&b1, b1.count_free_spots(), Player::Computer);
    let r2 = minimax(&b2, b2.count_free_spots(), Player::Computer);
    let r3 = minimax(&b1, b1.count_free_spots(), Player::Computer);
    assert_eq!(r1, r2);
    assert_eq!(r1, r3);
}

#[test]
fn computer_turn_on_an_empty_board_plays_in_range() {
    for _ in 0..20 {
        let mut b = Board::new();
        computer_turn(&mut b);
        assert_eq!(b.count_free_spots(), 8);
        let cells = b.grid.iter();
        let taken: Vec<usize> = (0..9)
            .filter(|i| cells[*i] == Some(Player::Computer))
            .collect();
        assert_eq!(taken.len(), 1);
        assert!(taken[0] < 9);
    }
}

#[test]
fn computer_turn_plays_the_searched_move() {
    // same threat as above: the computer's turn must put X on (0,2)
    let mut b = board_from(&[
        (0, 0, Player::Human),
        (0, 1, Player::Human),
        (1, 1, Player::Computer),
    ]);
    computer_turn(&mut b);
    assert_eq!(b.grid.iter()[2], Some(Player::Computer));
    assert_eq!(b.count_free_spots(), 5);
}

#[test]
fn computer_turn_on_a_full_board_changes_nothing() {
    let b = board_from(&[
        (0, 0, Player::Human),
        (1, 1, Player::Computer),
        (0, 1, Player::Human),
        (0, 2, Player::Computer),
        (2, 0, Player::Human),
        (1, 0, Player::Computer),
        (1, 2, Player::Human),
        (2, 1, Player::Computer),
        (2, 2, Player::Human),
    ]);
    let mut after = b;
    computer_turn(&mut after);
    assert_eq!(after.grid.iter(), b.grid.iter());
}

/// A tiny deterministic linear congruential generator standing in for the
/// human's random play.
struct Lcg(u64);

impl Lcg {
    fn next_below(&mut self, n: usize) -> usize {
        self.0 = self
            .0
            .wrapping_mul(6364136223846793005)
            .wrapping_add(1442695040888963407);
        ((self.0 >> 33) as usize) % n
    }
}

#[test]
fn computer_moving_first_never_loses_to_random_play() {
    for seed in 0..30u64 {
        let mut rng = Lcg(seed.wrapping_mul(2654435761).wrapping_add(1));
        let mut b = Board::new();
        // the computer opens
        computer_turn(&mut b);
        loop {
            if b.get_winner().is_some() || b.is_game_over() {
                break;
            }
            // random human reply
            let spots = b.iter_free_spots();
            let (r, c) = spots[rng.next_below(spots.len())];
            b.play_move(&Move::new(r, c, Player::Human)).unwrap();
            if b.get_winner().is_some() || b.is_game_over() {
                break;
            }
            computer_turn(&mut b);
        }
        assert_ne!(b.get_winner(), Some(Player::Human), "lost game at seed {}", seed);
    }
}
