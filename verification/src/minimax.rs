use vstd::prelude::*;

use crate::board::{
    Board, Move, Player, free_cells_spec, has_win, is_all_empty, is_full, lemma_free_cells_props,
    lemma_free_count_after_move, lemma_free_empty_iff_full, lemma_move_decreases_free, opponent,
    spec_winner,
};

verus! {

/// The leaf value of a position: +1 for a computer win, -1 for a human win,
/// 0 for anything else.
pub open spec fn terminal_score(w: Option<Player>) -> int {
    match w {
        Some(Player::Computer) => 1,
        Some(Player::Human) => -1,
        None => 0,
    }
}

/// The accumulator a maximizing (computer) or minimizing (human) scan
/// starts from.
pub open spec fn init_score(p: Player) -> int {
    match p {
        Player::Computer => isize::MIN as int,
        Player::Human => isize::MAX as int,
    }
}

/// Exhaustive depth-first search of every continuation, `depth` plies deep:
/// the best move for `player` and its backed-up score. A terminal position
/// (depth spent, or a winner on the board) scores itself and names no move.
pub open spec fn minimax_spec(cells: Seq<Option<Player>>, depth: nat, player: Player) -> (
    Option<(usize, usize)>,
    int,
)
    decreases depth, 1int, 0int,
{
    if depth == 0 || spec_winner(cells) is Some {
        (None::<(usize, usize)>, terminal_score(spec_winner(cells)))
    } else {
        minimax_rec(
            cells,
            depth,
            player,
            free_cells_spec(cells),
            0,
            None::<(usize, usize)>,
            init_score(player),
        )
    }
}

/// The scan over the free cells from position `i` on, carrying the best
/// move so far and its score: each candidate is scored by searching the
/// position it leaves, and replaces the carry only when strictly better
/// for `player`, so earlier (row-major smaller) moves win ties.
pub open spec fn minimax_rec(
    cells: Seq<Option<Player>>,
    depth: nat,
    player: Player,
    spots: Seq<(usize, usize)>,
    i: int,
    best: Option<(usize, usize)>,
    score: int,
) -> (Option<(usize, usize)>, int)
    decreases depth, 0int, spots.len() - i,
{
    if depth == 0 || i < 0 || i >= spots.len() {
        (best, score)
    } else {
        let rc = spots[i];
        let child = minimax_spec(
            cells.update(rc.0 * 3 + rc.1, Some(player)),
            (depth - 1) as nat,
            opponent(player),
        );
        let improves = if player == Player::Computer {
            score < child.1
        } else {
            child.1 < score
        };
        if improves {
            minimax_rec(cells, depth, player, spots, i + 1, Some(rc), child.1)
        } else {
            minimax_rec(cells, depth, player, spots, i + 1, best, score)
        }
    }
}

/// Plain exhaustive minimax, no pruning: the chosen move (`None` only at a
/// terminal node) and its score. The result is a function of the position,
/// the budget and the mover alone, so replaying the same moves always
/// selects the same continuation.
#[verifier::loop_isolation(false)]
pub fn minimax(board: &Board, depth: usize, player: Player) -> (r: (Option<(usize, usize)>, isize))
    requires
        board.wf(),
    ensures
        r.0 == minimax_spec(board@, depth as nat, player).0,
        r.1 as int == minimax_spec(board@, depth as nat, player).1,
    decreases depth,
{
    let mut best_move: Option<(usize, usize)> = None;
    let mut score: isize = match player {
        Player::Computer => isize::MIN,
        Player::Human => isize::MAX,
    };
    let winner = board.get_winner();
    if depth == 0 || winner.is_some() {
        let score: isize = match winner {
            Some(p) => match p {
                Player::Computer => 1,
                Player::Human => -1,
            },
            None => 0,
        };
        return (best_move, score);
    }
    let spots = board.iter_free_spots();
    proof {
        board.grid.lemma_len();
        lemma_free_cells_props(board@, 9);
    }
    let ghost full = minimax_rec(
        board@,
        depth as nat,
        player,
        spots@,
        0,
        None::<(usize, usize)>,
        init_score(player),
    );
    let mut i: usize = 0;
    while i < spots.len()
        invariant
            i <= spots@.len(),
            minimax_rec(board@, depth as nat, player, spots@, i as int, best_move, score as int)
                == full,
        decreases spots@.len() - i,
    {
        let (row, col) = spots[i];
        let mut cloned_board = board.clone();
        let _ = cloned_board.play_move(&Move::new(row, col, player));
        let (_, current_score) = minimax(&cloned_board, depth - 1, player.get_opponent());
        proof {
            assert(minimax_rec(
                board@,
                depth as nat,
                player,
                spots@,
                i as int,
                best_move,
                score as int,
            ) == {
                let child = minimax_spec(
                    board@.update(spots@[i as int].0 * 3 + spots@[i as int].1, Some(player)),
                    (depth - 1) as nat,
                    opponent(player),
                );
                let improves = if player == Player::Computer {
                    score < child.1
                } else {
                    child.1 < score
                };
                if improves {
                    minimax_rec(
                        board@,
                        depth as nat,
                        player,
                        spots@,
                        i as int + 1,
                        Some(spots@[i as int]),
                        child.1,
                    )
                } else {
                    minimax_rec(
                        board@,
                        depth as nat,
                        player,
                        spots@,
                        i as int + 1,
                        best_move,
                        score as int,
                    )
                }
            });
        }
        match player {
            Player::Computer => {
                if score < current_score {
                    score = current_score;
                    best_move = Some((row, col));
                }
            },
            Player::Human => {
                if current_score < score {
                    score = current_score;
                    best_move = Some((row, col));
                }
            },
        }
        i = i + 1;
    }
    (best_move, score)
}

/// The search is total: on a board with no winner, a positive budget no
/// larger than the number of free cells always yields a move, on a free
/// in-range cell, with a backed-up score between -1 and 1.
pub proof fn lemma_minimax_total(cells: Seq<Option<Player>>, depth: nat, player: Player)
    requires
        cells.len() == 9,
        spec_winner(cells) is None,
        1 <= depth <= free_cells_spec(cells).len(),
    ensures
        minimax_spec(cells, depth, player).0 matches Some(rc) && rc.0 < 3 && rc.1 < 3 && cells[rc.0
            * 3 + rc.1] is None,
        -1 <= minimax_spec(cells, depth, player).1 <= 1,
    decreases depth, 1int, 0int,
{
    lemma_minimax_rec_total(
        cells,
        depth,
        player,
        free_cells_spec(cells),
        0,
        None::<(usize, usize)>,
        init_score(player),
    );
}

/// The scan invariant behind totality: once some candidate has been taken
/// (or while one is still ahead), the carry names a valid free cell and a
/// score in the terminal range, and so does the scan's result.
proof fn lemma_minimax_rec_total(
    cells: Seq<Option<Player>>,
    depth: nat,
    player: Player,
    spots: Seq<(usize, usize)>,
    i: int,
    best: Option<(usize, usize)>,
    score: int,
)
    requires
        cells.len() == 9,
        spec_winner(cells) is None,
        spots == free_cells_spec(cells),
        1 <= depth <= spots.len(),
        0 <= i <= spots.len(),
        best is None ==> (score == init_score(player) && i < spots.len()),
        best matches Some(rc) ==> (-1 <= score <= 1 && rc.0 < 3 && rc.1 < 3 && cells[rc.0 * 3
            + rc.1] is None),
    ensures
        minimax_rec(cells, depth, player, spots, i, best, score).0 matches Some(rc) && rc.0 < 3
            && rc.1 < 3 && cells[rc.0 * 3 + rc.1] is None,
        -1 <= minimax_rec(cells, depth, player, spots, i, best, score).1 <= 1,
    decreases depth, 0int, spots.len() - i,
{
    if i >= spots.len() {
        // the carry is the result, and it is a valid move by the requires
    } else {
        lemma_free_cells_props(cells, 9);
        let rc = spots[i];
        let idx = rc.0 * 3 + rc.1;
        let c2 = cells.update(idx, Some(player));
        let child = minimax_spec(c2, (depth - 1) as nat, opponent(player));
        if depth - 1 >= 1 && spec_winner(c2) is None {
            lemma_free_count_after_move(cells, idx, player, 9);
            lemma_minimax_total(c2, (depth - 1) as nat, opponent(player));
        }
        assert(-1 <= child.1 <= 1);
        let improves = if player == Player::Computer {
            score < child.1
        } else {
            child.1 < score
        };
        if improves {
            lemma_minimax_rec_total(cells, depth, player, spots, i + 1, Some(rc), child.1);
        } else {
            assert(best is Some);
            lemma_minimax_rec_total(cells, depth, player, spots, i + 1, best, score);
        }
    }
}

/// The scan is sound: its score never falls short of (for the computer;
/// never exceeds, for the human) any candidate's score from `i` on, it
/// only moves away from the carried score in `player`'s favour, and
/// whichever move it reports is one whose continuation scores exactly the
/// reported score.
proof fn lemma_minimax_rec_sound(
    cells: Seq<Option<Player>>,
    depth: nat,
    player: Player,
    spots: Seq<(usize, usize)>,
    i: int,
    best: Option<(usize, usize)>,
    score: int,
)
    requires
        depth >= 1,
        0 <= i <= spots.len(),
        best matches Some(rc) ==> minimax_spec(
            cells.update(rc.0 * 3 + rc.1, Some(player)),
            (depth - 1) as nat,
            opponent(player),
        ).1 == score,
    ensures
        player == Player::Computer ==> minimax_rec(cells, depth, player, spots, i, best, score).1
            >= score,
        player == Player::Human ==> minimax_rec(cells, depth, player, spots, i, best, score).1
            <= score,
        forall|j: int|
            i <= j < spots.len() ==> {
                let rc = #[trigger] spots[j];
                let child = minimax_spec(
                    cells.update(rc.0 * 3 + rc.1, Some(player)),
                    (depth - 1) as nat,
                    opponent(player),
                ).1;
                if player == Player::Computer {
                    minimax_rec(cells, depth, player, spots, i, best, score).1 >= child
                } else {
                    minimax_rec(cells, depth, player, spots, i, best, score).1 <= child
                }
            },
        minimax_rec(cells, depth, player, spots, i, best, score).0 matches Some(rc)
            ==> minimax_spec(
            cells.update(rc.0 * 3 + rc.1, Some(player)),
            (depth - 1) as nat,
            opponent(player),
        ).1 == minimax_rec(cells, depth, player, spots, i, best, score).1,
    decreases spots.len() - i,
{
    if i < spots.len() {
        let rc = spots[i];
        let child = minimax_spec(
            cells.update(rc.0 * 3 + rc.1, Some(player)),
            (depth - 1) as nat,
            opponent(player),
        );
        let improves = if player == Player::Computer {
            score < child.1
        } else {
            child.1 < score
        };
        if improves {
            lemma_minimax_rec_sound(cells, depth, player, spots, i + 1, Some(rc), child.1);
        } else {
            lemma_minimax_rec_sound(cells, depth, player, spots, i + 1, best, score);
        }
    }
}

/// The search is optimal: its score is at least as good for the mover as
/// every single continuation's score, and the move it selects achieves
/// exactly that score.
pub proof fn lemma_minimax_optimal(cells: Seq<Option<Player>>, depth: nat, player: Player)
    requires
        spec_winner(cells) is None,
        depth >= 1,
    ensures
        forall|j: int|
            0 <= j < free_cells_spec(cells).len() ==> {
                let rc = #[trigger] free_cells_spec(cells)[j];
                let child = minimax_spec(
                    cells.update(rc.0 * 3 + rc.1, Some(player)),
                    (depth - 1) as nat,
                    opponent(player),
                ).1;
                if player == Player::Computer {
                    minimax_spec(cells, depth, player).1 >= child
                } else {
                    minimax_spec(cells, depth, player).1 <= child
                }
            },
        minimax_spec(cells, depth, player).0 matches Some(rc) ==> minimax_spec(
            cells.update(rc.0 * 3 + rc.1, Some(player)),
            (depth - 1) as nat,
            opponent(player),
        ).1 == minimax_spec(cells, depth, player).1,
{
    lemma_minimax_rec_sound(
        cells,
        depth,
        player,
        free_cells_spec(cells),
        0,
        None::<(usize, usize)>,
        init_score(player),
    );
}

/// The score a position is worth to exhaustive search with the whole
/// remaining game as its budget.
pub open spec fn position_value(cells: Seq<Option<Player>>, p: Player) -> int {
    minimax_spec(cells, free_cells_spec(cells).len() as nat, p).1
}

/// From a position worth at least a draw, the computer's chosen move keeps
/// it so: the human does not win by it, and the position it leaves, with
/// the human to move, is still worth at least a draw.
pub proof fn lemma_computer_keeps_draw(cells: Seq<Option<Player>>)
    requires
        cells.len() == 9,
        spec_winner(cells) is None,
        free_cells_spec(cells).len() >= 1,
        position_value(cells, Player::Computer) >= 0,
    ensures
        ({
            let n = free_cells_spec(cells).len();
            minimax_spec(cells, n as nat, Player::Computer).0 matches Some(rc) && {
                let c2 = cells.update(rc.0 * 3 + rc.1, Some(Player::Computer));
                &&& spec_winner(c2) != Some(Player::Human)
                &&& position_value(c2, Player::Human) >= 0
            }
        }),
{
    let n = free_cells_spec(cells).len();
    lemma_minimax_total(cells, n as nat, Player::Computer);
    lemma_minimax_optimal(cells, n as nat, Player::Computer);
    let rc = minimax_spec(cells, n as nat, Player::Computer).0->Some_0;
    lemma_free_cells_props(cells, 9);
    let c2 = cells.update(rc.0 * 3 + rc.1, Some(Player::Computer));
    lemma_move_decreases_free(cells, rc.0 * 3 + rc.1, Player::Computer);
    assert(!has_win(c2, Player::Human));
}

/// From a position worth at least a draw with the human to move, no human
/// reply wins the game, and every reply hands the computer a position
/// still worth at least a draw.
pub proof fn lemma_human_cannot_break_draw(cells: Seq<Option<Player>>, j: int)
    requires
        cells.len() == 9,
        spec_winner(cells) is None,
        0 <= j < free_cells_spec(cells).len(),
        position_value(cells, Player::Human) >= 0,
    ensures
        ({
            let rc = free_cells_spec(cells)[j];
            let c3 = cells.update(rc.0 * 3 + rc.1, Some(Player::Human));
            &&& spec_winner(c3) != Some(Player::Human)
            &&& position_value(c3, Player::Computer) >= 0
        }),
{
    let n = free_cells_spec(cells).len();
    lemma_minimax_optimal(cells, n as nat, Player::Human);
    lemma_free_cells_props(cells, 9);
    let rc = free_cells_spec(cells)[j];
    let c3 = cells.update(rc.0 * 3 + rc.1, Some(Player::Human));
    lemma_move_decreases_free(cells, rc.0 * 3 + rc.1, Player::Human);
    if spec_winner(c3) == Some(Player::Human) {
        assert(minimax_spec(c3, (n - 1) as nat, Player::Computer).1 == -1);
    }
}

/// Play carried to its end, one exchange at a time: from `cells` with the
/// computer to move, the computer takes the searched move, then the human
/// takes the free cell picked by the next entry of `replies` (reduced
/// modulo the number of free cells, so every entry names some free cell);
/// play stops at a win, a full board, or the end of `replies`.
pub open spec fn play_out(cells: Seq<Option<Player>>, replies: Seq<int>) -> Seq<Option<Player>>
    decreases replies.len(),
{
    if spec_winner(cells) is Some || free_cells_spec(cells).len() == 0 {
        cells
    } else {
        let mv = minimax_spec(cells, free_cells_spec(cells).len() as nat, Player::Computer).0;
        if mv is None {
            cells
        } else {
            let rc = mv->Some_0;
            let c2 = cells.update(rc.0 * 3 + rc.1, Some(Player::Computer));
            if spec_winner(c2) is Some || free_cells_spec(c2).len() == 0 || replies.len() == 0 {
                c2
            } else {
                let j = replies[0] % (free_cells_spec(c2).len() as int);
                let hr = free_cells_spec(c2)[j];
                let c3 = c2.update(hr.0 * 3 + hr.1, Some(Player::Human));
                play_out(c3, replies.drop_first())
            }
        }
    }
}

/// The computer never loses: from any position with the computer to move
/// that is worth at least a draw, however the human replies and however
/// long play continues, the human is never the winner at the end.
pub proof fn lemma_computer_never_loses(cells: Seq<Option<Player>>, replies: Seq<int>)
    requires
        cells.len() == 9,
        spec_winner(cells) is None,
        position_value(cells, Player::Computer) >= 0,
    ensures
        spec_winner(play_out(cells, replies)) != Some(Player::Human),
    decreases replies.len(),
{
    if free_cells_spec(cells).len() == 0 {
        // play stops at once, and the position has no winner at all
    } else {
        lemma_computer_keeps_draw(cells);
        lemma_minimax_total(cells, free_cells_spec(cells).len() as nat, Player::Computer);
        let rc = minimax_spec(
            cells,
            free_cells_spec(cells).len() as nat,
            Player::Computer,
        ).0->Some_0;
        let c2 = cells.update(rc.0 * 3 + rc.1, Some(Player::Computer));
        assert(c2.len() == 9);
        if !(spec_winner(c2) is Some || free_cells_spec(c2).len() == 0 || replies.len() == 0) {
            let j = replies[0] % (free_cells_spec(c2).len() as int);
            lemma_human_cannot_break_draw(c2, j);
            lemma_free_cells_props(c2, 9);
            let hr = free_cells_spec(c2)[j];
            let c3 = c2.update(hr.0 * 3 + hr.1, Some(Player::Human));
            assert(c3.len() == 9);
            assert(play_out(cells, replies) == play_out(c3, replies.drop_first()));
            if spec_winner(c3) is Some || free_cells_spec(c3).len() == 0 {
                assert(play_out(c3, replies.drop_first()) == c3);
            } else {
                lemma_computer_never_loses(c3, replies.drop_first());
            }
        }
    }
}

/// The search is deterministic: its choice is a function of the position,
/// the budget and the mover alone, and `minimax` returns exactly this
/// function of its board, so replaying an identical sequence of moves
/// selects the identical move every time.
pub proof fn lemma_minimax_deterministic(
    c1: Seq<Option<Player>>,
    c2: Seq<Option<Player>>,
    depth: nat,
    player: Player,
)
    requires
        c1 == c2,
    ensures
        minimax_spec(c1, depth, player) == minimax_spec(c2, depth, player),
{
}

/// The computer's whole turn on a live board: nothing on a full board, a
/// uniformly random free cell on an empty one, and otherwise the move the
/// exhaustive search selects with the free-cell count as its budget.
pub fn computer_turn(board: &mut Board)
    requires
        old(board).wf(),
        spec_winner(old(board)@) is None,
    ensures
        final(board).wf(),
        is_full(old(board)@) ==> *final(board) == *old(board),
        (!is_full(old(board)@) && is_all_empty(old(board)@)) ==> exists|j: int|
            0 <= j < free_cells_spec(old(board)@).len() && final(board)@ == old(board)@.update(
                (#[trigger] free_cells_spec(old(board)@)[j]).0 * 3 + free_cells_spec(
                    old(board)@,
                )[j].1,
                Some(Player::Computer),
            ),
        (!is_full(old(board)@) && !is_all_empty(old(board)@)) ==> (minimax_spec(
            old(board)@,
            free_cells_spec(old(board)@).len() as nat,
            Player::Computer,
        ).0 matches Some(rc) && final(board)@ == old(board)@.update(
            rc.0 * 3 + rc.1,
            Some(Player::Computer),
        )),
{
    if board.is_game_over() {
        return ;
    }
    proof {
        board.grid.lemma_len();
        lemma_free_empty_iff_full(board@, 9);
    }
    if board.is_empty() {
        board.play_random_move(Player::Computer);
        return ;
    }
    let n = board.count_free_spots();
    proof {
        lemma_minimax_total(board@, n as nat, Player::Computer);
    }
    let (suggested_move, _score) = minimax(board, n, Player::Computer);
    if let Some((row, col)) = suggested_move {
        let _ = board.play_move(&Move::new(row, col, Player::Computer));
    } else {
        proof {
            assert(false);
        }
    }
}

} // verus!
