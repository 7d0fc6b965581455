use vstd::prelude::*;
use vstd::string::StringExecFns;

verus! {

/// The two participants of a game; the same tag marks cell ownership.
#[derive(Clone, Copy, Debug, PartialEq, Eq, Structural)]
pub enum Player {
    Human,
    Computer,
}

/// The opposing player: a total, involutive mapping.
pub open spec fn opponent(p: Player) -> Player {
    match p {
        Player::Human => Player::Computer,
        Player::Computer => Player::Human,
    }
}

/// Switching sides twice comes back to the same player.
pub proof fn lemma_opponent_involutive(p: Player)
    ensures
        opponent(opponent(p)) == p,
{
}

/// What each player is called in announcements.
pub open spec fn player_name_chars(p: Player) -> Seq<char> {
    match p {
        Player::Computer => seq!['C', 'o', 'm', 'p', 'u', 't', 'e', 'r'],
        Player::Human => seq!['Y', 'o', 'u'],
    }
}

impl Player {
    pub fn get_opponent(&self) -> (r: Player)
        ensures
            r == opponent(*self),
    {
        match self {
            Player::Human => Player::Computer,
            Player::Computer => Player::Human,
        }
    }

    /// The player's name as shown to the human.
    pub fn name(&self) -> (r: &'static str)
        ensures
            r@ == player_name_chars(*self),
    {
        let r: &'static str = match self {
            Player::Computer => "Computer",
            Player::Human => "You",
        };
        proof {
            reveal_strlit("Computer");
            reveal_strlit("You");
            assert(r@ =~= player_name_chars(*self));
        }
        r
    }
}

/// One requested placement: a cell address and the player taking it.
#[derive(Clone, Copy)]
pub struct Move {
    pub row: usize,
    pub col: usize,
    pub player: Player,
}

impl Move {
    pub fn new(row: usize, col: usize, player: Player) -> (m: Move)
        ensures
            m.row == row,
            m.col == col,
            m.player == player,
    {
        Move { col, row, player }
    }
}

/// Error for a move whose coordinates fall outside the grid.
#[derive(Debug)]
pub struct MoveError {
    pub details: String,
}

impl MoveError {
    pub fn new(msg: &str) -> (e: MoveError)
        ensures
            e.details@ == msg@,
    {
        MoveError { details: msg.to_owned() }
    }
}

/// Whether bit `i` is set in the 9-bit occupancy mask `m`.
pub open spec fn bit(m: u16, i: u16) -> bool {
    (m >> i) & 1 == 1
}

/// The occupancy mask of player `p` over the first `n` cells, under
/// row-major linear indexing: bit `i` is set iff cell `i` is owned by `p`.
pub open spec fn player_mask_upto(cells: Seq<Option<Player>>, p: Player, n: int) -> u16
    decreases n,
{
    if n <= 0 {
        0u16
    } else {
        let rest = player_mask_upto(cells, p, n - 1);
        if cells[n - 1] == Some(p) {
            rest | (1u16 << ((n - 1) as u16))
        } else {
            rest
        }
    }
}

/// The full 9-bit occupancy mask of player `p`.
pub open spec fn player_mask(cells: Seq<Option<Player>>, p: Player) -> u16 {
    player_mask_upto(cells, p, 9)
}

/// Bit `i` of the partial mask is set exactly when cell `i` is below `n`
/// and owned by `p`.
proof fn lemma_mask_upto_bits(cells: Seq<Option<Player>>, p: Player, n: int, i: u16)
    requires
        0 <= n <= 9,
        i < 16,
    ensures
        bit(player_mask_upto(cells, p, n), i) <==> (i < n && cells[i as int] == Some(p)),
    decreases n,
{
    if n > 0 {
        lemma_mask_upto_bits(cells, p, n - 1, i);
        let rest = player_mask_upto(cells, p, n - 1);
        let k = (n - 1) as u16;
        if cells[n - 1] == Some(p) {
            assert(bit(rest | (1u16 << k), i) <==> (i == k || bit(rest, i))) by (bit_vector)
                requires
                    k <= 8,
                    i < 16,
            ;
        }
    } else {
        assert(!bit(0u16, i)) by (bit_vector);
    }
}

/// Bit characterization of the full mask, over all 16 bit positions.
proof fn lemma_mask_bits(cells: Seq<Option<Player>>, p: Player)
    ensures
        forall|i: u16|
            i < 16 ==> (#[trigger] bit(player_mask(cells, p), i) <==> (i < 9 && cells[i as int]
                == Some(p))),
{
    assert forall|i: u16| i < 16 implies (#[trigger] bit(player_mask(cells, p), i) <==> (i < 9
        && cells[i as int] == Some(p))) by {
        lemma_mask_upto_bits(cells, p, 9, i);
    }
}

/// Two 16-bit masks that agree on every bit are equal.
proof fn lemma_u16_bit_ext(a: u16, b: u16)
    requires
        forall|i: u16| i < 16 ==> (#[trigger] bit(a, i) <==> bit(b, i)),
    ensures
        a == b,
{
    assert(a == b) by (bit_vector)
        requires
            (bit(a, 0) <==> bit(b, 0)),
            (bit(a, 1) <==> bit(b, 1)),
            (bit(a, 2) <==> bit(b, 2)),
            (bit(a, 3) <==> bit(b, 3)),
            (bit(a, 4) <==> bit(b, 4)),
            (bit(a, 5) <==> bit(b, 5)),
            (bit(a, 6) <==> bit(b, 6)),
            (bit(a, 7) <==> bit(b, 7)),
            (bit(a, 8) <==> bit(b, 8)),
            (bit(a, 9) <==> bit(b, 9)),
            (bit(a, 10) <==> bit(b, 10)),
            (bit(a, 11) <==> bit(b, 11)),
            (bit(a, 12) <==> bit(b, 12)),
            (bit(a, 13) <==> bit(b, 13)),
            (bit(a, 14) <==> bit(b, 14)),
            (bit(a, 15) <==> bit(b, 15)),
    ;
}

/// Writing `Some(p)` into cell `idx` folds bit `idx` into `p`'s mask and
/// clears it from the opponent's mask.
proof fn lemma_player_mask_update(cells: Seq<Option<Player>>, p: Player, idx: int)
    requires
        cells.len() == 9,
        0 <= idx < 9,
    ensures
        player_mask(cells.update(idx, Some(p)), p) == player_mask(cells, p) | (1u16 << (
        idx as u16)),
        player_mask(cells.update(idx, Some(p)), opponent(p)) == player_mask(cells, opponent(p))
            & (!(1u16 << (idx as u16))),
{
    let c2 = cells.update(idx, Some(p));
    let q = opponent(p);
    let mp = player_mask(cells, p);
    let mq = player_mask(cells, q);
    let k = idx as u16;
    lemma_mask_bits(cells, p);
    lemma_mask_bits(cells, q);
    lemma_mask_bits(c2, p);
    lemma_mask_bits(c2, q);
    assert forall|i: u16| i < 16 implies (#[trigger] bit(player_mask(c2, p), i) <==> bit(
        mp | (1u16 << k),
        i,
    )) by {
        assert(bit(mp | (1u16 << k), i) <==> (i == k || bit(mp, i))) by (bit_vector)
            requires
                k <= 8,
                i < 16,
        ;
    }
    lemma_u16_bit_ext(player_mask(c2, p), mp | (1u16 << k));
    assert forall|i: u16| i < 16 implies (#[trigger] bit(player_mask(c2, q), i) <==> bit(
        mq & (!(1u16 << k)),
        i,
    )) by {
        assert(bit(mq & (!(1u16 << k)), i) <==> (i != k && bit(mq, i))) by (bit_vector)
            requires
                k <= 8,
                i < 16,
        ;
    }
    lemma_u16_bit_ext(player_mask(c2, q), mq & (!(1u16 << k)));
}

/// A board where no cell has an owner.
pub open spec fn empty_cells() -> Seq<Option<Player>> {
    Seq::new(9, |i: int| None::<Player>)
}

/// The empty board gives both players an all-zero occupancy mask.
proof fn lemma_player_mask_empty(cells: Seq<Option<Player>>, p: Player)
    requires
        cells.len() == 9,
        forall|i: int| 0 <= i < 9 ==> cells[i] is None,
    ensures
        player_mask(cells, p) == 0u16,
{
    lemma_mask_bits(cells, p);
    assert forall|i: u16| i < 16 implies (#[trigger] bit(player_mask(cells, p), i) <==> bit(
        0u16,
        i,
    )) by {
        assert(!bit(0u16, i)) by (bit_vector);
    }
    lemma_u16_bit_ext(player_mask(cells, p), 0u16);
}

/// The fixed 3-by-3 cell array together with one occupancy mask per player;
/// the masks never diverge from the cells.
#[derive(Clone, Copy)]
pub struct Grid {
    cells: [Option<Player>; 9],
    human_mask: u16,
    computer_mask: u16,
}

impl View for Grid {
    type V = Seq<Option<Player>>;

    closed spec fn view(&self) -> Seq<Option<Player>> {
        self.cells@
    }
}

impl Grid {
    /// The masks agree with the cell array, bit for bit.
    pub closed spec fn wf(&self) -> bool {
        &&& self.human_mask == player_mask(self@, Player::Human)
        &&& self.computer_mask == player_mask(self@, Player::Computer)
    }

    /// A grid always holds exactly nine cells.
    pub proof fn lemma_len(&self)
        ensures
            self@.len() == 9,
    {
    }

    pub fn new() -> (g: Grid)
        ensures
            g.wf(),
            g@ == empty_cells(),
    {
        let g = Grid { cells: [None; 9], human_mask: 0, computer_mask: 0 };
        proof {
            assert(g@ =~= empty_cells());
            lemma_player_mask_empty(g@, Player::Human);
            lemma_player_mask_empty(g@, Player::Computer);
        }
        g
    }

    /// Writes the owner of one cell and folds the change into the masks.
    /// Writing over an already-owned cell hands the cell to `player`.
    pub fn set(&mut self, row: usize, col: usize, player: Player)
        requires
            old(self).wf(),
            row < 3,
            col < 3,
        ensures
            final(self).wf(),
            final(self)@ == old(self)@.update((row * 3 + col) as int, Some(player)),
    {
        let idx = row * 3 + col;
        self.cells[idx] = Some(player);
        let b: u16 = 1u16 << (idx as u16);
        match player {
            Player::Human => {
                self.human_mask = self.human_mask | b;
                self.computer_mask = self.computer_mask & (!b);
            },
            Player::Computer => {
                self.computer_mask = self.computer_mask | b;
                self.human_mask = self.human_mask & (!b);
            },
        }
        proof {
            lemma_player_mask_update(old(self)@, player, idx as int);
        }
    }

    pub fn is_empty_at(&self, row: usize, col: usize) -> (b: bool)
        requires
            row < 3,
            col < 3,
        ensures
            b == (self@[(row * 3 + col) as int] is None),
    {
        self.cells[row * 3 + col].is_none()
    }

    /// Evaluates the stored occupancy masks against the eight win patterns,
    /// the human's first. A position where both sides hold a line cannot
    /// arise under alternating play; the check order reports the human then.
    pub fn get_winner_fast(&self) -> (r: Option<Player>)
        requires
            self.wf(),
        ensures
            r == spec_winner(self@),
    {
        proof {
            lemma_mask_win(self@, Player::Human, self.human_mask);
            lemma_mask_win(self@, Player::Computer, self.computer_mask);
        }
        if mask_has_line(self.human_mask) {
            Some(Player::Human)
        } else if mask_has_line(self.computer_mask) {
            Some(Player::Computer)
        } else {
            None
        }
    }
}

/// Whether a 9-bit occupancy mask covers one of the eight win patterns:
/// three rows, three columns, two diagonals.
pub open spec fn spec_mask_has_line(m: u16) -> bool {
    ||| m & 0b000000111u16 == 0b000000111u16
    ||| m & 0b000111000u16 == 0b000111000u16
    ||| m & 0b111000000u16 == 0b111000000u16
    ||| m & 0b001001001u16 == 0b001001001u16
    ||| m & 0b010010010u16 == 0b010010010u16
    ||| m & 0b100100100u16 == 0b100100100u16
    ||| m & 0b001010100u16 == 0b001010100u16
    ||| m & 0b100010001u16 == 0b100010001u16
}

fn mask_has_line(m: u16) -> (b: bool)
    ensures
        b == spec_mask_has_line(m),
{
    (m & 0b000000111u16 == 0b000000111u16) || (m & 0b000111000u16 == 0b000111000u16) || (m
        & 0b111000000u16 == 0b111000000u16) || (m & 0b001001001u16 == 0b001001001u16) || (m
        & 0b010010010u16 == 0b010010010u16) || (m & 0b100100100u16 == 0b100100100u16) || (m
        & 0b001010100u16 == 0b001010100u16) || (m & 0b100010001u16 == 0b100010001u16)
}

/// Whether player `p` holds all three cells of some line, stated directly
/// over the cells under row-major indexing.
pub open spec fn has_win(cells: Seq<Option<Player>>, p: Player) -> bool {
    ||| (cells[0] == Some(p) && cells[1] == Some(p) && cells[2] == Some(p))
    ||| (cells[3] == Some(p) && cells[4] == Some(p) && cells[5] == Some(p))
    ||| (cells[6] == Some(p) && cells[7] == Some(p) && cells[8] == Some(p))
    ||| (cells[0] == Some(p) && cells[3] == Some(p) && cells[6] == Some(p))
    ||| (cells[1] == Some(p) && cells[4] == Some(p) && cells[7] == Some(p))
    ||| (cells[2] == Some(p) && cells[5] == Some(p) && cells[8] == Some(p))
    ||| (cells[2] == Some(p) && cells[4] == Some(p) && cells[6] == Some(p))
    ||| (cells[0] == Some(p) && cells[4] == Some(p) && cells[8] == Some(p))
}

/// The winner of a position: the human if they hold a line, else the
/// computer if it holds one, else nobody.
pub open spec fn spec_winner(cells: Seq<Option<Player>>) -> Option<Player> {
    if has_win(cells, Player::Human) {
        Some(Player::Human)
    } else if has_win(cells, Player::Computer) {
        Some(Player::Computer)
    } else {
        None
    }
}

/// The free cells among the first `n`, as (row, column) pairs in row-major
/// order.
pub open spec fn free_upto(cells: Seq<Option<Player>>, n: int) -> Seq<(usize, usize)>
    decreases n,
{
    if n <= 0 {
        Seq::empty()
    } else if cells[n - 1] is None {
        free_upto(cells, n - 1).push((((n - 1) / 3) as usize, ((n - 1) % 3) as usize))
    } else {
        free_upto(cells, n - 1)
    }
}

/// All free cells of the board, in row-major order.
pub open spec fn free_cells_spec(cells: Seq<Option<Player>>) -> Seq<(usize, usize)> {
    free_upto(cells, 9)
}

/// Every cell has an owner.
pub open spec fn is_full(cells: Seq<Option<Player>>) -> bool {
    forall|i: int| 0 <= i < 9 ==> cells[i] is Some
}

/// No cell has an owner.
pub open spec fn is_all_empty(cells: Seq<Option<Player>>) -> bool {
    forall|i: int| 0 <= i < 9 ==> cells[i] is None
}

/// How many of the first `n` cells have an owner.
pub open spec fn filled_upto(cells: Seq<Option<Player>>, n: int) -> int
    decreases n,
{
    if n <= 0 {
        0
    } else if cells[n - 1] is Some {
        filled_upto(cells, n - 1) + 1
    } else {
        filled_upto(cells, n - 1)
    }
}

/// Every listed free cell is in range and indeed free.
pub proof fn lemma_free_cells_props(cells: Seq<Option<Player>>, n: int)
    requires
        0 <= n <= 9,
    ensures
        forall|j: int|
            0 <= j < free_upto(cells, n).len() ==> {
                let rc = #[trigger] free_upto(cells, n)[j];
                &&& rc.0 < 3
                &&& rc.1 < 3
                &&& cells[rc.0 * 3 + rc.1] is None
            },
    decreases n,
{
    if n > 0 {
        lemma_free_cells_props(cells, n - 1);
        if cells[n - 1] is None {
            assert(((n - 1) / 3) * 3 + ((n - 1) % 3) == n - 1);
        }
    }
}

/// The free list and the filled count partition the nine cells.
pub proof fn lemma_free_plus_filled(cells: Seq<Option<Player>>, n: int)
    requires
        0 <= n <= 9,
    ensures
        free_upto(cells, n).len() + filled_upto(cells, n) == n,
    decreases n,
{
    if n > 0 {
        lemma_free_plus_filled(cells, n - 1);
    }
}

/// No free cells means every cell is owned, and conversely.
pub proof fn lemma_free_empty_iff_full(cells: Seq<Option<Player>>, n: int)
    requires
        0 <= n <= 9,
    ensures
        (free_upto(cells, n).len() == 0) <==> (forall|i: int| 0 <= i < n ==> cells[i] is Some),
    decreases n,
{
    if n > 0 {
        lemma_free_empty_iff_full(cells, n - 1);
    }
}

/// Taking a free cell shortens the free list by one; writing outside the
/// first `n` cells leaves it as it was.
pub proof fn lemma_free_count_after_move(
    cells: Seq<Option<Player>>,
    idx: int,
    p: Player,
    n: int,
)
    requires
        cells.len() == 9,
        0 <= idx < 9,
        cells[idx] is None,
        0 <= n <= 9,
    ensures
        free_upto(cells.update(idx, Some(p)), n).len() == free_upto(cells, n).len() - (if idx < n {
            1int
        } else {
            0int
        }),
    decreases n,
{
    if n > 0 {
        lemma_free_count_after_move(cells, idx, p, n - 1);
    }
}

/// The mask-level line check agrees with the cell-level one when `m` is
/// `p`'s occupancy mask.
proof fn lemma_mask_win(cells: Seq<Option<Player>>, p: Player, m: u16)
    requires
        cells.len() == 9,
        m == player_mask(cells, p),
    ensures
        spec_mask_has_line(m) == has_win(cells, p),
{
    lemma_mask_bits(cells, p);
    assert(m & 0b000000111u16 == 0b000000111u16 <==> (bit(m, 0) && bit(m, 1) && bit(m, 2)))
        by (bit_vector);
    assert(m & 0b000111000u16 == 0b000111000u16 <==> (bit(m, 3) && bit(m, 4) && bit(m, 5)))
        by (bit_vector);
    assert(m & 0b111000000u16 == 0b111000000u16 <==> (bit(m, 6) && bit(m, 7) && bit(m, 8)))
        by (bit_vector);
    assert(m & 0b001001001u16 == 0b001001001u16 <==> (bit(m, 0) && bit(m, 3) && bit(m, 6)))
        by (bit_vector);
    assert(m & 0b010010010u16 == 0b010010010u16 <==> (bit(m, 1) && bit(m, 4) && bit(m, 7)))
        by (bit_vector);
    assert(m & 0b100100100u16 == 0b100100100u16 <==> (bit(m, 2) && bit(m, 5) && bit(m, 8)))
        by (bit_vector);
    assert(m & 0b001010100u16 == 0b001010100u16 <==> (bit(m, 2) && bit(m, 4) && bit(m, 6)))
        by (bit_vector);
    assert(m & 0b100010001u16 == 0b100010001u16 <==> (bit(m, 0) && bit(m, 4) && bit(m, 8)))
        by (bit_vector);
}

impl Grid {
    /// The row-major linear index of a cell.
    pub fn get_index(&self, row: usize, column: usize) -> (i: usize)
        requires
            row < 3,
            column < 3,
        ensures
            i == row * 3 + column,
    {
        row * 3 + column
    }

    /// The (row, column) address of a linear index.
    pub fn get_tuple_index(&self, index: usize) -> (rc: (usize, usize))
        requires
            index < 9,
        ensures
            rc.0 == index / 3,
            rc.1 == index % 3,
    {
        (index / 3, index % 3)
    }

    pub fn idx_in_range(&self, row: usize, col: usize) -> (b: bool)
        ensures
            b == (row < 3 && col < 3),
    {
        row < 3 && col < 3
    }

    /// A snapshot of the cells in row-major order.
    pub fn iter(&self) -> (v: Vec<Option<Player>>)
        ensures
            v@ == self@,
    {
        let mut v: Vec<Option<Player>> = Vec::new();
        let mut idx: usize = 0;
        while idx < 9
            invariant
                idx <= 9,
                v@ == self@.subrange(0, idx as int),
            decreases 9 - idx,
        {
            v.push(self.cells[idx]);
            idx = idx + 1;
            proof {
                assert(v@ =~= self@.subrange(0, idx as int));
            }
        }
        proof {
            assert(v@ =~= self@);
        }
        v
    }

    /// The free cells in row-major order.
    pub fn iter_free_spots(&self) -> (v: Vec<(usize, usize)>)
        ensures
            v@ == free_cells_spec(self@),
    {
        let mut v: Vec<(usize, usize)> = Vec::new();
        let mut idx: usize = 0;
        while idx < 9
            invariant
                idx <= 9,
                v@ == free_upto(self@, idx as int),
            decreases 9 - idx,
        {
            if self.cells[idx].is_none() {
                v.push((idx / 3, idx % 3));
            }
            idx = idx + 1;
        }
        v
    }

    /// One row of cells, left to right.
    pub fn row_iter(&self, row_index: usize) -> (v: Vec<Option<Player>>)
        requires
            row_index < 3,
        ensures
            v@ == self@.subrange(row_index * 3, row_index * 3 + 3),
    {
        let start = row_index * 3;
        let mut v: Vec<Option<Player>> = Vec::new();
        v.push(self.cells[start]);
        v.push(self.cells[start + 1]);
        v.push(self.cells[start + 2]);
        proof {
            assert(v@ =~= self@.subrange(row_index * 3, row_index * 3 + 3));
        }
        v
    }

    /// The three rows, top to bottom.
    pub fn rows_iter(&self) -> (v: Vec<Vec<Option<Player>>>)
        ensures
            v@.len() == 3,
            forall|r: int| 0 <= r < 3 ==> (#[trigger] v@[r])@ == self@.subrange(r * 3, r * 3 + 3),
    {
        let mut v: Vec<Vec<Option<Player>>> = Vec::new();
        v.push(self.row_iter(0));
        v.push(self.row_iter(1));
        v.push(self.row_iter(2));
        v
    }

    /// True when no free cell remains.
    pub fn all_filled(&self) -> (b: bool)
        ensures
            b == is_full(self@),
    {
        let mut idx: usize = 0;
        while idx < 9
            invariant
                idx <= 9,
                forall|i: int| 0 <= i < idx ==> self@[i] is Some,
            decreases 9 - idx,
        {
            if self.cells[idx].is_none() {
                return false;
            }
            idx = idx + 1;
        }
        true
    }

    /// True when no cell has an owner.
    pub fn all_empty(&self) -> (b: bool)
        ensures
            b == is_all_empty(self@),
    {
        let mut idx: usize = 0;
        while idx < 9
            invariant
                idx <= 9,
                forall|i: int| 0 <= i < idx ==> self@[i] is None,
            decreases 9 - idx,
        {
            if self.cells[idx].is_some() {
                return false;
            }
            idx = idx + 1;
        }
        true
    }
}

/// One game's position: owns the grid; copied freely by the search to
/// explore hypothetical continuations.
#[derive(Clone, Copy)]
pub struct Board {
    pub grid: Grid,
}

impl View for Board {
    type V = Seq<Option<Player>>;

    open spec fn view(&self) -> Seq<Option<Player>> {
        self.grid@
    }
}

impl Board {
    pub open spec fn wf(&self) -> bool {
        self.grid.wf()
    }

    pub fn new() -> (b: Board)
        ensures
            b.wf(),
            b@ == empty_cells(),
    {
        Board { grid: Grid::new() }
    }

    /// Applies a move: rejects coordinates outside the grid, otherwise
    /// writes the cell. A move onto an owned cell silently overwrites it;
    /// legal alternating play never produces one.
    pub fn play_move(&mut self, cur_move: &Move) -> (r: Result<(), MoveError>)
        requires
            old(self).wf(),
        ensures
            final(self).wf(),
            r is Ok <==> (cur_move.row < 3 && cur_move.col < 3),
            (cur_move.row < 3 && cur_move.col < 3) ==> final(self)@ == old(self)@.update(
                (cur_move.row * 3 + cur_move.col) as int,
                Some(cur_move.player),
            ),
            !(cur_move.row < 3 && cur_move.col < 3) ==> *final(self) == *old(self),
    {
        if !self.grid.idx_in_range(cur_move.row, cur_move.col) {
            return Err(MoveError::new("index out of bounds"));
        }
        self.grid.set(cur_move.row, cur_move.col, cur_move.player);
        Ok(())
    }

    pub fn count_free_spots(&self) -> (n: usize)
        ensures
            n == free_cells_spec(self@).len(),
    {
        self.grid.iter_free_spots().len()
    }

    pub fn iter_free_spots(&self) -> (v: Vec<(usize, usize)>)
        ensures
            v@ == free_cells_spec(self@),
    {
        self.grid.iter_free_spots()
    }

    /// True when every cell is filled; an early win is checked separately,
    /// and first, by the turn loop.
    pub fn is_game_over(&self) -> (b: bool)
        ensures
            b == is_full(self@),
    {
        self.grid.all_filled()
    }

    pub fn is_empty(&self) -> (b: bool)
        ensures
            b == is_all_empty(self@),
    {
        self.grid.all_empty()
    }

    pub fn get_winner(&self) -> (r: Option<Player>)
        requires
            self.wf(),
        ensures
            r == spec_winner(self@),
    {
        self.grid.get_winner_fast()
    }

    /// Plays `player` on one cell drawn uniformly from the free-cell list.
    pub fn play_random_move(&mut self, player: Player)
        requires
            old(self).wf(),
            free_cells_spec(old(self)@).len() > 0,
        ensures
            final(self).wf(),
            exists|j: int|
                0 <= j < free_cells_spec(old(self)@).len() && final(self)@ == old(self)@.update(
                    (#[trigger] free_cells_spec(old(self)@)[j]).0 * 3 + free_cells_spec(
                        old(self)@,
                    )[j].1,
                    Some(player),
                ),
            free_cells_spec(final(self)@).len() == free_cells_spec(old(self)@).len() - 1,
    {
        let spots = self.iter_free_spots();
        let k = random_below(spots.len());
        let (row, col) = spots[k];
        proof {
            self.grid.lemma_len();
            lemma_free_cells_props(self@, 9);
        }
        let _ = self.play_move(&Move::new(row, col, player));
        proof {
            assert(final(self)@ == old(self)@.update(
                (free_cells_spec(old(self)@)[k as int]).0 * 3 + free_cells_spec(
                    old(self)@,
                )[k as int].1,
                Some(player),
            ));
            lemma_free_count_after_move(
                old(self)@,
                row * 3 + col,
                player,
                9,
            );
        }
    }
}

/// Relies on rand::random_range: draws uniformly from `0..n`, which is
/// nonempty since `n > 0`, so the result is below `n`.
#[verifier::external_body]
fn random_below(n: usize) -> (r: usize)
    requires
        n > 0,
    ensures
        r < n,
{
    rand::random_range(0..n)
}

/// Each of the eight win patterns as the triple of its cell indices.
pub open spec fn line_cells(k: int) -> (int, int, int) {
    if k == 0 {
        (0, 1, 2)
    } else if k == 1 {
        (3, 4, 5)
    } else if k == 2 {
        (6, 7, 8)
    } else if k == 3 {
        (0, 3, 6)
    } else if k == 4 {
        (1, 4, 7)
    } else if k == 5 {
        (2, 5, 8)
    } else if k == 6 {
        (2, 4, 6)
    } else {
        (0, 4, 8)
    }
}

/// Whether cell `i` lies on win pattern `k`.
pub open spec fn on_line(k: int, i: int) -> bool {
    line_cells(k).0 == i || line_cells(k).1 == i || line_cells(k).2 == i
}

/// Placing a player on every cell of one win pattern and nothing elsewhere
/// makes that player the winner.
pub proof fn lemma_pattern_wins(cells: Seq<Option<Player>>, p: Player, k: int)
    requires
        cells.len() == 9,
        0 <= k < 8,
        forall|i: int|
            0 <= i < 9 ==> cells[i] == (if on_line(k, i) {
                Some(p)
            } else {
                None::<Player>
            }),
    ensures
        spec_winner(cells) == Some(p),
{
    let t = line_cells(k);
    assert(cells[t.0] == Some(p));
    assert(cells[t.1] == Some(p));
    assert(cells[t.2] == Some(p));
    assert(has_win(cells, p));
    assert(!has_win(cells, opponent(p)));
}

/// A board with no three-in-a-line for either player has no winner.
pub proof fn lemma_no_line_no_winner(cells: Seq<Option<Player>>)
    requires
        !has_win(cells, Player::Human),
        !has_win(cells, Player::Computer),
    ensures
        spec_winner(cells) is None,
{
}

/// The free-cell list and the filled cells always partition the nine cells.
pub proof fn lemma_free_plus_filled_board(cells: Seq<Option<Player>>)
    requires
        cells.len() == 9,
    ensures
        free_cells_spec(cells).len() + filled_upto(cells, 9) == 9,
{
    lemma_free_plus_filled(cells, 9);
}

/// The character shown for one cell: `O` for the human, `X` for the
/// computer, a space for a free cell.
pub open spec fn symbol_char(c: Option<Player>) -> char {
    match c {
        None => ' ',
        Some(Player::Human) => 'O',
        Some(Player::Computer) => 'X',
    }
}

/// The separator under each row of the picture.
pub open spec fn sep_line() -> Seq<char> {
    seq!['-', '-', '-', '-', '-', '-', '-', '\n']
}

/// One rendered row: the three cell symbols between pipes, then the
/// separator.
pub open spec fn row_chars(cells: Seq<Option<Player>>, r: int) -> Seq<char> {
    seq![
        '|',
        symbol_char(cells[3 * r]),
        '|',
        symbol_char(cells[3 * r + 1]),
        '|',
        symbol_char(cells[3 * r + 2]),
        '|',
        '\n',
    ] + sep_line()
}

/// The whole picture of a board: a leading separator, then each row.
pub open spec fn render_spec(cells: Seq<Option<Player>>) -> Seq<char> {
    seq!['\n'] + sep_line() + row_chars(cells, 0) + row_chars(cells, 1) + row_chars(cells, 2)
}

fn symbol_str(c: Option<Player>) -> (r: &'static str)
    ensures
        r@ == seq![symbol_char(c)],
{
    let r: &'static str = match c {
        None => " ",
        Some(Player::Human) => "O",
        Some(Player::Computer) => "X",
    };
    proof {
        reveal_strlit(" ");
        reveal_strlit("O");
        reveal_strlit("X");
        assert(r@ =~= seq![symbol_char(c)]);
    }
    r
}

fn append_row(out: &mut String, grid: &Grid, r: usize)
    requires
        r < 3,
    ensures
        final(out)@ == old(out)@ + row_chars(grid@, r as int),
{
    out.append("|");
    out.append(symbol_str(grid.cells[3 * r]));
    out.append("|");
    out.append(symbol_str(grid.cells[3 * r + 1]));
    out.append("|");
    out.append(symbol_str(grid.cells[3 * r + 2]));
    out.append("|\n-------\n");
    proof {
        reveal_strlit("|");
        reveal_strlit("|\n-------\n");
        assert(out@ =~= old(out)@ + row_chars(grid@, r as int));
    }
}

impl Board {
    /// The board as a human-readable multi-line picture; a pure formatting
    /// step for the display collaborator.
    pub fn render(&self) -> (s: String)
        ensures
            s@ == render_spec(self@),
    {
        let mut out = String::new();
        out.append("\n-------\n");
        append_row(&mut out, &self.grid, 0);
        append_row(&mut out, &self.grid, 1);
        append_row(&mut out, &self.grid, 2);
        proof {
            reveal_strlit("\n-------\n");
            assert(out@ =~= render_spec(self@));
        }
        out
    }
}

/// Applying a move to a free cell shrinks the free-cell list by exactly one.
pub proof fn lemma_move_decreases_free(cells: Seq<Option<Player>>, idx: int, p: Player)
    requires
        cells.len() == 9,
        0 <= idx < 9,
        cells[idx] is None,
    ensures
        free_cells_spec(cells.update(idx, Some(p))).len() == free_cells_spec(cells).len() - 1,
{
    lemma_free_count_after_move(cells, idx, p, 9);
}

} // verus!
