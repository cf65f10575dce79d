use vstd::prelude::*;
use crate::game::{Game, GameError};

verus! {

#[derive(Debug, Clone, Copy, PartialEq, Eq, Structural)]
pub enum Player {
    X,
    O,
}

#[derive(Debug, Clone, Copy, PartialEq, Eq, Structural)]
pub enum Spot {
    Empty,
    Filled(Player),
}

/// A 3×3 board; X moves first and the players alternate.
#[derive(Debug, Clone, Copy)]
pub struct TicTacToe {
    pub spots: [[Spot; 3]; 3],
    pub current_player: Player,
}

pub open spec fn opponent(p: Player) -> Player {
    match p {
        Player::X => Player::O,
        Player::O => Player::X,
    }
}

/// The spot at row `r`, column `c`.
pub open spec fn spot_at(spots: [[Spot; 3]; 3], r: int, c: int) -> Spot {
    spots[r][c]
}

/// The owner of the line through the three given spots, if one player holds
/// all three of them.
pub open spec fn line_owner(a: Spot, b: Spot, c: Spot) -> Option<Player> {
    match a {
        Spot::Filled(p) => if b == Spot::Filled(p) && c == Spot::Filled(p) {
            Some(p)
        } else {
            None
        },
        Spot::Empty => None,
    }
}

pub open spec fn row_owner(spots: [[Spot; 3]; 3], r: int) -> Option<Player> {
    line_owner(spot_at(spots, r, 0), spot_at(spots, r, 1), spot_at(spots, r, 2))
}

pub open spec fn column_owner(spots: [[Spot; 3]; 3], c: int) -> Option<Player> {
    line_owner(spot_at(spots, 0, c), spot_at(spots, 1, c), spot_at(spots, 2, c))
}

/// The first complete line, looking at the rows from the top, then the
/// columns from the left, then the diagonal from the top-left corner, then
/// the one from the top-right corner.
pub open spec fn board_winner(spots: [[Spot; 3]; 3]) -> Option<Player> {
    if row_owner(spots, 0) is Some {
        row_owner(spots, 0)
    } else if row_owner(spots, 1) is Some {
        row_owner(spots, 1)
    } else if row_owner(spots, 2) is Some {
        row_owner(spots, 2)
    } else if column_owner(spots, 0) is Some {
        column_owner(spots, 0)
    } else if column_owner(spots, 1) is Some {
        column_owner(spots, 1)
    } else if column_owner(spots, 2) is Some {
        column_owner(spots, 2)
    } else if line_owner(spot_at(spots, 0, 0), spot_at(spots, 1, 1), spot_at(spots, 2, 2)) is Some {
        line_owner(spot_at(spots, 0, 0), spot_at(spots, 1, 1), spot_at(spots, 2, 2))
    } else {
        line_owner(spot_at(spots, 0, 2), spot_at(spots, 1, 1), spot_at(spots, 2, 0))
    }
}

/// The empty spots among the first `k` in row-major order, as
/// (row, column) pairs.
pub open spec fn empty_spots(spots: [[Spot; 3]; 3], k: nat) -> Seq<(usize, usize)>
    decreases k,
{
    if k == 0 {
        seq![]
    } else {
        let i = k - 1;
        let prev = empty_spots(spots, (k - 1) as nat);
        if spot_at(spots, i / 3, i % 3) == Spot::Empty {
            prev.push(((i / 3) as usize, (i % 3) as usize))
        } else {
            prev
        }
    }
}

proof fn lemma_empty_spots(spots: [[Spot; 3]; 3], k: nat)
    requires
        k <= 9,
    ensures
        empty_spots(spots, k).no_duplicates(),
        forall|a: (usize, usize)| #[trigger]
            empty_spots(spots, k).contains(a) <==> (a.0 < 3 && a.1 < 3 && 3 * a.0 + a.1 < k
                && spot_at(spots, a.0 as int, a.1 as int) == Spot::Empty),
        forall|j: int|
            0 <= j < empty_spots(spots, k).len() ==> 3 * (#[trigger] empty_spots(spots, k)[j]).0
                + empty_spots(spots, k)[j].1 < k,
    decreases k,
{
    if k > 0 {
        lemma_empty_spots(spots, (k - 1) as nat);
        let i = k - 1;
        let prev = empty_spots(spots, (k - 1) as nat);
        let a = ((i / 3) as usize, (i % 3) as usize);
        assert(3 * a.0 + a.1 == i);
        if spot_at(spots, i / 3, i % 3) == Spot::Empty {
            assert forall|b: (usize, usize)| #[trigger]
                empty_spots(spots, k).contains(b) <==> (b.0 < 3 && b.1 < 3 && 3 * b.0 + b.1 < k
                    && spot_at(spots, b.0 as int, b.1 as int) == Spot::Empty) by {
                if b.0 < 3 && b.1 < 3 && 3 * b.0 + b.1 == i {
                    assert(b == a);
                    assert(prev.push(a)[prev.len() as int] == a);
                }
                if prev.push(a).contains(b) && b != a {
                    let j = choose|j: int| 0 <= j < prev.push(a).len() && prev.push(a)[j] == b;
                    assert(prev.contains(b));
                }
                if prev.contains(b) {
                    let j = choose|j: int| 0 <= j < prev.len() && prev[j] == b;
                    assert(prev.push(a)[j] == b);
                }
            }
            assert(!prev.contains(a));
            assert forall|j: int, l: int|
                0 <= j < prev.push(a).len() && 0 <= l < prev.push(a).len() && j != l implies
                    prev.push(a)[j] != prev.push(a)[l] by {
                if j < prev.len() && l < prev.len() {
                } else if j < prev.len() {
                    assert(prev.contains(prev[j]));
                } else {
                    assert(prev.contains(prev[l]));
                }
            }
        }
    }
}

/// The spot at row `i`, column `j` once the one at row `r`, column `c` has
/// been replaced by `s`.
pub open spec fn spot_after(spots: [[Spot; 3]; 3], r: int, c: int, s: Spot, i: int, j: int) -> Spot {
    if i == r && j == c {
        s
    } else {
        spot_at(spots, i, j)
    }
}

/// The board `spots` with the spot at row `r`, column `c` replaced by `s`.
pub open spec fn with_spot(spots: [[Spot; 3]; 3], r: int, c: int, s: Spot) -> [[Spot; 3]; 3] {
    [
        [
            spot_after(spots, r, c, s, 0, 0),
            spot_after(spots, r, c, s, 0, 1),
            spot_after(spots, r, c, s, 0, 2),
        ],
        [
            spot_after(spots, r, c, s, 1, 0),
            spot_after(spots, r, c, s, 1, 1),
            spot_after(spots, r, c, s, 1, 2),
        ],
        [
            spot_after(spots, r, c, s, 2, 0),
            spot_after(spots, r, c, s, 2, 1),
            spot_after(spots, r, c, s, 2, 2),
        ],
    ]
}

proof fn lemma_fill_removes_one(spots: [[Spot; 3]; 3], r: int, c: int, p: Player, k: nat)
    requires
        0 <= r < 3,
        0 <= c < 3,
        k <= 9,
        spot_at(spots, r, c) == Spot::Empty,
    ensures
        empty_spots(with_spot(spots, r, c, Spot::Filled(p)), k).len() + (if 3 * r + c < k {
            1int
        } else {
            0int
        }) == empty_spots(spots, k).len(),
    decreases k,
{
    if k > 0 {
        lemma_fill_removes_one(spots, r, c, p, (k - 1) as nat);
    }
}

pub open spec fn play(g: TicTacToe, a: (usize, usize)) -> TicTacToe {
    if a.0 < 3 && a.1 < 3 {
        TicTacToe {
            spots: with_spot(g.spots, a.0 as int, a.1 as int, Spot::Filled(g.current_player)),
            current_player: opponent(g.current_player),
        }
    } else {
        g
    }
}

/// The owner of the line through three spots.
fn owner_of_line(a: Spot, b: Spot, c: Spot) -> (r: Option<Player>)
    ensures
        r == line_owner(a, b, c),
{
    if let Spot::Filled(player) = a {
        if b == Spot::Filled(player) && c == Spot::Filled(player) {
            return Some(player);
        }
    }
    None
}

impl Game for TicTacToe {
    type Action = (usize, usize);

    type Player = Player;

    open spec fn legal_actions(&self) -> Seq<(usize, usize)> {
        empty_spots(self.spots, 9)
    }

    open spec fn mover(&self) -> Player {
        self.current_player
    }

    open spec fn winner(&self) -> Option<Player> {
        board_winner(self.spots)
    }

    open spec fn after(&self, action: (usize, usize)) -> TicTacToe {
        play(*self, action)
    }

    open spec fn horizon(&self) -> nat {
        empty_spots(self.spots, 9).len()
    }

    /// 1 when the move leaves a winner on the board, else 0.
    open spec fn reward(&self, action: (usize, usize)) -> u32 {
        if play(*self, action).winner() is Some {
            1
        } else {
            0
        }
    }

    proof fn lemma_after_shrinks(&self, action: (usize, usize)) {
        lemma_empty_spots(self.spots, 9);
        lemma_fill_removes_one(
            self.spots,
            action.0 as int,
            action.1 as int,
            self.current_player,
            9,
        );
    }

    fn step(&mut self, action: (usize, usize)) -> (r: Result<u32, GameError>) {
        proof {
            lemma_empty_spots(self.spots, 9);
        }
        let (row, col) = action;
        if row >= 3 || col >= 3 {
            return Err(GameError::IllegalMove);
        }
        match self.spots[row][col] {
            Spot::Empty => {
                let ghost before = *self;
                self.spots[row][col] = Spot::Filled(self.current_player);
                self.current_player = match self.current_player {
                    Player::X => Player::O,
                    Player::O => Player::X,
                };
                proof {
                    let expected = play(before, action);
                    assert(self.spots[0] =~= expected.spots[0]);
                    assert(self.spots[1] =~= expected.spots[1]);
                    assert(self.spots[2] =~= expected.spots[2]);
                    assert(self.spots =~= expected.spots);
                }
                let reward: u32 = if self.check_winner().is_some() {
                    1
                } else {
                    0
                };
                Ok(reward)
            },
            Spot::Filled(_) => Err(GameError::IllegalMove),
        }
    }

    fn get_available_moves(&self) -> (r: Vec<(usize, usize)>) {
        let mut available_moves: Vec<(usize, usize)> = Vec::new();
        let mut k: usize = 0;
        while k < 9
            invariant
                k <= 9,
                available_moves@ == empty_spots(self.spots, k as nat),
            decreases 9 - k,
        {
            let row = k / 3;
            let col = k % 3;
            if self.spots[row][col] == Spot::Empty {
                available_moves.push((row, col));
            }
            k = k + 1;
        }
        available_moves
    }

    proof fn lemma_actions_distinct(&self) {
        lemma_empty_spots(self.spots, 9);
    }

    fn current_player(&self) -> (r: Player) {
        self.current_player
    }

    fn done(&self) -> (r: bool) {
        self.check_winner().is_some() || self.get_available_moves().len() == 0
    }

    fn check_winner(&self) -> (r: Option<Player>) {
        let mut row: usize = 0;
        while row < 3
            invariant
                row <= 3,
                forall|i: int| 0 <= i < row ==> row_owner(self.spots, i) is None,
            decreases 3 - row,
        {
            let owner = owner_of_line(self.spots[row][0], self.spots[row][1], self.spots[row][2]);
            if owner.is_some() {
                return owner;
            }
            row = row + 1;
        }
        let mut col: usize = 0;
        while col < 3
            invariant
                col <= 3,
                forall|i: int| 0 <= i < 3 ==> row_owner(self.spots, i) is None,
                forall|j: int| 0 <= j < col ==> column_owner(self.spots, j) is None,
            decreases 3 - col,
        {
            let owner = owner_of_line(self.spots[0][col], self.spots[1][col], self.spots[2][col]);
            if owner.is_some() {
                return owner;
            }
            col = col + 1;
        }
        let owner = owner_of_line(self.spots[0][0], self.spots[1][1], self.spots[2][2]);
        if owner.is_some() {
            return owner;
        }
        owner_of_line(self.spots[0][2], self.spots[1][1], self.spots[2][0])
    }

    fn duplicate(&self) -> (r: TicTacToe) {
        *self
    }

    fn copy_action(a: &(usize, usize)) -> (r: (usize, usize)) {
        *a
    }

    fn same_player(a: Player, b: Player) -> (r: bool) {
        a == b
    }
}

impl TicTacToe {
    /// An empty board with X to move.
    pub fn new() -> (r: TicTacToe)
        ensures
            forall|i: int, j: int|
                0 <= i < 3 && 0 <= j < 3 ==> #[trigger] spot_at(r.spots, i, j) == Spot::Empty,
            r.current_player == Player::X,
    {
        TicTacToe { spots: [[Spot::Empty; 3]; 3], current_player: Player::X }
    }
}

} // verus!
