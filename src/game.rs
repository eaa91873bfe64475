use vstd::prelude::*;
use crate::big_board::BigBoard;
use crate::player::Player;
use crate::winner::winner_of;
use crate::env::{action_to_move, lemma_code_injective, move_code};

verus! {

/// A move: `(outer, inner)`, the subboard and the cell within it, each as
/// `(row, column)`.
#[derive(Clone, Copy, PartialEq, Eq, Debug)]
pub struct Move(pub (u8, u8), pub (u8, u8));

impl Move {
    /// All four coordinates lie in `0..3`.
    pub open spec fn spec_in_range(self) -> bool {
        self.0.0 < 3 && self.0.1 < 3 && self.1.0 < 3 && self.1.1 < 3
    }
}


/// A game in progress: the board, the mark to move and the last move.
#[derive(Clone, Copy)]
pub struct Game {
    pub(crate) board: BigBoard,
    pub(crate) current_player: Player,
    pub(crate) last_move: Option<Move>,
}

impl Game {
    pub open(crate) spec fn big(&self) -> BigBoard {
        self.board
    }

    /// The mark to move.
    pub open(crate) spec fn turn(&self) -> Player {
        self.current_player
    }

    /// The most recent move, if any.
    pub open(crate) spec fn last(&self) -> Option<Move> {
        self.last_move
    }

    /// The mark at cell `(k, l)` of subboard `(i, j)`.
    pub open spec fn cell(&self, i: int, j: int, k: int, l: int) -> Option<Player> {
        self.big().board(i, j).cell(k, l)
    }

    /// The mark at the cell a move names.
    pub open spec fn at_move(&self, m: Move) -> Option<Player> {
        self.cell(m.0.0 as int, m.0.1 as int, m.1.0 as int, m.1.1 as int)
    }

    /// Subboard `(i, j)` is won or full.
    pub open spec fn sub_over(&self, o: (u8, u8)) -> bool {
        self.big().board(o.0 as int, o.1 as int).spec_is_over()
    }

    /// The number of cells that hold `p`.
    pub open spec fn count_of(&self, p: Player) -> nat {
        self.big().count_of(p)
    }

    /// The number of occupied cells.
    pub open spec fn occupied(&self) -> nat {
        self.big().occupied()
    }

    /// The winner of the grid of subboard winners.
    pub open spec fn spec_winner(&self) -> Option<Player> {
        winner_of(self.big().sub_winners())
    }

    /// The game is over: the subboard winners form a line, or all 81 cells
    /// are occupied.
    pub open spec fn spec_over(&self) -> bool {
        self.spec_winner() is Some || self.occupied() == 81
    }

    /// A move is legal: the game goes on, the cell is empty, its subboard is
    /// not over, and either nothing was played yet, or the subboard that the
    /// last move sent to is over (a free move), or the move is in it.
    pub open spec fn legal(&self, m: Move) -> bool {
        &&& m.spec_in_range()
        &&& !self.spec_over()
        &&& self.at_move(m) is None
        &&& !self.sub_over(m.0)
        &&& match self.last() {
            None => true,
            Some(lm) => self.sub_over(lm.1) || m.0 == lm.1,
        }
    }

    /// The board is well formed, `X` has placed as many marks as `O` when
    /// `X` is to move and one more when `O` is, and the last move is on the
    /// board.
    pub open spec fn wf(&self) -> bool {
        &&& self.big().wf()
        &&& self.count_of(Player::X) == self.count_of(Player::O) + if self.turn() == Player::O {
            1nat
        } else {
            0nat
        }
        &&& self.last() matches Some(lm) ==> lm.spec_in_range()
    }

    /// `self` is the position reached from `prev` by playing `m`: the mark
    /// that was to move stands on the cell of `m`, every other cell is as it
    /// was, the other mark is to move and `m` is the last move.
    pub open spec fn follows(&self, prev: Game, m: Move) -> bool {
        &&& self.wf()
        &&& self.turn() == prev.turn().spec_other()
        &&& self.last() == Some(m)
        &&& self.occupied() == prev.occupied() + 1
        &&& forall|i: int, j: int, k: int, l: int|
            0 <= i < 3 && 0 <= j < 3 && 0 <= k < 3 && 0 <= l < 3 ==> #[trigger] self.cell(i, j, k, l)
                == if i == m.0.0 && j == m.0.1 && k == m.1.0 && l == m.1.1 {
                Some(prev.turn())
            } else {
                prev.cell(i, j, k, l)
            }
    }

    /// The starting position: an empty board with `X` to move.
    pub fn new() -> (r: Game)
        ensures
            r.wf(),
            r.turn() == Player::X,
            r.last() is None,
            r.occupied() == 0,
            forall|i: int, j: int, k: int, l: int|
                0 <= i < 3 && 0 <= j < 3 && 0 <= k < 3 && 0 <= l < 3 ==> #[trigger] r.cell(
                    i,
                    j,
                    k,
                    l,
                ) is None,
    {
        let r = Game { board: BigBoard::new(), current_player: Player::X, last_move: None };
        proof {
            lemma_empty_counts(r.big());
        }
        r
    }

    /// The board of nine subboards.
    pub fn big_board(&self) -> (r: &BigBoard)
        ensures
            *r == self.big(),
    {
        &self.board
    }

    pub fn current_player(&self) -> (r: Player)
        ensures
            r == self.turn(),
    {
        self.current_player
    }

    /// The winner of the game, if any.
    pub fn winner(&self) -> (r: Option<Player>)
        requires
            self.wf(),
        ensures
            r == self.spec_winner(),
    {
        self.board.get_winner()
    }

    pub fn is_over(&self) -> (r: bool)
        requires
            self.wf(),
        ensures
            r == self.spec_over(),
    {
        self.board.is_over()
    }

    /// Plays a legal move for the mark to move.
    pub fn make_move(&mut self, move_: Move)
        requires
            old(self).wf(),
            old(self).legal(move_),
        ensures
            final(self).follows(*old(self), move_),
    {
        self.board.place(self.current_player, move_);
        self.current_player = self.current_player.other();
        self.last_move = Some(move_);
    }

    /// Whether `move_` is legal here.
    pub fn move_valid(&self, move_: Move) -> (r: bool)
        requires
            self.wf(),
        ensures
            r == self.legal(move_),
    {
        if !(move_.0.0 < 3 && move_.0.1 < 3 && move_.1.0 < 3 && move_.1.1 < 3) {
            return false;
        }
        if self.is_over() {
            return false;
        }
        let sb = self.board.at(move_.0);
        if sb.at(move_.1).is_some() || sb.is_over() {
            return false;
        }
        match self.last_move {
            None => true,
            Some(last_move) => self.board.at(last_move.1).is_over() || (last_move.1.0 == move_.0.0
                && last_move.1.1 == move_.0.1),
        }
    }

    /// The board as a 9x9 grid: row `x`, column `y` is cell
    /// `(x % 3, y % 3)` of subboard `(x / 3, y / 3)`.
    pub fn board(&self) -> (r: [[Option<Player>; 9]; 9])
        ensures
            forall|x: int, y: int|
                0 <= x < 9 && 0 <= y < 9 ==> #[trigger] r[x][y] == self.cell(
                    x / 3,
                    y / 3,
                    x % 3,
                    y % 3,
                ),
    {
        let mut result: [[Option<Player>; 9]; 9] = [[None; 9]; 9];
        let mut x: usize = 0;
        while x < 9
            invariant
                0 <= x <= 9,
                forall|x1: int, y: int|
                    0 <= x1 < x && 0 <= y < 9 ==> #[trigger] result[x1][y] == self.cell(
                        x1 / 3,
                        y / 3,
                        x1 % 3,
                        y % 3,
                    ),
            decreases 9 - x,
        {
            let mut row: [Option<Player>; 9] = [None; 9];
            let mut y: usize = 0;
            while y < 9
                invariant
                    0 <= x < 9,
                    0 <= y <= 9,
                    forall|y1: int|
                        0 <= y1 < y ==> #[trigger] row[y1] == self.cell(
                            x as int / 3,
                            y1 / 3,
                            x as int % 3,
                            y1 % 3,
                        ),
                decreases 9 - y,
            {
                let outer = ((x / 3) as u8, (y / 3) as u8);
                let inner = ((x % 3) as u8, (y % 3) as u8);
                row[y] = self.board.at(outer).at(inner);
                y += 1;
            }
            result[x] = row;
            x += 1;
        }
        result
    }

    /// The legal moves, in increasing order of their action codes.
    pub fn valid_moves(&self) -> (r: Vec<Move>)
        requires
            self.wf(),
        ensures
            forall|k: int| 0 <= k < r@.len() ==> self.legal(#[trigger] r@[k]),
            forall|k1: int, k2: int|
                0 <= k1 < k2 < r@.len() ==> move_code(#[trigger] r@[k1]) < move_code(
                    #[trigger] r@[k2],
                ),
            forall|m: Move| #[trigger] self.legal(m) ==> r@.contains(m),
    {
        let mut result: Vec<Move> = Vec::new();
        let mut a: u8 = 0;
        while a < 81
            invariant
                0 <= a <= 81,
                self.wf(),
                forall|k: int| 0 <= k < result@.len() ==> self.legal(#[trigger] result@[k]),
                forall|k: int| 0 <= k < result@.len() ==> move_code(#[trigger] result@[k]) < a,
                forall|k1: int, k2: int|
                    0 <= k1 < k2 < result@.len() ==> move_code(#[trigger] result@[k1]) < move_code(
                        #[trigger] result@[k2],
                    ),
                forall|m: Move| #[trigger] self.legal(m) && move_code(m) < a ==> result@.contains(m),
            decreases 81 - a,
        {
            let m = action_to_move(a);
            let ghost prev = result@;
            if self.move_valid(m) {
                result.push(m);
                assert(result@[result@.len() - 1] == m);
            }
            assert forall|m2: Move| #[trigger] self.legal(m2) && move_code(m2) < a + 1 implies result@.contains(m2) by {
                if move_code(m2) == a {
                    lemma_code_injective(m2, m);
                } else {
                    assert(prev.contains(m2));
                    let k = choose|k: int| 0 <= k < prev.len() && prev[k] == m2;
                    assert(result@[k] == m2);
                }
            }
            a += 1;
        }
        result
    }
}

/// `b` is reached from `a` by one legal move.
#[verifier::opaque]
pub open spec fn legal_step(a: Game, b: Game) -> bool {
    exists|m: Move| a.legal(m) && #[trigger] b.follows(a, m)
}

/// `path` is a play from `from` to `to`: each position follows the one
/// before it by a legal move.
pub open spec fn plays(path: Seq<Game>, from: Game, to: Game) -> bool {
    &&& path.len() >= 1
    &&& path[0] == from
    &&& path.last() == to
    &&& forall|i: int| 0 <= i < path.len() - 1 ==> #[trigger] legal_step(path[i], path[i + 1])
}

/// `to` is reached from `from` by zero or more legal moves.
#[verifier::opaque]
pub open spec fn reached_by_play(from: Game, to: Game) -> bool {
    exists|path: Seq<Game>| #[trigger] plays(path, from, to)
}

impl Game {
    /// No move is legal.
    pub open spec fn stuck(&self) -> bool {
        forall|m: Move| !#[trigger] self.legal(m)
    }

    /// The game is over, or no move is legal.
    pub open spec fn finished(&self) -> bool {
        self.spec_over() || self.stuck()
    }
}

proof fn lemma_empty_counts(b: BigBoard)
    requires
        forall|i: int, j: int, k: int, l: int|
            0 <= i < 3 && 0 <= j < 3 && 0 <= k < 3 && 0 <= l < 3 ==> (#[trigger] b.board(i, j).cell(
                k,
                l,
            )) is None,
    ensures
        b.count_of(Player::X) == 0,
        b.count_of(Player::O) == 0,
{
    assert forall|i: int, j: int| 0 <= i < 3 && 0 <= j < 3 implies #[trigger] b.board(i, j).count_of(Player::X) == 0
        && b.board(i, j).count_of(Player::O) == 0 by {
        crate::small_board::lemma_empty_count(b.board(i, j));
    }
    assert(b.board(0, 0).count_of(Player::X) == 0 && b.board(0, 1).count_of(Player::X) == 0);
    assert(b.board(0, 2).count_of(Player::X) == 0 && b.board(1, 0).count_of(Player::X) == 0);
    assert(b.board(1, 1).count_of(Player::X) == 0 && b.board(1, 2).count_of(Player::X) == 0);
    assert(b.board(2, 0).count_of(Player::X) == 0 && b.board(2, 1).count_of(Player::X) == 0);
    assert(b.board(2, 2).count_of(Player::X) == 0 && b.board(0, 0).count_of(Player::O) == 0);
    assert(b.board(0, 1).count_of(Player::O) == 0 && b.board(0, 2).count_of(Player::O) == 0);
    assert(b.board(1, 0).count_of(Player::O) == 0 && b.board(1, 1).count_of(Player::O) == 0);
    assert(b.board(1, 2).count_of(Player::O) == 0 && b.board(2, 0).count_of(Player::O) == 0);
    assert(b.board(2, 1).count_of(Player::O) == 0 && b.board(2, 2).count_of(Player::O) == 0);
}

/// In every well-formed position `X` has placed as many marks as `O`, or
/// one more.
pub proof fn lemma_mark_balance(g: Game)
    requires
        g.wf(),
    ensures
        g.count_of(Player::O) <= g.count_of(Player::X) <= g.count_of(Player::O) + 1,
{
}

/// When the subboard that the last move sent to is not over, every legal
/// move is inside it.
pub proof fn lemma_sent_to(g: Game, lm: Move, m: Move)
    requires
        g.last() == Some(lm),
        !g.sub_over(lm.1),
        g.legal(m),
    ensures
        m.0 == lm.1,
{
}

/// Before the first move, or when the subboard that the last move sent to
/// is over, every empty cell of every subboard that is not over is legal,
/// unless the game is over.
pub proof fn lemma_free_move(g: Game, m: Move)
    requires
        g.last() matches Some(lm) ==> g.sub_over(lm.1),
        !g.spec_over(),
        m.spec_in_range(),
        g.at_move(m) is None,
        !g.sub_over(m.0),
    ensures
        g.legal(m),
{
}

/// `a` and `b` hold the same position: both well formed, with the same
/// cells, the same mark to move and the same last move.
pub open spec fn same_position(a: Game, b: Game) -> bool {
    &&& a.wf()
    &&& b.wf()
    &&& a.turn() == b.turn()
    &&& a.last() == b.last()
    &&& forall|i: int, j: int, k: int, l: int|
        0 <= i < 3 && 0 <= j < 3 && 0 <= k < 3 && 0 <= l < 3 ==> #[trigger] a.cell(i, j, k, l) == b.cell(i, j, k, l)
}

proof fn lemma_same_board(x: crate::small_board::SmallBoard, y: crate::small_board::SmallBoard)
    requires
        x.wf(),
        y.wf(),
        forall|k: int, l: int| 0 <= k < 3 && 0 <= l < 3 ==> #[trigger] x.cell(k, l) == y.cell(k, l),
    ensures
        x.cached_winner() == y.cached_winner(),
        x.placed() == y.placed(),
        x.occupied() == y.occupied(),
{
    assert forall|k: int, l: int| 0 <= k < 3 && 0 <= l < 3 implies #[trigger] x.cells()(k, l) == y.cells()(k, l) by {
        assert(x.cell(k, l) == y.cell(k, l));
    }
    crate::winner::lemma_winner_pointwise(x.cells(), y.cells());
    crate::small_board::lemma_same_cells_occupied(x, y);
}

/// Legality depends only on the position.
pub proof fn lemma_same_position_legal(a: Game, b: Game)
    requires
        same_position(a, b),
    ensures
        forall|m: Move| #[trigger] a.legal(m) == b.legal(m),
        a.spec_over() == b.spec_over(),
        a.spec_winner() == b.spec_winner(),
        a.occupied() == b.occupied(),
{
    assert forall|i: int, j: int| 0 <= i < 3 && 0 <= j < 3 implies #[trigger] a.big().board(i, j).cached_winner()
        == b.big().board(i, j).cached_winner() && a.big().board(i, j).placed() == b.big().board(i, j).placed()
        && a.big().board(i, j).occupied() == b.big().board(i, j).occupied() by {
        assert(a.big().board(i, j).wf());
        assert(b.big().board(i, j).wf());
        assert forall|k: int, l: int| 0 <= k < 3 && 0 <= l < 3 implies #[trigger] a.big().board(i, j).cell(k, l)
            == b.big().board(i, j).cell(k, l) by {
            assert(a.cell(i, j, k, l) == b.cell(i, j, k, l));
        }
        lemma_same_board(a.big().board(i, j), b.big().board(i, j));
    }
    crate::winner::lemma_winner_pointwise(a.big().sub_winners(), b.big().sub_winners());
    assert(a.big().board(0, 0).occupied() == b.big().board(0, 0).occupied());
    assert(a.big().board(0, 1).occupied() == b.big().board(0, 1).occupied());
    assert(a.big().board(0, 2).occupied() == b.big().board(0, 2).occupied());
    assert(a.big().board(1, 0).occupied() == b.big().board(1, 0).occupied());
    assert(a.big().board(1, 1).occupied() == b.big().board(1, 1).occupied());
    assert(a.big().board(1, 2).occupied() == b.big().board(1, 2).occupied());
    assert(a.big().board(2, 0).occupied() == b.big().board(2, 0).occupied());
    assert(a.big().board(2, 1).occupied() == b.big().board(2, 1).occupied());
    assert(a.big().board(2, 2).occupied() == b.big().board(2, 2).occupied());
    assert forall|m: Move| #[trigger] a.legal(m) == b.legal(m) by {
        if m.spec_in_range() {
            assert(a.at_move(m) == b.at_move(m));
        }
    }
}

/// Playing the same move from the same position gives the same position.
pub proof fn lemma_follows_same(a: Game, b: Game, a2: Game, b2: Game, m: Move)
    requires
        same_position(a, b),
        a2.follows(a, m),
        b2.follows(b, m),
    ensures
        same_position(a2, b2),
{
    assert forall|i: int, j: int, k: int, l: int|
        0 <= i < 3 && 0 <= j < 3 && 0 <= k < 3 && 0 <= l < 3 implies #[trigger] a2.cell(i, j, k, l) == b2.cell(i, j, k, l) by {
        assert(a.cell(i, j, k, l) == b.cell(i, j, k, l));
    }
}

/// A position that follows one position by a move also follows every
/// same position by that move.
pub proof fn lemma_follows_transfer(x: Game, a: Game, b: Game, m: Move)
    requires
        same_position(a, b),
        x.follows(a, m),
    ensures
        x.follows(b, m),
{
    lemma_same_position_legal(a, b);
    assert forall|i: int, j: int, k: int, l: int|
        0 <= i < 3 && 0 <= j < 3 && 0 <= k < 3 && 0 <= l < 3 implies #[trigger] x.cell(i, j, k, l) == if i == m.0.0 && j == m.0.1 && k
            == m.1.0 && l == m.1.1 {
            Some(b.turn())
        } else {
            b.cell(i, j, k, l)
        } by {
        assert(a.cell(i, j, k, l) == b.cell(i, j, k, l));
    }
}

} // verus!
