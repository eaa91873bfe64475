use vstd::prelude::*;
use crate::player::Player;
use crate::small_board::SmallBoard;
use crate::winner::{get_winner, grid_cells, lemma_winner_pointwise, winner_of, Grid};
use crate::game::Move;

verus! {

/// A 3x3 grid of subboards with a cached meta-winner over their winners.
#[derive(Clone, Copy)]
pub struct BigBoard {
    pub(crate) fields: [[SmallBoard; 3]; 3],
    pub(crate) n_placed: u8,
    pub(crate) winner: Option<Player>,
}

impl BigBoard {
    /// The subboard at row `i`, column `j`.
    pub open(crate) spec fn board(&self, i: int, j: int) -> SmallBoard {
        self.fields[i][j]
    }

    pub open(crate) spec fn placed(&self) -> nat {
        self.n_placed as nat
    }

    pub open(crate) spec fn cached_winner(&self) -> Option<Player> {
        self.winner
    }

    /// The winners of the subboards, as a grid.
    pub open spec fn sub_winners(&self) -> spec_fn(int, int) -> Option<Player> {
        |i: int, j: int| self.board(i, j).cached_winner()
    }

    /// The number of occupied cells over all subboards.
    pub open spec fn occupied(&self) -> nat {
        self.board(0, 0).occupied() + self.board(0, 1).occupied() + self.board(0, 2).occupied()
            + self.board(1, 0).occupied() + self.board(1, 1).occupied() + self.board(1, 2).occupied()
            + self.board(2, 0).occupied() + self.board(2, 1).occupied() + self.board(2, 2).occupied()
    }

    /// The number of cells over all subboards that hold `p`.
    pub open spec fn count_of(&self, p: Player) -> nat {
        self.board(0, 0).count_of(p) + self.board(0, 1).count_of(p) + self.board(0, 2).count_of(p)
            + self.board(1, 0).count_of(p) + self.board(1, 1).count_of(p) + self.board(
            1,
            2,
        ).count_of(p) + self.board(2, 0).count_of(p) + self.board(2, 1).count_of(p) + self.board(
            2,
            2,
        ).count_of(p)
    }

    /// Every subboard is well formed, the counter matches the occupied
    /// cells, and the cached winner is the winner of the subboard winners.
    pub open spec fn wf(&self) -> bool {
        &&& forall|i: int, j: int| 0 <= i < 3 && 0 <= j < 3 ==> #[trigger] self.board(i, j).wf()
        &&& self.placed() == self.occupied()
        &&& self.cached_winner() == winner_of(self.sub_winners())
    }

    pub open spec fn spec_is_full(&self) -> bool {
        self.placed() == 81
    }

    pub open spec fn spec_is_over(&self) -> bool {
        self.cached_winner() is Some || self.spec_is_full()
    }

    /// A board of nine empty subboards.
    pub fn new() -> (r: BigBoard)
        ensures
            r.wf(),
            r.placed() == 0,
            r.cached_winner() is None,
            forall|i: int, j: int, k: int, l: int|
                0 <= i < 3 && 0 <= j < 3 && 0 <= k < 3 && 0 <= l < 3 ==> (#[trigger] r.board(
                    i,
                    j,
                ).cell(k, l)) is None,
            forall|i: int, j: int|
                0 <= i < 3 && 0 <= j < 3 ==> (#[trigger] r.board(i, j)).placed() == 0,
    {
        let e = SmallBoard::new();
        let r = BigBoard { fields: [[e, e, e], [e, e, e], [e, e, e]], n_placed: 0, winner: None };
        proof {
            lemma_winner_pointwise(r.sub_winners(), |i: int, j: int| None::<Player>);
        }
        r
    }

    /// The subboard at `(x, y)`.
    pub fn at(&self, xy: (u8, u8)) -> (r: &SmallBoard)
        requires
            xy.0 < 3,
            xy.1 < 3,
        ensures
            *r == self.board(xy.0 as int, xy.1 as int),
    {
        &self.fields[xy.0 as usize][xy.1 as usize]
    }

    /// The winners of the subboards as a grid.
    fn simplify(&self) -> (r: Grid)
        ensures
            forall|i: int, j: int|
                0 <= i < 3 && 0 <= j < 3 ==> #[trigger] grid_cells(r)(i, j) == self.sub_winners()(
                    i,
                    j,
                ),
    {
        let f = &self.fields;
        [
            [f[0][0].get_winner(), f[0][1].get_winner(), f[0][2].get_winner()],
            [f[1][0].get_winner(), f[1][1].get_winner(), f[1][2].get_winner()],
            [f[2][0].get_winner(), f[2][1].get_winner(), f[2][2].get_winner()],
        ]
    }

    pub fn get_winner(&self) -> (r: Option<Player>)
        ensures
            r == self.cached_winner(),
    {
        self.winner
    }

    pub fn is_full(&self) -> (r: bool)
        ensures
            r == self.spec_is_full(),
    {
        self.n_placed == 81
    }

    pub fn is_over(&self) -> (r: bool)
        ensures
            r == self.spec_is_over(),
    {
        self.winner.is_some() || self.is_full()
    }

    /// Puts `player` on the empty cell `move_.1` of the subboard `move_.0`,
    /// which is not over, and refreshes the meta-winner.
    pub fn place(&mut self, player: Player, move_: Move)
        requires
            old(self).wf(),
            move_.spec_in_range(),
            old(self).board(move_.0.0 as int, move_.0.1 as int).cell(
                move_.1.0 as int,
                move_.1.1 as int,
            ) is None,
            !old(self).board(move_.0.0 as int, move_.0.1 as int).spec_is_over(),
        ensures
            final(self).wf(),
            final(self).placed() == old(self).placed() + 1,
            final(self).count_of(player) == old(self).count_of(player) + 1,
            final(self).count_of(player.spec_other()) == old(self).count_of(player.spec_other()),
            forall|i: int, j: int|
                0 <= i < 3 && 0 <= j < 3 && !(i == move_.0.0 && j == move_.0.1)
                    ==> #[trigger] final(self).board(i, j) == old(self).board(i, j),
            forall|k: int, l: int|
                0 <= k < 3 && 0 <= l < 3 ==> #[trigger] final(self).board(
                    move_.0.0 as int,
                    move_.0.1 as int,
                ).cell(k, l) == if k == move_.1.0 && l == move_.1.1 {
                    Some(player)
                } else {
                    old(self).board(move_.0.0 as int, move_.0.1 as int).cell(k, l)
                },
    {
        let ghost before = *self;
        let x = move_.0.0 as usize;
        let y = move_.0.1 as usize;
        let mut row = self.fields[x];
        let mut sb = row[y];
        sb.place(player, move_.1);
        row[y] = sb;
        self.fields[x] = row;
        assert forall|i: int, j: int|
            0 <= i < 3 && 0 <= j < 3 && !(i == x && j == y) implies #[trigger] self.board(i, j)
            == before.board(i, j) by {}
        assert(self.board(x as int, y as int) == sb);
        proof {
            lemma_counts_after(before, *self, x as int, y as int, player);
        }
        self.n_placed = self.n_placed + 1;
        let grid = self.simplify();
        self.winner = get_winner(&grid);
        proof {
            lemma_winner_pointwise(grid_cells(grid), self.sub_winners());
        }
    }
}

proof fn lemma_counts_after(a: BigBoard, b: BigBoard, x: int, y: int, p: Player)
    requires
        a.wf(),
        0 <= x < 3,
        0 <= y < 3,
        b.board(x, y).occupied() <= 9,
        forall|i: int, j: int|
            0 <= i < 3 && 0 <= j < 3 && !(i == x && j == y) ==> #[trigger] b.board(i, j) == a.board(
                i,
                j,
            ),
        b.board(x, y).occupied() == a.board(x, y).occupied() + 1,
        b.board(x, y).count_of(p) == a.board(x, y).count_of(p) + 1,
        b.board(x, y).count_of(p.spec_other()) == a.board(x, y).count_of(p.spec_other()),
    ensures
        a.occupied() < 81,
        b.occupied() == a.occupied() + 1,
        b.count_of(p) == a.count_of(p) + 1,
        b.count_of(p.spec_other()) == a.count_of(p.spec_other()),
{
    assert(a.board(0, 0).wf() && a.board(0, 1).wf() && a.board(0, 2).wf());
    assert(a.board(1, 0).wf() && a.board(1, 1).wf() && a.board(1, 2).wf());
    assert(a.board(2, 0).wf() && a.board(2, 1).wf() && a.board(2, 2).wf());
    assert(b.board(0, 0) == b.board(0, 0) && b.board(0, 1) == b.board(0, 1) && b.board(0, 2) == b.board(0, 2));
    assert(b.board(1, 0) == b.board(1, 0) && b.board(1, 1) == b.board(1, 1) && b.board(1, 2) == b.board(1, 2));
    assert(b.board(2, 0) == b.board(2, 0) && b.board(2, 1) == b.board(2, 1) && b.board(2, 2) == b.board(2, 2));
}

} // verus!
