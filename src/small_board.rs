use vstd::prelude::*;
use crate::player::Player;
use crate::winner::{get_winner, grid_cells, winner_of, Grid};

verus! {

/// 1 for a cell that holds a mark, else 0.
pub open spec fn filled(c: Option<Player>) -> nat {
    if c is Some { 1 } else { 0 }
}

/// 1 for a cell that holds `p`, else 0.
pub open spec fn holds(c: Option<Player>, p: Player) -> nat {
    if c == Some(p) { 1 } else { 0 }
}

/// The number of occupied cells of a grid.
#[verifier::opaque]
pub open spec fn grid_occupied(g: spec_fn(int, int) -> Option<Player>) -> nat {
    filled(g(0, 0)) + filled(g(0, 1)) + filled(g(0, 2)) + filled(g(1, 0)) + filled(g(1, 1))
        + filled(g(1, 2)) + filled(g(2, 0)) + filled(g(2, 1)) + filled(g(2, 2))
}

/// The number of cells of a grid that hold `p`.
#[verifier::opaque]
pub open spec fn grid_count(g: spec_fn(int, int) -> Option<Player>, p: Player) -> nat {
    holds(g(0, 0), p) + holds(g(0, 1), p) + holds(g(0, 2), p) + holds(g(1, 0), p) + holds(g(1, 1), p)
        + holds(g(1, 2), p) + holds(g(2, 0), p) + holds(g(2, 1), p) + holds(g(2, 2), p)
}

/// A single 3x3 subgame: its cells, how many marks were placed and the
/// cached winner.
#[derive(Clone, Copy)]
pub struct SmallBoard {
    pub(crate) fields: Grid,
    pub(crate) n_placed: u8,
    pub(crate) winner: Option<Player>,
}

impl SmallBoard {
    /// The mark at row `i`, column `j`.
    pub open(crate) spec fn cell(&self, i: int, j: int) -> Option<Player> {
        self.fields[i][j]
    }

    /// The placement counter.
    pub open(crate) spec fn placed(&self) -> nat {
        self.n_placed as nat
    }

    /// The cached winner.
    pub open(crate) spec fn cached_winner(&self) -> Option<Player> {
        self.winner
    }

    /// The cells as a function of (row, column).
    pub open(crate) spec fn cells(&self) -> spec_fn(int, int) -> Option<Player> {
        grid_cells(self.fields)
    }

    /// The number of occupied cells.
    pub open(crate) spec fn occupied(&self) -> nat {
        grid_occupied(self.cells())
    }

    /// The number of cells that hold `p`.
    pub open(crate) spec fn count_of(&self, p: Player) -> nat {
        grid_count(self.cells(), p)
    }

    /// The counter matches the occupied cells and the cached winner is the
    /// winner of the cells.
    pub open spec fn wf(&self) -> bool {
        &&& self.placed() == self.occupied()
        &&& self.placed() <= 9
        &&& self.cached_winner() == winner_of(self.cells())
    }

    pub open spec fn spec_is_full(&self) -> bool {
        self.placed() == 9
    }

    pub open spec fn spec_is_over(&self) -> bool {
        self.cached_winner() is Some || self.spec_is_full()
    }

    /// An empty board.
    pub fn new() -> (r: SmallBoard)
        ensures
            r.wf(),
            r.placed() == 0,
            r.cached_winner() is None,
            forall|i: int, j: int| 0 <= i < 3 && 0 <= j < 3 ==> #[trigger] r.cell(i, j) is None,
    {
        let r = SmallBoard {
            fields: [[None, None, None], [None, None, None], [None, None, None]],
            n_placed: 0,
            winner: None,
        };
        proof {
            reveal(grid_occupied);
        }
        r
    }

    /// The mark at `(x, y)`.
    pub fn at(&self, xy: (u8, u8)) -> (r: Option<Player>)
        requires
            xy.0 < 3,
            xy.1 < 3,
        ensures
            r == self.cell(xy.0 as int, xy.1 as int),
    {
        self.fields[xy.0 as usize][xy.1 as usize]
    }

    pub fn get_winner(&self) -> (r: Option<Player>)
        ensures
            r == self.cached_winner(),
    {
        self.winner
    }

    pub fn is_full(&self) -> (r: bool)
        ensures
            r == self.spec_is_full(),
    {
        self.n_placed == 9
    }

    pub fn is_over(&self) -> (r: bool)
        ensures
            r == self.spec_is_over(),
    {
        self.winner.is_some() || self.is_full()
    }

    /// Puts `player` on the empty cell `(x, y)` of a board that is not over,
    /// and refreshes the cached winner.
    pub fn place(&mut self, player: Player, xy: (u8, u8))
        requires
            old(self).wf(),
            xy.0 < 3,
            xy.1 < 3,
            old(self).cell(xy.0 as int, xy.1 as int) is None,
            !old(self).spec_is_over(),
        ensures
            final(self).wf(),
            final(self).placed() == old(self).placed() + 1,
            final(self).occupied() == old(self).occupied() + 1,
            final(self).count_of(player) == old(self).count_of(player) + 1,
            final(self).count_of(player.spec_other()) == old(self).count_of(player.spec_other()),
            forall|i: int, j: int|
                0 <= i < 3 && 0 <= j < 3 ==> #[trigger] final(self).cell(i, j) == if i == xy.0 && j
                    == xy.1 {
                    Some(player)
                } else {
                    old(self).cell(i, j)
                },
    {
        let ghost before = *self;
        let (x, y) = xy;
        let mut row = self.fields[x as usize];
        row[y as usize] = Some(player);
        self.fields[x as usize] = row;
        assert forall|i: int, j: int| 0 <= i < 3 && 0 <= j < 3 implies #[trigger] self.cell(i, j)
            == if i == x && j == y {
            Some(player)
        } else {
            before.cell(i, j)
        } by {}
        proof {
            lemma_occupied_room(before, x as int, y as int);
        }
        self.n_placed = self.n_placed + 1;
        proof {
            lemma_place_counts(before, *self, player, x as int, y as int);
        }
        if self.n_placed >= 3 {
            self.winner = get_winner(&self.fields);
        } else {
            proof {
                lemma_few_marks_no_winner(*self);
            }
        }
    }
}

proof fn lemma_place_counts(a: SmallBoard, b: SmallBoard, p: Player, x: int, y: int)
    requires
        0 <= x < 3,
        0 <= y < 3,
        a.cell(x, y) is None,
        forall|i: int, j: int|
            0 <= i < 3 && 0 <= j < 3 ==> #[trigger] b.cell(i, j) == if i == x && j == y {
                Some(p)
            } else {
                a.cell(i, j)
            },
    ensures
        b.occupied() == a.occupied() + 1,
        b.occupied() <= 9,
        b.count_of(p) == a.count_of(p) + 1,
        b.count_of(p.spec_other()) == a.count_of(p.spec_other()),
{
    reveal(grid_occupied);
    reveal(grid_count);
    assert(b.cell(0, 0) == b.cell(0, 0) && b.cell(0, 1) == b.cell(0, 1) && b.cell(0, 2) == b.cell(0, 2));
    assert(b.cell(1, 0) == b.cell(1, 0) && b.cell(1, 1) == b.cell(1, 1) && b.cell(1, 2) == b.cell(1, 2));
    assert(b.cell(2, 0) == b.cell(2, 0) && b.cell(2, 1) == b.cell(2, 1) && b.cell(2, 2) == b.cell(2, 2));
}

proof fn lemma_occupied_room(a: SmallBoard, x: int, y: int)
    requires
        0 <= x < 3,
        0 <= y < 3,
        a.cell(x, y) is None,
    ensures
        a.occupied() < 9,
{
    reveal(grid_occupied);
}

pub(crate) proof fn lemma_empty_count(b: SmallBoard)
    requires
        forall|i: int, j: int| 0 <= i < 3 && 0 <= j < 3 ==> (#[trigger] b.cell(i, j)) is None,
    ensures
        b.count_of(Player::X) == 0,
        b.count_of(Player::O) == 0,
{
    reveal(grid_count);
    assert(b.cell(0, 0) is None && b.cell(0, 1) is None && b.cell(0, 2) is None);
    assert(b.cell(1, 0) is None && b.cell(1, 1) is None && b.cell(1, 2) is None);
    assert(b.cell(2, 0) is None && b.cell(2, 1) is None && b.cell(2, 2) is None);
}

pub(crate) proof fn lemma_same_cells_occupied(x: SmallBoard, y: SmallBoard)
    requires
        forall|k: int, l: int| 0 <= k < 3 && 0 <= l < 3 ==> #[trigger] x.cell(k, l) == y.cell(k, l),
    ensures
        x.occupied() == y.occupied(),
{
    reveal(grid_occupied);
    assert(x.cell(0, 0) == y.cell(0, 0) && x.cell(0, 1) == y.cell(0, 1) && x.cell(0, 2) == y.cell(0, 2));
    assert(x.cell(1, 0) == y.cell(1, 0) && x.cell(1, 1) == y.cell(1, 1) && x.cell(1, 2) == y.cell(1, 2));
    assert(x.cell(2, 0) == y.cell(2, 0) && x.cell(2, 1) == y.cell(2, 1) && x.cell(2, 2) == y.cell(2, 2));
}

/// Fewer than three marks cannot complete a line.
proof fn lemma_few_marks_no_winner(b: SmallBoard)
    requires
        b.occupied() < 3,
    ensures
        winner_of(b.cells()) is None,
{
    reveal(grid_occupied);
    let g = b.cells();
    assert(g(0, 0) == b.cell(0, 0) && g(0, 1) == b.cell(0, 1) && g(0, 2) == b.cell(0, 2));
    assert(g(1, 0) == b.cell(1, 0) && g(1, 1) == b.cell(1, 1) && g(1, 2) == b.cell(1, 2));
    assert(g(2, 0) == b.cell(2, 0) && g(2, 1) == b.cell(2, 1) && g(2, 2) == b.cell(2, 2));
}

} // verus!
