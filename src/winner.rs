use vstd::prelude::*;
use crate::player::Player;

verus! {

/// A 3x3 grid of optional marks.
pub type Grid = [[Option<Player>; 3]; 3];

/// The cells of a grid as a function of (row, column).
pub open spec fn grid_cells(g: Grid) -> spec_fn(int, int) -> Option<Player> {
    |i: int, j: int| g[i][j]
}

/// The mark shared by three cells, if all three hold the same mark.
pub open spec fn line_mark(a: Option<Player>, b: Option<Player>, c: Option<Player>) -> Option<Player> {
    if a is Some && b == a && c == a {
        a
    } else {
        None
    }
}

/// The k-th line in scan order: three rows, three columns, the main
/// diagonal, then the anti-diagonal.
pub open spec fn line(g: spec_fn(int, int) -> Option<Player>, k: int) -> Option<Player> {
    if k < 3 {
        line_mark(g(k, 0), g(k, 1), g(k, 2))
    } else if k < 6 {
        line_mark(g(0, k - 3), g(1, k - 3), g(2, k - 3))
    } else if k == 6 {
        line_mark(g(0, 0), g(1, 1), g(2, 2))
    } else {
        line_mark(g(0, 2), g(1, 1), g(2, 0))
    }
}

/// The mark of the first complete line in scan order.
pub open spec fn winner_of(g: spec_fn(int, int) -> Option<Player>) -> Option<Player> {
    if line(g, 0) is Some {
        line(g, 0)
    } else if line(g, 1) is Some {
        line(g, 1)
    } else if line(g, 2) is Some {
        line(g, 2)
    } else if line(g, 3) is Some {
        line(g, 3)
    } else if line(g, 4) is Some {
        line(g, 4)
    } else if line(g, 5) is Some {
        line(g, 5)
    } else if line(g, 6) is Some {
        line(g, 6)
    } else {
        line(g, 7)
    }
}

/// Some row, column or diagonal holds `p` three times.
pub open spec fn has_line(g: spec_fn(int, int) -> Option<Player>, p: Player) -> bool {
    exists|k: int| 0 <= k < 8 && #[trigger] line(g, k) == Some(p)
}

fn line_winner(a: Option<Player>, b: Option<Player>, c: Option<Player>) -> (r: Option<Player>)
    ensures
        r == line_mark(a, b, c),
{
    match a {
        Some(p) => {
            if b == a && c == a {
                Some(p)
            } else {
                None
            }
        },
        None => None,
    }
}

/// The winner of a 3x3 grid: the mark of the first complete row, column,
/// main diagonal or anti-diagonal, in that order.
pub fn get_winner(board: &Grid) -> (r: Option<Player>)
    ensures
        r == winner_of(grid_cells(*board)),
{
    let ghost g = grid_cells(*board);
    let mut i: usize = 0;
    while i < 3
        invariant
            0 <= i <= 3,
            g == grid_cells(*board),
            forall|k: int| 0 <= k < i ==> #[trigger] line(g, k) is None,
        decreases 3 - i,
    {
        let w = line_winner(board[i][0], board[i][1], board[i][2]);
        assert(w == line(g, i as int));
        if w.is_some() {
            return w;
        }
        i += 1;
    }
    let mut j: usize = 0;
    while j < 3
        invariant
            0 <= j <= 3,
            g == grid_cells(*board),
            forall|k: int| 0 <= k < 3 + j ==> #[trigger] line(g, k) is None,
        decreases 3 - j,
    {
        let w = line_winner(board[0][j], board[1][j], board[2][j]);
        assert(w == line(g, 3 + j));
        if w.is_some() {
            return w;
        }
        j += 1;
    }
    assert(line(g, 0) is None && line(g, 1) is None && line(g, 2) is None);
    assert(line(g, 3) is None && line(g, 4) is None && line(g, 5) is None);
    let w = line_winner(board[0][0], board[1][1], board[2][2]);
    if w.is_some() {
        return w;
    }
    line_winner(board[0][2], board[1][1], board[2][0])
}

/// The winner depends only on the nine cells.
pub proof fn lemma_winner_pointwise(
    g: spec_fn(int, int) -> Option<Player>,
    h: spec_fn(int, int) -> Option<Player>,
)
    requires
        forall|i: int, j: int| 0 <= i < 3 && 0 <= j < 3 ==> #[trigger] g(i, j) == h(i, j),
    ensures
        winner_of(g) == winner_of(h),
{
    assert(g(0, 0) == h(0, 0) && g(0, 1) == h(0, 1) && g(0, 2) == h(0, 2));
    assert(g(1, 0) == h(1, 0) && g(1, 1) == h(1, 1) && g(1, 2) == h(1, 2));
    assert(g(2, 0) == h(2, 0) && g(2, 1) == h(2, 1) && g(2, 2) == h(2, 2));
}

proof fn lemma_winner_has_line(g: spec_fn(int, int) -> Option<Player>)
    ensures
        winner_of(g) matches Some(p) ==> has_line(g, p),
        winner_of(g) is None ==> forall|k: int| 0 <= k < 8 ==> #[trigger] line(g, k) is None,
{
    if let Some(p) = winner_of(g) {
        let k = choose|k: int| 0 <= k < 8 && line(g, k) == winner_of(g);
        assert(line(g, k) == Some(p));
    }
}

/// A grid with a line of `p` and none of the other mark is won by `p`.
pub proof fn lemma_line_wins(g: spec_fn(int, int) -> Option<Player>, p: Player)
    requires
        has_line(g, p),
        !has_line(g, p.spec_other()),
    ensures
        winner_of(g) == Some(p),
{
    lemma_winner_has_line(g);
    let k = choose|k: int| 0 <= k < 8 && line(g, k) == Some(p);
    assert(line(g, k) is Some);
    match winner_of(g) {
        Some(q) => {
            if q != p {
                assert(q == p.spec_other());
            }
        },
        None => {},
    }
}

/// A grid without any complete line has no winner.
pub proof fn lemma_no_line_no_winner(g: spec_fn(int, int) -> Option<Player>)
    requires
        !has_line(g, Player::X),
        !has_line(g, Player::O),
    ensures
        winner_of(g) is None,
{
    lemma_winner_has_line(g);
    match winner_of(g) {
        Some(p) => {
            match p {
                Player::X => {},
                Player::O => {},
            }
        },
        None => {},
    }
}

/// Two grids that hold lines of the same marks have the same winner,
/// provided they do not hold lines of both marks.
proof fn lemma_same_lines_same_winner(
    g: spec_fn(int, int) -> Option<Player>,
    h: spec_fn(int, int) -> Option<Player>,
)
    requires
        has_line(g, Player::X) == has_line(h, Player::X),
        has_line(g, Player::O) == has_line(h, Player::O),
        !(has_line(g, Player::X) && has_line(g, Player::O)),
    ensures
        winner_of(g) == winner_of(h),
{
    if has_line(g, Player::X) {
        lemma_line_wins(g, Player::X);
        lemma_line_wins(h, Player::X);
    } else if has_line(g, Player::O) {
        lemma_line_wins(g, Player::O);
        lemma_line_wins(h, Player::O);
    } else {
        lemma_no_line_no_winner(g);
        lemma_no_line_no_winner(h);
    }
}

/// Rotating a grid a quarter turn keeps the marks that have a complete line,
/// and so keeps the winner of grids that do not hold lines of both marks.
/// With the mirror below it generates every symmetry of the square.
pub proof fn lemma_winner_rotation(
    g: spec_fn(int, int) -> Option<Player>,
    h: spec_fn(int, int) -> Option<Player>,
)
    requires
        forall|i: int, j: int| 0 <= i < 3 && 0 <= j < 3 ==> #[trigger] h(i, j) == g(2 - j, i),
    ensures
        forall|p: Player| #[trigger] has_line(h, p) == has_line(g, p),
        !(has_line(g, Player::X) && has_line(g, Player::O)) ==> winner_of(h) == winner_of(g),
{
    assert forall|p: Player| has_line(g, p) == has_line(h, p) by {
        if has_line(g, p) {
            let k = choose|k: int| 0 <= k < 8 && line(g, k) == Some(p);
            if k < 3 {
                assert(line(h, 5 - k) == Some(p));
            } else if k < 6 {
                assert(line(h, k - 3) == Some(p));
            } else if k == 6 {
                assert(line(h, 7) == Some(p));
            } else {
                assert(line(h, 6) == Some(p));
            }
        }
        if has_line(h, p) {
            let k = choose|k: int| 0 <= k < 8 && line(h, k) == Some(p);
            if k < 3 {
                assert(line(g, k + 3) == Some(p));
            } else if k < 6 {
                assert(line(g, 5 - k) == Some(p));
            } else if k == 6 {
                assert(line(g, 7) == Some(p));
            } else {
                assert(line(g, 6) == Some(p));
            }
        }
    }
    if !(has_line(g, Player::X) && has_line(g, Player::O)) {
        lemma_same_lines_same_winner(g, h);
    }
}

/// Mirroring a grid left to right keeps the marks that have a complete
/// line, and so keeps the winner of grids that do not hold lines of both
/// marks.
pub proof fn lemma_winner_reflection(
    g: spec_fn(int, int) -> Option<Player>,
    h: spec_fn(int, int) -> Option<Player>,
)
    requires
        forall|i: int, j: int| 0 <= i < 3 && 0 <= j < 3 ==> #[trigger] h(i, j) == g(i, 2 - j),
    ensures
        forall|p: Player| #[trigger] has_line(h, p) == has_line(g, p),
        !(has_line(g, Player::X) && has_line(g, Player::O)) ==> winner_of(h) == winner_of(g),
{
    assert forall|p: Player| has_line(g, p) == has_line(h, p) by {
        if has_line(g, p) {
            let k = choose|k: int| 0 <= k < 8 && line(g, k) == Some(p);
            if k < 3 {
                assert(line(h, k) == Some(p));
            } else if k < 6 {
                assert(line(h, 8 - k) == Some(p));
            } else if k == 6 {
                assert(line(h, 7) == Some(p));
            } else {
                assert(line(h, 6) == Some(p));
            }
        }
        if has_line(h, p) {
            let k = choose|k: int| 0 <= k < 8 && line(h, k) == Some(p);
            if k < 3 {
                assert(line(g, k) == Some(p));
            } else if k < 6 {
                assert(line(g, 8 - k) == Some(p));
            } else if k == 6 {
                assert(line(g, 7) == Some(p));
            } else {
                assert(line(g, 6) == Some(p));
            }
        }
    }
    if !(has_line(g, Player::X) && has_line(g, Player::O)) {
        lemma_same_lines_same_winner(g, h);
    }
}

} // verus!
