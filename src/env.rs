use vstd::prelude::*;
use crate::game::{Game, Move};
use crate::player::Player;

verus! {

/// The action code of a move: `r1 * 27 + c1 * 9 + r2 * 3 + c2`.
pub open spec fn move_code(m: Move) -> int {
    m.0.0 * 27 + m.0.1 * 9 + m.1.0 * 3 + m.1.1
}

/// The move that an action code in `0..81` stands for.
pub open spec fn code_move(a: int) -> Move {
    Move(((a / 27) as u8, ((a / 9) % 3) as u8), (((a / 3) % 3) as u8, (a % 3) as u8))
}

/// Two moves on the board with the same action code are the same move.
pub proof fn lemma_code_injective(m1: Move, m2: Move)
    requires
        m1.spec_in_range(),
        m2.spec_in_range(),
        move_code(m1) == move_code(m2),
    ensures
        m1 == m2,
{
}

/// The action code of a move.
pub fn move_to_action(m: Move) -> (r: u8)
    requires
        m.spec_in_range(),
    ensures
        r as int == move_code(m),
        r < 81,
{
    let Move((x1, y1), (x2, y2)) = m;
    x1 * 27 + y1 * 9 + x2 * 3 + y2
}

/// The move that an action code stands for.
pub fn action_to_move(a: u8) -> (r: Move)
    requires
        a < 81,
    ensures
        r == code_move(a as int),
        r.spec_in_range(),
        move_code(r) == a,
{
    Move((a / 27, (a / 9) % 3), ((a / 3) % 3, a % 3))
}

/// Decoding an encoded move gives the move back.
pub proof fn lemma_decode_encode(m: Move)
    requires
        m.spec_in_range(),
    ensures
        code_move(move_code(m)) == m,
{
    let a = move_code(m);
    assert(a / 27 == m.0.0);
    assert((a / 9) % 3 == m.0.1);
    assert((a / 3) % 3 == m.1.0);
    assert(a % 3 == m.1.1);
}

/// Encoding is a bijection from the moves on the board onto `0..81`.
pub proof fn lemma_encoding_bijective()
    ensures
        forall|m: Move| #[trigger] m.spec_in_range() ==> 0 <= move_code(m) < 81,
        forall|m1: Move, m2: Move|
            m1.spec_in_range() && m2.spec_in_range() && #[trigger] move_code(m1) == #[trigger] move_code(
                m2,
            ) ==> m1 == m2,
        forall|a: int|
            0 <= a < 81 ==> (#[trigger] code_move(a)).spec_in_range() && move_code(code_move(a))
                == a,
{
    assert forall|a: int| 0 <= a < 81 implies (#[trigger] code_move(a)).spec_in_range() && move_code(
        code_move(a),
    ) == a by {
        lemma_encode_decode(a);
    }
}

/// Encoding a decoded action code gives the code back.
pub proof fn lemma_encode_decode(a: int)
    requires
        0 <= a < 81,
    ensures
        code_move(a).spec_in_range(),
        move_code(code_move(a)) == a,
{
}

/// The first legal move whose code is at least `a`.
pub open spec fn first_legal_from(g: Game, a: int) -> Option<Move>
    decreases 81 - a,
{
    if a >= 81 || a < 0 {
        None
    } else if g.legal(code_move(a)) {
        Some(code_move(a))
    } else {
        first_legal_from(g, a + 1)
    }
}

/// The move that `step` plays: the decoded action when it is legal, else
/// the first legal move in code order, if any.
pub open spec fn step_move(g: Game, action: u8) -> Option<Move> {
    if action < 81 && g.legal(code_move(action as int)) {
        Some(code_move(action as int))
    } else {
        first_legal_from(g, 0)
    }
}

/// `after` is the position that `step(action)` leaves from `g`.
pub open spec fn stepped(g: Game, action: u8, after: Game) -> bool {
    match step_move(g, action) {
        Some(m) => after.follows(g, m),
        None => after == g,
    }
}

proof fn lemma_first_legal(g: Game, a: int)
    requires
        0 <= a <= 81,
    ensures
        first_legal_from(g, a) matches Some(m) ==> g.legal(m),
        (exists|m: Move| #[trigger] g.legal(m) && move_code(m) >= a) ==> first_legal_from(g, a) is Some,
    decreases 81 - a,
{
    if a < 81 {
        lemma_first_legal(g, a + 1);
        lemma_encode_decode(a);
        if exists|m: Move| #[trigger] g.legal(m) && move_code(m) >= a {
            let m = choose|m: Move| #[trigger] g.legal(m) && move_code(m) >= a;
            if move_code(m) == a {
                lemma_code_injective(m, code_move(a));
            }
        }
    } else {
        if exists|m: Move| #[trigger] g.legal(m) && move_code(m) >= a {
            let m = choose|m: Move| #[trigger] g.legal(m) && move_code(m) >= a;
            assert(m.spec_in_range());
        }
    }
}

/// 1 when the condition holds, else 0.
pub open spec fn flag(b: bool) -> u8 {
    if b { 1 } else { 0 }
}

/// Entry `[p][x][y]` of the observation of a position: plane 0 marks the
/// pieces of the mark to move, plane 1 those of the other mark, plane 2 is
/// 1 throughout when `X` is to move.
pub open spec fn observation_at(g: Game, p: int, x: int, y: int) -> u8 {
    let c = g.cell(x / 3, y / 3, x % 3, y % 3);
    if p == 0 {
        flag(c == Some(g.turn()))
    } else if p == 1 {
        flag(c == Some(g.turn().spec_other()))
    } else {
        flag(g.turn() == Player::X)
    }
}

/// +1 when `X` has won, -1 when `O` has won, 0 otherwise.
pub open spec fn reward_of(g: Game) -> int {
    match g.spec_winner() {
        Some(Player::X) => 1,
        Some(Player::O) => -1,
        None => 0,
    }
}

fn observation_plane(game: &Game, board: &[[Option<Player>; 9]; 9], p: usize) -> (r: [[u8; 9]; 9])
    requires
        p < 3,
        forall|x: int, y: int|
            0 <= x < 9 && 0 <= y < 9 ==> #[trigger] board[x][y] == game.cell(x / 3, y / 3, x % 3, y % 3),
    ensures
        forall|x: int, y: int|
            0 <= x < 9 && 0 <= y < 9 ==> #[trigger] r[x][y] == observation_at(*game, p as int, x, y),
{
    let current = game.current_player();
    let mut plane: [[u8; 9]; 9] = [[0; 9]; 9];
    let mut x: usize = 0;
    while x < 9
        invariant
            0 <= x <= 9,
            p < 3,
            current == game.turn(),
            forall|x: int, y: int|
                0 <= x < 9 && 0 <= y < 9 ==> #[trigger] board[x][y] == game.cell(x / 3, y / 3, x % 3, y % 3),
            forall|x1: int, y: int|
                0 <= x1 < x && 0 <= y < 9 ==> #[trigger] plane[x1][y] == observation_at(*game, p as int, x1, y),
        decreases 9 - x,
    {
        let mut row: [u8; 9] = [0; 9];
        let mut y: usize = 0;
        while y < 9
            invariant
                0 <= x < 9,
                0 <= y <= 9,
                p < 3,
                current == game.turn(),
                forall|x: int, y: int|
                    0 <= x < 9 && 0 <= y < 9 ==> #[trigger] board[x][y] == game.cell(x / 3, y / 3, x % 3, y % 3),
                forall|y1: int| 0 <= y1 < y ==> #[trigger] row[y1] == observation_at(*game, p as int, x as int, y1),
            decreases 9 - y,
        {
            let field = board[x][y];
            let on = if p == 0 {
                field == Some(current)
            } else if p == 1 {
                field == Some(current.other())
            } else {
                current == Player::X
            };
            row[y] = if on { 1 } else { 0 };
            y += 1;
        }
        plane[x] = row;
        x += 1;
    }
    plane
}

/// The 3x9x9 observation of a position.
fn create_observation(game: &Game) -> (r: [[[u8; 9]; 9]; 3])
    ensures
        forall|p: int, x: int, y: int|
            0 <= p < 3 && 0 <= x < 9 && 0 <= y < 9 ==> #[trigger] r[p][x][y] == observation_at(*game, p, x, y),
{
    let board = game.board();
    let p0 = observation_plane(game, &board, 0);
    let p1 = observation_plane(game, &board, 1);
    let p2 = observation_plane(game, &board, 2);
    let r = [p0, p1, p2];
    assert forall|p: int, x: int, y: int|
        0 <= p < 3 && 0 <= x < 9 && 0 <= y < 9 implies #[trigger] r[p][x][y] == observation_at(*game, p, x, y) by {
        if p == 0 {
            assert(r[p] == p0);
        } else if p == 1 {
            assert(r[p] == p1);
        } else {
            assert(r[p] == p2);
        }
    }
    r
}

/// A game seen as an environment: actions are move codes, the reward is
/// seen from `X`.
#[derive(Clone, Copy)]
pub struct UTTTEnvImpl {
    pub game: Game,
}

impl UTTTEnvImpl {
    /// The position is a fresh game.
    pub open spec fn spec_fresh(&self) -> bool {
        &&& self.game.wf()
        &&& self.game.turn() == Player::X
        &&& self.game.last() is None
        &&& self.game.occupied() == 0
        &&& forall|i: int, j: int, k: int, l: int|
            0 <= i < 3 && 0 <= j < 3 && 0 <= k < 3 && 0 <= l < 3 ==> #[trigger] self.game.cell(
                i,
                j,
                k,
                l,
            ) is None
    }

    pub fn new() -> (r: UTTTEnvImpl)
        ensures
            r.spec_fresh(),
    {
        UTTTEnvImpl { game: Game::new() }
    }

    /// Starts a fresh game.
    pub fn reset(&mut self)
        ensures
            final(self).spec_fresh(),
    {
        self.game = Game::new();
    }

    /// Plays `action` when it is legal, else the first legal move in code
    /// order, and returns the observation, the reward and whether the game
    /// is over. When no move is legal the game is left as it is; besides a
    /// finished game, that happens when every subboard is won or full while
    /// the subboard winners form no line and cells are left, a position that
    /// is not over.
    pub fn step(&mut self, action: u8) -> (r: ([[[u8; 9]; 9]; 3], i8, bool))
        requires
            old(self).game.wf(),
        ensures
            final(self).game.wf(),
            match step_move(old(self).game, action) {
                Some(m) => final(self).game.follows(old(self).game, m),
                None => final(self).game == old(self).game,
            },
            (exists|m: Move| #[trigger] old(self).game.legal(m)) ==> final(self).game.occupied()
                == old(self).game.occupied() + 1,
            forall|p: int, x: int, y: int|
                0 <= p < 3 && 0 <= x < 9 && 0 <= y < 9 ==> #[trigger] r.0[p][x][y] == observation_at(
                    final(self).game,
                    p,
                    x,
                    y,
                ),
            r.1 as int == reward_of(final(self).game),
            r.2 == final(self).game.spec_over(),
    {
        proof {
            lemma_first_legal(self.game, 0);
        }
        let legal = action < 81 && self.game.move_valid(action_to_move(action));
        if legal {
            self.game.make_move(action_to_move(action));
        } else {
            let ghost g = self.game;
            let mut a: u8 = 0;
            while a < 81
                invariant_except_break
                    self.game == g,
                invariant
                    0 <= a <= 81,
                    g.wf(),
                    first_legal_from(g, 0) == first_legal_from(g, a as int),
                ensures
                    match first_legal_from(g, 0) {
                        Some(m) => self.game.follows(g, m),
                        None => self.game == g,
                    },
                decreases 81 - a,
            {
                let m = action_to_move(a);
                if self.game.move_valid(m) {
                    self.game.make_move(m);
                    break;
                }
                a += 1;
            }
        }
        let observation = create_observation(&self.game);
        let reward = self.reward();
        let done = self.done();
        (observation, reward, done)
    }

    /// The codes of the legal moves, in increasing order.
    pub fn valid_actions(&self) -> (r: Vec<u8>)
        requires
            self.game.wf(),
        ensures
            forall|k: int|
                0 <= k < r@.len() ==> #[trigger] r@[k] < 81 && self.game.legal(code_move(r@[k] as int)),
            forall|k1: int, k2: int| 0 <= k1 < k2 < r@.len() ==> #[trigger] r@[k1] < #[trigger] r@[k2],
            forall|a: u8| a < 81 && #[trigger] self.game.legal(code_move(a as int)) ==> r@.contains(a),
            r@.len() <= 81,
    {
        let mut result: Vec<u8> = Vec::new();
        let mut a: u8 = 0;
        while a < 81
            invariant
                0 <= a <= 81,
                result@.len() <= a,
                self.game.wf(),
                forall|k: int|
                    0 <= k < result@.len() ==> #[trigger] result@[k] < a && self.game.legal(
                        code_move(result@[k] as int),
                    ),
                forall|k1: int, k2: int|
                    0 <= k1 < k2 < result@.len() ==> #[trigger] result@[k1] < #[trigger] result@[k2],
                forall|b: u8| b < a && #[trigger] self.game.legal(code_move(b as int)) ==> result@.contains(b),
            decreases 81 - a,
        {
            let ghost prev = result@;
            if self.game.move_valid(action_to_move(a)) {
                result.push(a);
                assert(result@[result@.len() - 1] == a);
            }
            assert forall|b: u8| b < a + 1 && #[trigger] self.game.legal(code_move(b as int)) implies result@.contains(b) by {
                if b < a {
                    let k = choose|k: int| 0 <= k < prev.len() && prev[k] == b;
                    assert(result@[k] == b);
                }
            }
            a += 1;
        }
        result
    }

    /// 0 when `X` is to move, 1 when `O` is.
    pub fn current_player(&self) -> (r: u8)
        ensures
            r == if self.game.turn() == Player::X { 0u8 } else { 1u8 },
    {
        match self.game.current_player() {
            Player::X => 0,
            Player::O => 1,
        }
    }

    /// Whether the game is over. It stays false on a position where every
    /// subboard is won or full, the winners form no line and cells are left,
    /// although no move is legal there.
    pub fn done(&self) -> (r: bool)
        requires
            self.game.wf(),
        ensures
            r == self.game.spec_over(),
    {
        self.game.is_over()
    }

    /// +1 when `X` has won, -1 when `O` has won, 0 otherwise.
    pub fn reward(&self) -> (r: i8)
        requires
            self.game.wf(),
        ensures
            r as int == reward_of(self.game),
    {
        match self.game.winner() {
            Some(Player::X) => 1,
            Some(Player::O) => -1,
            None => 0,
        }
    }
}

} // verus!
