use vstd::prelude::*;
use rand::rngs::StdRng;
use crate::env::{action_to_move, code_move, move_code, move_to_action, UTTTEnvImpl};
use crate::game::{legal_step, plays, reached_by_play, same_position, lemma_same_position_legal, lemma_follows_same, lemma_follows_transfer, Game, Move};
use crate::player::Player;
use crate::random::{random_below, seeded_rng};

verus! {

/// Plays uniformly random legal moves from `state` until the game is over
/// or no legal move is left, and returns the winner.
pub(crate) fn rollout(state: Game, rng: &mut StdRng) -> (r: Option<Player>)
    requires
        state.wf(),
    ensures
        exists|end: Game| #[trigger] reached_by_play(state, end) && end.finished() && r == end.spec_winner(),
        state.spec_over() ==> r == state.spec_winner(),
{
    proof {
        reveal(legal_step);
        reveal(reached_by_play);
    }
    let start = state;
    let mut state = state;
    let ghost mut path: Seq<Game> = seq![start];
    let mut stuck = false;
    while !state.is_over()
        invariant_except_break
            !stuck,
        invariant
            state.wf(),
            plays(path, start, state),
            start.spec_over() ==> state == start,
            stuck ==> state.stuck(),
        ensures
            state.finished(),
        decreases 81 - state.occupied(),
    {
        let moves = state.valid_moves();
        if moves.len() == 0 {
            stuck = true;
            assert forall|m: Move| !#[trigger] state.legal(m) by {
                if state.legal(m) {
                    assert(moves@.contains(m));
                }
            }
            break;
        }
        let i = random_below(rng, moves.len());
        let m = moves[i];
        let ghost prev = state;
        state.make_move(m);
        proof {
            reveal(legal_step);
            assert(legal_step(prev, state));
            let old_path = path;
            path = path.push(state);
            assert forall|j: int| 0 <= j < path.len() - 1 implies #[trigger] legal_step(path[j], path[j + 1]) by {
                if j < old_path.len() - 1 {
                    assert(path[j] == old_path[j] && path[j + 1] == old_path[j + 1]);
                }
            }
            lemma_occupied_at_most_81(state);
        }
    }
    assert(plays(path, start, state));
    assert(reached_by_play(start, state));
    let r = state.winner();
    assert(state.finished() && r == state.spec_winner());
    r
}

proof fn lemma_play_refl(g: Game)
    ensures
        reached_by_play(g, g),
{
    reveal(reached_by_play);
    assert(plays(seq![g], g, g));
}

proof fn lemma_play_step(a: Game, b: Game, c: Game)
    requires
        reached_by_play(a, b),
        legal_step(b, c),
    ensures
        reached_by_play(a, c),
{
    reveal(reached_by_play);
    let path = choose|path: Seq<Game>| #[trigger] plays(path, a, b);
    let p2 = path.push(c);
    assert forall|j: int| 0 <= j < p2.len() - 1 implies #[trigger] legal_step(p2[j], p2[j + 1]) by {
        if j < path.len() - 1 {
            assert(p2[j] == path[j] && p2[j + 1] == path[j + 1]);
        }
    }
    assert(plays(p2, a, c));
}

proof fn lemma_iteration_outcome(
    a: MCTS,
    b: MCTS,
    path: Seq<usize>,
    s: int,
    r: u64,
    leaf_state: Game,
    winner: Option<Player>,
)
    requires
        iteration_trace(a, b, path, s, r),
        reached_by_play(a.spec_root_state(), leaf_state),
        exists|end: Game| #[trigger] reached_by_play(leaf_state, end) && end.finished() && winner == end.spec_winner(),
        r == half_reward(leaf_state.turn().spec_other(), winner),
    ensures
        exists|path: Seq<usize>, s: int, r: u64, leaf_state: Game, end: Game|
            #[trigger] iteration_outcome(a, b, path, s, r, leaf_state, end),
{
    let end = choose|end: Game| #[trigger] reached_by_play(leaf_state, end) && end.finished() && winner == end.spec_winner();
    assert(iteration_outcome(a, b, path, s, r, leaf_state, end));
}

proof fn lemma_occupied_at_most_81(g: Game)
    requires
        g.wf(),
    ensures
        g.occupied() <= 81,
{
    let b = g.big();
    assert(b.board(0, 0).wf() && b.board(0, 1).wf() && b.board(0, 2).wf());
    assert(b.board(1, 0).wf() && b.board(1, 1).wf() && b.board(1, 2).wf());
    assert(b.board(2, 0).wf() && b.board(2, 1).wf() && b.board(2, 2).wf());
}

/// Twice the reward of a finished rollout for `player`: 2 for a win, 1 for
/// a draw, 0 for a loss.
pub open spec fn half_reward(player: Player, winner: Option<Player>) -> u64 {
    match winner {
        None => 1,
        Some(w) => if w == player { 2 } else { 0 },
    }
}

fn reward_for(player: Player, winner: Option<Player>) -> (r: u64)
    ensures
        r == half_reward(player, winner),
{
    match winner {
        None => 1,
        Some(w) => if w == player { 2 } else { 0 },
    }
}


/// What a selection rule sees of a materialized child: its visit count and
/// twice its accumulated reward.
#[derive(Clone, Copy, Debug)]
pub struct ChildStats {
    pub visits: u32,
    pub reward: u64,
}

/// A node of the search tree. Its state is the root state with the actions
/// on the path from the root played in order.
pub(crate) struct Node {
    pub(crate) visits: u32,
    /// Twice the accumulated reward, so that a draw counts one.
    pub(crate) reward: u64,
    pub(crate) parent: Option<usize>,
    pub(crate) action: Option<Move>,
    pub(crate) children: Vec<(Move, Option<usize>)>,
}

impl Node {
    fn new(state: &Game, parent: Option<usize>, action: Option<Move>) -> (r: Node)
        requires
            state.wf(),
        ensures
            r.visits == 0,
            r.reward == 0,
            r.parent == parent,
            r.action == action,
            forall|k: int| 0 <= k < r.children@.len() ==> (#[trigger] r.children@[k]).1 is None,
            forall|k: int| 0 <= k < r.children@.len() ==> (#[trigger] r.children@[k]).0.spec_in_range(),
            forall|k: int| 0 <= k < r.children@.len() ==> state.legal((#[trigger] r.children@[k]).0),
            forall|k1: int, k2: int|
                0 <= k1 < k2 < r.children@.len() ==> move_code((#[trigger] r.children@[k1]).0) < move_code(
                    (#[trigger] r.children@[k2]).0,
                ),
            forall|m: Move| #[trigger] state.legal(m) ==> exists|k: int| 0 <= k < r.children@.len() && (#[trigger] r.children@[k]).0 == m,
    {
        let moves = state.valid_moves();
        let mut children: Vec<(Move, Option<usize>)> = Vec::new();
        let mut k: usize = 0;
        while k < moves.len()
            invariant
                0 <= k <= moves@.len(),
                children@.len() == k,
                forall|j: int| 0 <= j < k ==> (#[trigger] children@[j]).1 is None,
                forall|j: int| 0 <= j < moves@.len() ==> state.legal(#[trigger] moves@[j]),
                forall|j: int| 0 <= j < k ==> (#[trigger] children@[j]).0 == moves@[j],
            decreases moves@.len() - k,
        {
            children.push((moves[k], None));
            k += 1;
        }
        assert forall|m: Move| #[trigger] state.legal(m) implies exists|k: int| 0 <= k < children@.len() && (#[trigger] children@[k]).0 == m by {
            assert(moves@.contains(m));
            let j = choose|j: int| 0 <= j < moves@.len() && moves@[j] == m;
            assert(children@[j].0 == m);
        }
        Node { visits: 0, reward: 0, parent, action, children }
    }

    fn fully_expanded(&self) -> (r: bool)
        ensures
            r == forall|k: int| 0 <= k < self.children@.len() ==> (#[trigger] self.children@[k]).1 is Some,
    {
        let mut k: usize = 0;
        while k < self.children.len()
            invariant
                0 <= k <= self.children@.len(),
                forall|j: int| 0 <= j < k ==> (#[trigger] self.children@[j]).1 is Some,
            decreases self.children@.len() - k,
        {
            if self.children[k].1.is_none() {
                return false;
            }
            k += 1;
        }
        true
    }

    fn is_terminal(&self) -> (r: bool)
        ensures
            r == (self.children@.len() == 0),
    {
        self.children.len() == 0
    }
}

/// Node `i` reaches node `r` by following parent links.
pub(crate) open spec fn reaches(nodes: Seq<Node>, i: int, r: int) -> bool
    decreases i,
{
    if i == r {
        true
    } else if 0 <= i < nodes.len() {
        match nodes[i].parent {
            Some(p) => 0 <= p < i && reaches(nodes, p as int, r),
            None => false,
        }
    } else {
        false
    }
}

/// The number of nodes below `n` that reach `r`.
pub(crate) open spec fn count_reaching(nodes: Seq<Node>, r: int, n: int) -> nat
    decreases n,
{
    if n <= 0 {
        0
    } else {
        count_reaching(nodes, r, n - 1) + if reaches(nodes, n - 1, r) { 1nat } else { 0nat }
    }
}

/// The visits of the node a slot points at, 0 for an empty slot.
pub(crate) open spec fn slot_value(nodes: Seq<Node>, slot: Option<usize>) -> nat {
    match slot {
        Some(c) => nodes[c as int].visits as nat,
        None => 0,
    }
}

/// The visits of the nodes that the first `k` slots point at, summed.
pub(crate) open spec fn slot_sum(nodes: Seq<Node>, ch: Seq<(Move, Option<usize>)>, k: int) -> nat
    decreases k,
{
    if k <= 0 {
        0
    } else {
        slot_sum(nodes, ch, k - 1) + slot_value(nodes, ch[k - 1].1)
    }
}

/// The visits of the materialized children of node `i`, summed.
pub(crate) open spec fn children_sum(nodes: Seq<Node>, i: int) -> nat {
    slot_sum(nodes, nodes[i].children@, nodes[i].children@.len() as int)
}

proof fn lemma_slot_sum_le(
    a: Seq<Node>,
    cha: Seq<(Move, Option<usize>)>,
    b: Seq<Node>,
    chb: Seq<(Move, Option<usize>)>,
    k: int,
)
    requires
        forall|j: int| 0 <= j < k ==> slot_value(b, #[trigger] chb[j].1) <= slot_value(a, cha[j].1),
    ensures
        slot_sum(b, chb, k) <= slot_sum(a, cha, k),
    decreases k,
{
    if k > 0 {
        lemma_slot_sum_le(a, cha, b, chb, k - 1);
        assert(slot_value(b, chb[k - 1].1) <= slot_value(a, cha[k - 1].1));
    }
}

proof fn lemma_slot_sum_bump(a: Seq<Node>, b: Seq<Node>, ch: Seq<(Move, Option<usize>)>, k: int, n: int)
    requires
        0 <= k <= ch.len(),
        forall|j: int| 0 <= j < k && (#[trigger] ch[j]).1 != Some(n as usize) ==> slot_value(b, ch[j].1) <= slot_value(a, ch[j].1),
        forall|j: int| 0 <= j < k && (#[trigger] ch[j]).1 == Some(n as usize) ==> slot_value(b, ch[j].1) <= slot_value(a, ch[j].1) + 1,
        forall|j1: int, j2: int|
            0 <= j1 < k && 0 <= j2 < k && (#[trigger] ch[j1]).1 == Some(n as usize) && (#[trigger] ch[j2]).1 == Some(n as usize) ==> j1 == j2,
    ensures
        slot_sum(b, ch, k) <= slot_sum(a, ch, k) + if exists|j: int| 0 <= j < k && (#[trigger] ch[j]).1 == Some(n as usize) { 1int } else { 0int },
    decreases k,
{
    if k > 0 {
        lemma_slot_sum_bump(a, b, ch, k - 1, n);
        if ch[k - 1].1 == Some(n as usize) {
            if exists|j: int| 0 <= j < k - 1 && (#[trigger] ch[j]).1 == Some(n as usize) {
                let j = choose|j: int| 0 <= j < k - 1 && (#[trigger] ch[j]).1 == Some(n as usize);
                assert(j == k - 1);
            }
        } else {
            if exists|j: int| 0 <= j < k - 1 && (#[trigger] ch[j]).1 == Some(n as usize) {
                let j = choose|j: int| 0 <= j < k - 1 && (#[trigger] ch[j]).1 == Some(n as usize);
                assert(0 <= j < k && ch[j].1 == Some(n as usize));
            }
        }
    }
}

/// The reward added at step `k` of a backpropagation that starts with
/// `r`: `r`, then `2 - r`, alternately.
pub open spec fn alternate(r: u64, k: int) -> int {
    if k % 2 == 0 { r as int } else { 2 - r as int }
}

/// Node `i` lies on the path.
pub open spec fn on_path(path: Seq<usize>, i: int) -> bool {
    exists|k: int| 0 <= k < path.len() && path[k] as int == i
}

/// `path` walks parent links from `leaf` up to `root`, which has no parent.
pub(crate) open spec fn chain(nodes: Seq<Node>, path: Seq<usize>, leaf: int, root: int) -> bool {
    &&& path.len() >= 1
    &&& path[0] as int == leaf
    &&& path.last() as int == root
    &&& forall|k: int| 0 <= k < path.len() ==> (#[trigger] path[k] as int) < nodes.len()
    &&& forall|k: int| 0 <= k < path.len() - 1 ==> nodes[#[trigger] path[k] as int].parent == Some(path[k + 1])
}

/// `b` is `a` with one node appended under `s`: one empty slot of `s` now
/// points at the new node, whose action is that slot's move and whose
/// visits, reward and slots are zero and empty; every earlier node is kept
/// but for that slot.
pub(crate) open spec fn grown(a: Seq<Node>, b: Seq<Node>, s: int) -> bool {
    let n = a.len() as int;
    &&& b.len() == n + 1
    &&& 0 <= s < n
    &&& b[n].parent == Some(s as usize)
    &&& b[n].visits == 0
    &&& b[n].reward == 0
    &&& forall|j: int| 0 <= j < b[n].children@.len() ==> (#[trigger] b[n].children@[j]).1 is None
    &&& exists|k: int|
        0 <= k < a[s].children@.len() && (#[trigger] a[s].children@[k]).1 is None
            && b[s].children@[k] == (a[s].children@[k].0, Some(n as usize))
            && b[n].action == Some(a[s].children@[k].0)
            && forall|j: int|
            0 <= j < a[s].children@.len() && j != k ==> #[trigger] b[s].children@[j] == a[s].children@[j]
    &&& b[s].children@.len() == a[s].children@.len()
    &&& forall|i: int|
        0 <= i < n ==> (#[trigger] b[i]).parent == a[i].parent && b[i].action == a[i].action
            && b[i].visits == a[i].visits && b[i].reward == a[i].reward && (i != s ==> b[i].children
            == a[i].children)
}

/// What one iteration did to the tree `a`, leaving `b`: descent stopped at
/// node `s` of the subtree; a node was appended under `s` exactly when `s`
/// had an empty slot, and that slot now points at it; `path` runs from the
/// leaf (the new node, else `s`) up to the root, each node on it gained one
/// visit and rewards `r`, `2 - r`, ... in turn, and every other node kept its
/// visits and reward. Descent stops only at a terminal node or one with an
/// empty slot, and at the root while the root has an empty slot.
#[verifier::opaque]
pub open spec fn iteration_trace(a: MCTS, b: MCTS, path: Seq<usize>, s: int, r: u64) -> bool {
    let n = a.arena_len() as int;
    let grew = b.arena_len() == n + 1;
    &&& r <= 2
    &&& 0 <= s < n
    &&& a.in_tree(s)
    &&& b.arena_len() == n || grew
    &&& grew <==> exists|k: int| 0 <= k < a.node_slots(s).len() && (#[trigger] a.node_slots(s)[k]).1 is None
    &&& grew ==> path[0] == n && b.node_parent(n) == Some(s as usize) && exists|k: int|
        0 <= k < a.node_slots(s).len() && (#[trigger] a.node_slots(s)[k]).1 is None && b.node_slots(s)[k]
            == (a.node_slots(s)[k].0, Some(n as usize)) && b.node_action(n) == Some(a.node_slots(s)[k].0)
    &&& !grew ==> path[0] == s
    &&& a.node_slots(s).len() == 0 || exists|k: int|
        0 <= k < a.node_slots(s).len() && (#[trigger] a.node_slots(s)[k]).1 is None
    &&& (exists|k: int|
        0 <= k < a.node_slots(a.root_index() as int).len() && (#[trigger] a.node_slots(a.root_index() as int)[k]).1 is None)
        ==> s == a.root_index()
    &&& path.len() >= 1
    &&& path.last() == b.root_index()
    &&& forall|k: int| 0 <= k < path.len() ==> (#[trigger] path[k] as int) < b.arena_len()
    &&& forall|k: int| 0 <= k < path.len() - 1 ==> b.node_parent(#[trigger] path[k] as int) == Some(path[k + 1])
    &&& forall|i: int|
        0 <= i < b.arena_len() ==> #[trigger] b.node_visits(i) == (if i < n { a.node_visits(i) as int } else { 0int })
            + if on_path(path, i) { 1int } else { 0int }
    &&& forall|i: int|
        0 <= i < b.arena_len() && !on_path(path, i) ==> #[trigger] b.node_reward(i) == if i < n { a.node_reward(i) as int } else { 0int }
    &&& forall|k: int|
        0 <= k < path.len() ==> b.node_reward(#[trigger] path[k] as int) == (if path[k] < n { a.node_reward(path[k] as int) as int } else { 0int })
            + alternate(r, k)
}

#[verifier::rlimit(60)]
proof fn lemma_iteration_trace(a: MCTS, e: Seq<Node>, b: MCTS, path: Seq<usize>, s: int, r: u64)
    requires
        r <= 2,
        0 <= s < a.nodes@.len(),
        reaches(a.nodes@, s, a.root as int),
        b.root == a.root,
        a.nodes@[s].children@.len() == 0 || exists|k: int|
            0 <= k < a.nodes@[s].children@.len() && (#[trigger] a.nodes@[s].children@[k]).1 is None,
        (exists|k: int|
            0 <= k < a.nodes@[a.root as int].children@.len() && (#[trigger] a.nodes@[a.root as int].children@[k]).1 is None)
            ==> s == a.root,
        e.len() == a.nodes@.len() ==> e == a.nodes@ && path[0] == s,
        e.len() == a.nodes@.len() + 1 ==> grown(a.nodes@, e, s) && path[0] == a.nodes@.len(),
        e.len() == a.nodes@.len() || e.len() == a.nodes@.len() + 1,
        (e.len() == a.nodes@.len() + 1) <==> exists|k: int|
            0 <= k < a.nodes@[s].children@.len() && (#[trigger] a.nodes@[s].children@[k]).1 is None,
        chain(e, path, path[0] as int, b.root as int),
        b.nodes@.len() == e.len(),
        forall|i: int|
            0 <= i < e.len() ==> (#[trigger] b.nodes@[i]).parent == e[i].parent && b.nodes@[i].children
                == e[i].children && b.nodes@[i].action == e[i].action,
        forall|i: int|
            0 <= i < e.len() ==> (#[trigger] b.nodes@[i]).visits == e[i].visits + if on_path(path, i) { 1int } else { 0int },
        forall|i: int| 0 <= i < e.len() && !on_path(path, i) ==> (#[trigger] b.nodes@[i]).reward == e[i].reward,
        forall|k: int| 0 <= k < path.len() ==> b.nodes@[#[trigger] path[k] as int].reward == e[path[k] as int].reward + alternate(r, k),
    ensures
        iteration_trace(a, b, path, s, r),
        forall|i: int|
            0 <= i < a.arena_len() ==> #[trigger] b.node_parent(i) == a.node_parent(i)
                && b.node_action(i) == a.node_action(i)
                && b.node_slots(i).len() == a.node_slots(i).len()
                && forall|k: int|
                0 <= k < a.node_slots(i).len() ==> (#[trigger] b.node_slots(i)[k]).0
                    == a.node_slots(i)[k].0 && (a.node_slots(i)[k].1 is Some
                    ==> b.node_slots(i)[k].1 == a.node_slots(i)[k].1),
{
    reveal(iteration_trace);
    let n = a.nodes@.len() as int;
    assert(b.nodes@.len() == e.len());
    if e.len() == n + 1 {
        assert(grown(a.nodes@, e, s));
        let k = choose|k: int|
            0 <= k < a.nodes@[s].children@.len() && (#[trigger] a.nodes@[s].children@[k]).1 is None
                && e[s].children@[k] == (a.nodes@[s].children@[k].0, Some(n as usize))
                && e[n].action == Some(a.nodes@[s].children@[k].0)
                && forall|j: int|
                0 <= j < a.nodes@[s].children@.len() && j != k ==> #[trigger] e[s].children@[j] == a.nodes@[s].children@[j];
        assert(a.node_slots(s)[k].1 is None);
        assert(b.node_slots(s)[k] == (a.node_slots(s)[k].0, Some(n as usize)));
        assert forall|i: int| 0 <= i < n implies #[trigger] b.node_parent(i) == a.node_parent(i)
            && b.node_action(i) == a.node_action(i) && b.node_slots(i).len() == a.node_slots(i).len()
            && forall|k2: int|
            0 <= k2 < a.node_slots(i).len() ==> (#[trigger] b.node_slots(i)[k2]).0 == a.node_slots(i)[k2].0
                && (a.node_slots(i)[k2].1 is Some ==> b.node_slots(i)[k2].1 == a.node_slots(i)[k2].1) by {
            assert(e[i].parent == a.nodes@[i].parent);
            if i == s {
                assert forall|k2: int| 0 <= k2 < a.node_slots(i).len() implies (#[trigger] b.node_slots(i)[k2]).0 == a.node_slots(i)[k2].0
                    && (a.node_slots(i)[k2].1 is Some ==> b.node_slots(i)[k2].1 == a.node_slots(i)[k2].1) by {
                    if k2 != k {
                        assert(e[s].children@[k2] == a.nodes@[s].children@[k2]);
                    }
                }
            }
        }
    } else {
        assert(e == a.nodes@);
        if a.nodes@[s].children@.len() == 0 {
            assert(!exists|k: int| 0 <= k < a.node_slots(s).len() && (#[trigger] a.node_slots(s)[k]).1 is None);
        }
    }
    assert forall|i: int| 0 <= i < b.arena_len() implies #[trigger] b.node_visits(i) == (if i < n { a.node_visits(i) as int } else { 0int })
        + if on_path(path, i) { 1int } else { 0int } by {
        assert(b.nodes@[i].visits == e[i].visits + if on_path(path, i) { 1int } else { 0int });
    }
    assert forall|i: int| 0 <= i < b.arena_len() && !on_path(path, i) implies #[trigger] b.node_reward(i) == if i < n { a.node_reward(i) as int } else { 0int } by {
        assert(b.nodes@[i].reward == e[i].reward);
    }
    assert forall|k: int| 0 <= k < path.len() implies b.node_reward(#[trigger] path[k] as int) == (if path[k] < n { a.node_reward(path[k] as int) as int } else { 0int })
        + alternate(r, k) by {
        assert(b.nodes@[path[k] as int].reward == e[path[k] as int].reward + alternate(r, k));
    }
    assert forall|k: int| 0 <= k < path.len() - 1 implies b.node_parent(#[trigger] path[k] as int) == Some(path[k + 1]) by {
        assert(e[path[k] as int].parent == Some(path[k + 1]));
    }
    assert(iteration_trace(a, b, path, s, r));
    if e.len() == a.nodes@.len() {
        assert forall|i: int| 0 <= i < a.arena_len() implies #[trigger] b.node_parent(i) == a.node_parent(i)
            && b.node_action(i) == a.node_action(i) && b.node_slots(i).len() == a.node_slots(i).len()
            && forall|k: int|
            0 <= k < a.node_slots(i).len() ==> (#[trigger] b.node_slots(i)[k]).0 == a.node_slots(i)[k].0
                && (a.node_slots(i)[k].1 is Some ==> b.node_slots(i)[k].1 == a.node_slots(i)[k].1) by {
            assert(b.nodes@[i].children == e[i].children);
        }
    }
}

/// Slot `k` is the first materialized slot for move `m`.
pub open spec fn first_slot_for(slots: Seq<(Move, Option<usize>)>, m: Move, k: int) -> bool {
    &&& slots[k].0 == m
    &&& slots[k].1 is Some
    &&& forall|j: int| 0 <= j < k ==> !((#[trigger] slots[j]).0 == m && slots[j].1 is Some)
}

/// The slots of a fresh node for position `g`: all empty, one per legal
/// move of `g`, in increasing order of action code.
pub open spec fn fresh_slots(slots: Seq<(Move, Option<usize>)>, g: Game) -> bool {
    &&& forall|k: int| 0 <= k < slots.len() ==> (#[trigger] slots[k]).1 is None && g.legal(slots[k].0)
    &&& forall|k1: int, k2: int|
        0 <= k1 < k2 < slots.len() ==> move_code((#[trigger] slots[k1]).0) < move_code((#[trigger] slots[k2]).0)
    &&& forall|m: Move| #[trigger] g.legal(m) ==> exists|k: int| 0 <= k < slots.len() && (#[trigger] slots[k]).0 == m
}

proof fn lemma_count_strict(a: Seq<Node>, ra: int, b: Seq<Node>, rb: int, n: int, x: int)
    requires
        forall|i: int| 0 <= i < n && #[trigger] reaches(b, i, rb) ==> reaches(a, i, ra),
        0 <= x < n,
        reaches(a, x, ra),
        !reaches(b, x, rb),
    ensures
        count_reaching(b, rb, n) < count_reaching(a, ra, n),
    decreases n,
{
    if n - 1 == x {
        lemma_count_mono(a, ra, b, rb, n - 1);
    } else {
        lemma_count_strict(a, ra, b, rb, n - 1, x);
    }
}

proof fn lemma_count_root(nodes: Seq<Node>, r: int, n: int)
    requires
        0 <= r < n,
    ensures
        count_reaching(nodes, r, n) >= 1,
    decreases n,
{
    if n - 1 > r {
        lemma_count_root(nodes, r, n - 1);
    } else {
        assert(reaches(nodes, r, r));
    }
}

/// `iteration_trace`, with the reward tied to the rollout: the leaf
/// position `leaf_state` is reached from the root state by legal moves, the
/// rollout ended in the finished position `end` reached from it by legal
/// moves, and `r` is twice the reward of `end` for the player who moved into
/// the leaf.
pub open spec fn iteration_outcome(
    a: MCTS,
    b: MCTS,
    path: Seq<usize>,
    s: int,
    r: u64,
    leaf_state: Game,
    end: Game,
) -> bool {
    &&& iteration_trace(a, b, path, s, r)
    &&& reached_by_play(a.spec_root_state(), leaf_state)
    &&& reached_by_play(leaf_state, end)
    &&& end.finished()
    &&& r == half_reward(leaf_state.turn().spec_other(), end.spec_winner())
}

/// What a selection rule sees of node `c`.
pub(crate) open spec fn stats_of(nodes: Seq<Node>, c: int) -> ChildStats {
    ChildStats { visits: nodes[c].visits, reward: nodes[c].reward }
}

/// The slot moves are the legal moves of `g`, in increasing order of code.
pub open spec fn slot_moves(ch: Seq<(Move, Option<usize>)>, g: Game) -> bool {
    &&& forall|k: int| 0 <= k < ch.len() ==> g.legal(#[trigger] ch[k].0)
    &&& forall|k1: int, k2: int|
        0 <= k1 < k2 < ch.len() ==> move_code((#[trigger] ch[k1]).0) < move_code((#[trigger] ch[k2]).0)
    &&& forall|m: Move| #[trigger] g.legal(m) ==> exists|k: int| 0 <= k < ch.len() && (#[trigger] ch[k]).0 == m
}

/// Each node's slots are the legal moves of its position; a node with a
/// parent holds the position after its action, which is legal in the
/// parent's position; the root holds the root state's position.
#[verifier::opaque]
pub(crate) open spec fn states_wf(nodes: Seq<Node>, states: Seq<Game>, root_state: Game, root: int) -> bool {
    &&& states.len() == nodes.len()
    &&& 0 <= root < nodes.len() ==> same_position(states[root], root_state)
    &&& forall|i: int| 0 <= i < nodes.len() ==> #[trigger] states[i].wf() && slot_moves(nodes[i].children@, states[i])
    &&& forall|i: int|
        0 <= i < nodes.len() ==> ((#[trigger] nodes[i]).parent matches Some(p) ==> (nodes[i].action matches Some(m)
            && 0 <= p < nodes.len() && states[p as int].legal(m) && states[i].follows(states[p as int], m)))
}

proof fn lemma_same_position_symm(a: Game, b: Game)
    requires
        same_position(a, b),
    ensures
        same_position(b, a),
{
    assert forall|i: int, j: int, k: int, l: int|
        0 <= i < 3 && 0 <= j < 3 && 0 <= k < 3 && 0 <= l < 3 implies #[trigger] b.cell(i, j, k, l) == a.cell(i, j, k, l) by {
        assert(a.cell(i, j, k, l) == b.cell(i, j, k, l));
    }
}

proof fn lemma_state_at(nodes: Seq<Node>, states: Seq<Game>, rs: Game, root: int, i: int)
    requires
        states_wf(nodes, states, rs, root),
        0 <= i < nodes.len(),
    ensures
        states[i].wf(),
        slot_moves(nodes[i].children@, states[i]),
        nodes[i].parent matches Some(p) ==> (nodes[i].action matches Some(m) && 0 <= p < nodes.len()
            && states[p as int].legal(m) && states[i].follows(states[p as int], m)),
{
    reveal(states_wf);
    assert(states[i].wf());
}

proof fn lemma_states_wf_frame(a: Seq<Node>, b: Seq<Node>, states: Seq<Game>, rs: Game, root: int)
    requires
        states_wf(a, states, rs, root),
        a.len() == b.len(),
        forall|i: int|
            0 <= i < a.len() ==> (#[trigger] b[i]).parent == a[i].parent && b[i].action == a[i].action
                && b[i].children == a[i].children,
    ensures
        states_wf(b, states, rs, root),
{
    reveal(states_wf);
    assert forall|i: int| 0 <= i < b.len() implies #[trigger] states[i].wf() && slot_moves(b[i].children@, states[i]) by {
        assert(b[i].children == a[i].children);
        lemma_state_at(a, states, rs, root, i);
    }
    assert forall|i: int|
        0 <= i < b.len() implies ((#[trigger] b[i]).parent matches Some(p) ==> (b[i].action matches Some(m)
            && 0 <= p < b.len() && states[p as int].legal(m) && states[i].follows(states[p as int], m))) by {
        assert(b[i].parent == a[i].parent);
    }
}

/// The root's slots are the legal moves of the root state.
proof fn lemma_root_slots(t: MCTS)
    requires
        t.wf(),
    ensures
        slot_moves(t.nodes@[t.root as int].children@, t.root_state),
{
    reveal(states_wf);
    let g = t.states@[t.root as int];
    let ch = t.nodes@[t.root as int].children@;
    assert(g.wf() && slot_moves(ch, g));
    lemma_same_position_legal(g, t.root_state);
    assert forall|m: Move| #[trigger] t.root_state.legal(m) implies exists|k: int| 0 <= k < ch.len() && (#[trigger] ch[k]).0 == m by {
        assert(g.legal(m));
    }
    assert forall|k: int| 0 <= k < ch.len() implies t.root_state.legal(#[trigger] ch[k].0) by {
        assert(g.legal(ch[k].0));
    }
}

/// 1 at the node that the backpropagation walk is about to update.
pub(crate) open spec fn slack(node: Option<usize>, i: int) -> int {
    match node {
        Some(x) => if x as int == i { 1 } else { 0 },
        None => 0,
    }
}

proof fn lemma_slot_sum_zero(nodes: Seq<Node>, ch: Seq<(Move, Option<usize>)>, k: int)
    requires
        forall|j: int| 0 <= j < k ==> (#[trigger] ch[j]).1 is None,
    ensures
        slot_sum(nodes, ch, k) == 0,
    decreases k,
{
    if k > 0 {
        lemma_slot_sum_zero(nodes, ch, k - 1);
    }
}

/// The arena links are consistent: parents come before their children,
/// child slots point at nodes whose parent and action match, no child has
/// more visits than its parent, and rewards stay within twice the visits.
pub(crate) open spec fn arena_wf(nodes: Seq<Node>) -> bool {
    &&& forall|i: int|
        0 <= i < nodes.len() ==> ((#[trigger] nodes[i]).parent matches Some(p) ==> p < i
            && nodes[i].visits <= nodes[p as int].visits)
    &&& forall|i: int| 0 <= i < nodes.len() ==> (#[trigger] nodes[i]).reward <= 2 * nodes[i].visits
    &&& forall|i: int, k: int|
        0 <= i < nodes.len() && 0 <= k < nodes[i].children@.len() ==> (
        #[trigger] nodes[i].children@[k]).0.spec_in_range()
    &&& forall|i: int| 0 <= i < nodes.len() ==> #[trigger] children_sum(nodes, i) <= nodes[i].visits
    &&& forall|i: int, k1: int, k2: int|
        0 <= i < nodes.len() && 0 <= k1 < nodes[i].children@.len() && 0 <= k2
            < nodes[i].children@.len() && (#[trigger] nodes[i].children@[k1]).1 is Some
            && (#[trigger] nodes[i].children@[k2]).1 == nodes[i].children@[k1].1 ==> k1 == k2
    &&& forall|i: int, k: int|
        0 <= i < nodes.len() && 0 <= k < nodes[i].children@.len() ==> ((#[trigger] nodes[i].children@[k]).1
            matches Some(c) ==> i < c < nodes.len() && nodes[c as int].parent == Some(i as usize)
            && nodes[c as int].action == Some(nodes[i].children@[k].0))
}

/// Monte Carlo tree search over an append-only arena of nodes.
pub struct MCTS {
    pub(crate) nodes: Vec<Node>,
    pub(crate) root: usize,
    pub(crate) root_state: Game,
    pub(crate) iterations: u32,
    pub(crate) rng: StdRng,
    /// The position of each node: the root state with the actions on its
    /// path played.
    pub(crate) states: Ghost<Seq<Game>>,
}

impl MCTS {
    /// The tree is well formed and the root has no parent.
    pub closed spec fn wf(&self) -> bool {
        &&& arena_wf(self.nodes@)
        &&& self.root < self.nodes@.len()
        &&& self.nodes@[self.root as int].parent is None
        &&& self.root_state.wf()
        &&& states_wf(self.nodes@, self.states@, self.root_state, self.root as int)
    }

    /// The game state at the root.
    pub closed spec fn spec_root_state(&self) -> Game {
        self.root_state
    }

    /// The visit count of the root.
    pub closed spec fn root_visits(&self) -> nat {
        self.nodes@[self.root as int].visits as nat
    }

    /// The number of nodes in the arena.
    pub closed spec fn arena_len(&self) -> nat {
        self.nodes@.len()
    }

    /// The number of nodes in the subtree of the root.
    pub closed spec fn spec_tree_size(&self) -> nat {
        count_reaching(self.nodes@, self.root as int, self.nodes@.len() as int)
    }

    /// The number of iterations that `run` performs.
    pub closed spec fn budget(&self) -> nat {
        self.iterations as nat
    }

    /// A search from the position of `env`, with `iterations` iterations
    /// per `run` and a random generator seeded with `seed`.
    pub fn new(env: UTTTEnvImpl, iterations: u32, seed: u64) -> (r: MCTS)
        requires
            env.game.wf(),
        ensures
            r.wf(),
            r.spec_root_state() == env.game,
            r.root_visits() == 0,
            r.spec_tree_size() == 1,
            r.budget() == iterations,
            forall|k: int| 0 <= k < r.root_children().len() ==> (#[trigger] r.root_children()[k]).1 is None
                && env.game.legal(r.root_children()[k].0),
            forall|m: Move| #[trigger] env.game.legal(m) ==> exists|k: int|
                0 <= k < r.root_children().len() && (#[trigger] r.root_children()[k]).0 == m,
            r.root_index() == 0,
            r.arena_len() == 1,
            r.node_parent(0) is None,
            r.node_action(0) is None,
            r.node_reward(0) == 0,
            fresh_slots(r.node_slots(0), env.game),
    {
        let root = Node::new(&env.game, None, None);
        let mut nodes: Vec<Node> = Vec::new();
        nodes.push(root);
        let ghost first = seq![env.game];
        let states: Ghost<Seq<Game>> = Ghost(first);
        let r = MCTS {
            nodes,
            root: 0,
            root_state: env.game,
            iterations,
            rng: seeded_rng(seed),
            states,
        };
        proof {
            reveal(states_wf);
            assert(slot_moves(r.nodes@[0].children@, env.game));
            assert(states_wf(r.nodes@, r.states@, r.root_state, 0));
        }
        assert(reaches(r.nodes@, 0, 0));
        assert(count_reaching(r.nodes@, 0, 0) == 0);
        proof {
            let ch = r.nodes@[0].children@;
            lemma_slot_sum_zero(r.nodes@, ch, ch.len() as int);
            assert(fresh_slots(ch, env.game));
            let rc = r.root_children();
            assert forall|m: Move| #[trigger] env.game.legal(m) implies exists|k: int|
                0 <= k < rc.len() && (#[trigger] rc[k]).0 == m by {
                let k = choose|k: int| 0 <= k < ch.len() && (#[trigger] ch[k]).0 == m;
                assert(rc[k].0 == m);
            }
        }
        r
    }
}


proof fn lemma_reach_visits(nodes: Seq<Node>, i: int, r: int, s: int)
    requires
        reaches(nodes, i, r),
        i <= s,
        forall|x: int|
            0 <= x < nodes.len() ==> ((#[trigger] nodes[x]).parent matches Some(p) ==> p < s
                ==> nodes[x].visits <= nodes[p as int].visits),
    ensures
        0 <= i < nodes.len() ==> nodes[i].visits <= nodes[r].visits,
    decreases i,
{
    if i != r && 0 <= i < nodes.len() {
        let p = nodes[i].parent.unwrap() as int;
        lemma_reach_visits(nodes, p, r, s);
    }
}

proof fn lemma_reaches_same_parents(a: Seq<Node>, b: Seq<Node>, i: int, r: int)
    requires
        a.len() == b.len(),
        forall|x: int| 0 <= x < a.len() ==> (#[trigger] a[x]).parent == b[x].parent,
    ensures
        reaches(a, i, r) == reaches(b, i, r),
    decreases i,
{
    if i != r && 0 <= i < a.len() {
        if let Some(p) = a[i].parent {
            if 0 <= p < i {
                lemma_reaches_same_parents(a, b, p as int, r);
            }
        }
    }
}

proof fn lemma_reaches_above(nodes: Seq<Node>, i: int, r: int)
    requires
        reaches(nodes, i, r),
    ensures
        r <= i,
    decreases i,
{
    if i != r {
        let p = nodes[i].parent.unwrap() as int;
        lemma_reaches_above(nodes, p, r);
    }
}

impl MCTS {
    /// Adds one visit and the reward to `leaf` and each node above it up to
    /// the root, the reward seen alternately from each side.
    #[verifier::rlimit(100)]
    #[verifier::spinoff_prover]
    fn backpropagate(&mut self, leaf: usize, reward: u64) -> (path: Ghost<Seq<usize>>)
        requires
            old(self).wf(),
            leaf < old(self).nodes@.len(),
            reaches(old(self).nodes@, leaf as int, old(self).root as int),
            reward <= 2,
            old(self).root_visits() < u32::MAX,
        ensures
            final(self).wf(),
            final(self).root == old(self).root,
            final(self).root_state == old(self).root_state,
            final(self).iterations == old(self).iterations,
            final(self).nodes@.len() == old(self).nodes@.len(),
            final(self).states == old(self).states,
            final(self).root_visits() == old(self).root_visits() + 1,
            forall|i: int|
                0 <= i < final(self).nodes@.len() ==> (#[trigger] final(self).nodes@[i]).parent
                    == old(self).nodes@[i].parent && final(self).nodes@[i].children
                    == old(self).nodes@[i].children && final(self).nodes@[i].action
                    == old(self).nodes@[i].action,
            chain(old(self).nodes@, path@, leaf as int, old(self).root as int),
            forall|i: int|
                0 <= i < final(self).nodes@.len() ==> (#[trigger] final(self).nodes@[i]).visits
                    == old(self).nodes@[i].visits + if on_path(path@, i) { 1int } else { 0int },
            forall|i: int|
                0 <= i < final(self).nodes@.len() && !on_path(path@, i) ==> (#[trigger] final(self).nodes@[i]).reward
                    == old(self).nodes@[i].reward,
            forall|k: int|
                0 <= k < path@.len() ==> final(self).nodes@[#[trigger] path@[k] as int].reward
                    == old(self).nodes@[path@[k] as int].reward + alternate(reward, k),
    {
        let ghost old_nodes = self.nodes@;
        let ghost root_visits = self.root_visits();
        let ghost r0 = reward;
        let ghost mut p: Seq<usize> = Seq::empty();
        let mut node: Option<usize> = Some(leaf);
        let mut reward = reward;
        while node.is_some()
            invariant
                self.root < self.nodes@.len(),
                self.root_state.wf(),
                self.nodes@.len() == old_nodes.len(),
                self.nodes@[self.root as int].parent is None,
                reward <= 2,
                root_visits < u32::MAX,
                forall|i: int|
                    0 <= i < self.nodes@.len() ==> (#[trigger] self.nodes@[i]).parent
                        == old_nodes[i].parent && self.nodes@[i].children == old_nodes[i].children
                        && self.nodes@[i].action == old_nodes[i].action,
                forall|i: int|
                    0 <= i < self.nodes@.len() ==> ((#[trigger] self.nodes@[i]).parent matches Some(p)
                        ==> p < i && self.nodes@[i].visits <= self.nodes@[p as int].visits + if node
                        == Some(p) {
                        1int
                    } else {
                        0int
                    }),
                forall|i: int|
                    0 <= i < self.nodes@.len() ==> (#[trigger] self.nodes@[i]).reward <= 2
                        * self.nodes@[i].visits,
                forall|i: int, k: int|
                    0 <= i < self.nodes@.len() && 0 <= k < self.nodes@[i].children@.len() ==> ((
                    #[trigger] self.nodes@[i].children@[k]).1 matches Some(c) ==> i < c
                        < self.nodes@.len() && self.nodes@[c as int].parent == Some(i as usize)
                        && self.nodes@[c as int].action == Some(self.nodes@[i].children@[k].0)),
                self.root == old(self).root,
                self.states == old(self).states,
                self.root_state == old(self).root_state,
                self.iterations == old(self).iterations,
                node matches Some(n) ==> n < self.nodes@.len() && reaches(
                    old_nodes,
                    n as int,
                    self.root as int,
                ) && self.nodes@[self.root as int].visits == root_visits,
                node is None ==> self.nodes@[self.root as int].visits == root_visits + 1,
                r0 <= 2,
                reward == alternate(r0, p.len() as int),
                forall|k: int| 0 <= k < p.len() ==> #[trigger] p[k] < old_nodes.len(),
                p.len() > 0 ==> p[0] == leaf,
                forall|k: int|
                    0 <= k < p.len() - 1 ==> old_nodes[#[trigger] p[k] as int].parent == Some(p[k + 1]),
                node matches Some(n) ==> (p.len() == 0 ==> n == leaf) && (p.len() > 0
                    ==> old_nodes[p.last() as int].parent == Some(n)) && forall|k: int|
                    0 <= k < p.len() ==> n < #[trigger] p[k],
                node is None ==> p.len() > 0 && p.last() == self.root && old_nodes[self.root as int].parent is None,
                forall|i: int|
                    0 <= i < self.nodes@.len() ==> (#[trigger] self.nodes@[i]).visits
                        == old_nodes[i].visits + if on_path(p, i) { 1int } else { 0int },
                forall|i: int|
                    0 <= i < self.nodes@.len() && !on_path(p, i) ==> (#[trigger] self.nodes@[i]).reward
                        == old_nodes[i].reward,
                forall|k: int|
                    0 <= k < p.len() ==> self.nodes@[#[trigger] p[k] as int].reward
                        == old_nodes[p[k] as int].reward + alternate(r0, k),
                forall|i: int, k1: int, k2: int|
                    0 <= i < self.nodes@.len() && 0 <= k1 < self.nodes@[i].children@.len() && 0 <= k2
                        < self.nodes@[i].children@.len() && (#[trigger] self.nodes@[i].children@[k1]).1 is Some
                        && (#[trigger] self.nodes@[i].children@[k2]).1 == self.nodes@[i].children@[k1].1 ==> k1 == k2,
                forall|i: int|
                    0 <= i < self.nodes@.len() ==> #[trigger] children_sum(self.nodes@, i) <= self.nodes@[i].visits
                        + slack(node, i),
            decreases
                match node {
                    Some(n) => n + 1,
                    None => 0,
                },
        {
            let n = node.unwrap();
            proof {
                lemma_reaches_same_parents(old_nodes, self.nodes@, n as int, self.root as int);
                lemma_reach_visits(self.nodes@, n as int, self.root as int, n as int);
            }
            let ghost before = self.nodes@;
            assert forall|i: int| 0 <= i < before.len() implies #[trigger] children_sum(before, i) <= before[i].visits
                + if i == n { 1int } else { 0int } by {
                assert(children_sum(self.nodes@, i) <= self.nodes@[i].visits + slack(node, i));
            }
            proof {
                assert(!on_path(p, n as int)) by {
                    if on_path(p, n as int) {
                        let k = choose|k: int| 0 <= k < p.len() && p[k] as int == n as int;
                        assert(n < p[k]);
                    }
                }
            }
            self.nodes[n].visits = self.nodes[n].visits + 1;
            self.nodes[n].reward = self.nodes[n].reward + reward;
            node = self.nodes[n].parent;
            proof {
                let p_old = p;
                p = p.push(n);
                assert forall|i: int| #[trigger] on_path(p, i) == (on_path(p_old, i) || i == n) by {
                    if on_path(p_old, i) {
                        let k = choose|k: int| 0 <= k < p_old.len() && p_old[k] as int == i;
                        assert(p[k] as int == i);
                    }
                    if i == n {
                        assert(p[p_old.len() as int] as int == i);
                    }
                    if on_path(p, i) {
                        let k = choose|k: int| 0 <= k < p.len() && p[k] as int == i;
                        if k < p_old.len() {
                            assert(p_old[k] == p[k]);
                        }
                    }
                }
                assert forall|k: int| 0 <= k < p_old.len() implies #[trigger] p[k] == p_old[k] by {}
            }
            proof {
                let after = self.nodes@;
                assert forall|i: int| 0 <= i < after.len() implies #[trigger] children_sum(after, i) <= after[i].visits
                    + slack(node, i) by {
                    let ch = before[i].children@;
                    assert(after[i].children@ == ch);
                    assert(children_sum(before, i) <= before[i].visits + if i == n { 1int } else { 0int });
                    assert(after[i].visits == before[i].visits + if i == n { 1int } else { 0int });
                    assert(node == before[n as int].parent);
                    if before[n as int].parent matches Some(p) && p as int == i {
                        assert(i < n);
                        assert forall|j: int| 0 <= j < ch.len() && (#[trigger] ch[j]).1 != Some(n) implies slot_value(after, ch[j].1) <= slot_value(before, ch[j].1) by {
                            if let Some(c) = ch[j].1 {
                                assert(c != n);
                            }
                        }
                        assert forall|j: int| 0 <= j < ch.len() && (#[trigger] ch[j]).1 == Some(n) implies slot_value(after, ch[j].1) <= slot_value(before, ch[j].1) + 1 by {}
                        assert forall|j1: int, j2: int|
                            0 <= j1 < ch.len() && 0 <= j2 < ch.len() && (#[trigger] ch[j1]).1 == Some(n) && (#[trigger] ch[j2]).1 == Some(n) implies j1 == j2 by {
                            assert(before[i].children@[j1] == ch[j1]);
                            assert(before[i].children@[j2] == ch[j2]);
                        }
                        lemma_slot_sum_bump(before, after, ch, ch.len() as int, n as int);
                    } else {
                        assert forall|j: int| 0 <= j < ch.len() implies slot_value(after, #[trigger] ch[j].1) <= slot_value(before, ch[j].1) by {
                            assert(before[i].children@[j] == ch[j]);
                            if let Some(c) = ch[j].1 {
                                assert(before[c as int].parent == Some(i as usize));
                                assert(c != n);
                            }
                        }
                        lemma_slot_sum_le(before, ch, after, ch, ch.len() as int);
                    }
                }
            }
            reward = 2 - reward;
            proof {
                if n != self.root {
                    let p = self.nodes@[n as int].parent.unwrap();
                    assert(reaches(old_nodes, p as int, self.root as int));
                }
            }
        }
        proof {
            lemma_states_wf_frame(old_nodes, self.nodes@, self.states@, self.root_state, self.root as int);
        }
        Ghost(p)
    }
}


impl MCTS {
    /// The materialized child of `leaf` that the selection rule ranks
    /// highest: a later child replaces the best so far when
    /// `prefer(best, later, visits of leaf)` holds.
    fn uct_child<F: Fn(ChildStats, ChildStats, u32) -> bool>(&self, leaf: usize, prefer: &F) -> (r:
        Option<usize>)
        requires
            self.wf(),
            leaf < self.nodes@.len(),
            forall|a: ChildStats, b: ChildStats, v: u32| prefer.requires((a, b, v)),
        ensures
            r matches Some(c) ==> exists|k: int|
                0 <= k < self.nodes@[leaf as int].children@.len() && (#[trigger] self.nodes@[leaf as int].children@[k]).1
                    == Some(c) && forall|j: int|
                    k < j < self.nodes@[leaf as int].children@.len() ==> ((#[trigger] self.nodes@[leaf as int].children@[j]).1 matches Some(c2)
                        ==> prefer.ensures((stats_of(self.nodes@, c as int), stats_of(self.nodes@, c2 as int), self.nodes@[leaf as int].visits), false)),
            (exists|k: int|
                0 <= k < self.nodes@[leaf as int].children@.len() && (#[trigger] self.nodes@[leaf as int].children@[k]).1
                    is Some) ==> r is Some,
    {
        let node = &self.nodes[leaf];
        let mut best: Option<usize> = None;
        let ghost mut kb: int = 0;
        let mut k: usize = 0;
        while k < node.children.len()
            invariant
                self.wf(),
                leaf < self.nodes@.len(),
                *node == self.nodes@[leaf as int],
                0 <= k <= node.children@.len(),
                forall|a: ChildStats, b: ChildStats, v: u32| prefer.requires((a, b, v)),
                best matches Some(c) ==> 0 <= kb < k && node.children@[kb].1 == Some(c) && forall|j: int|
                    kb < j < k ==> ((#[trigger] node.children@[j]).1 matches Some(c2)
                        ==> prefer.ensures((stats_of(self.nodes@, c as int), stats_of(self.nodes@, c2 as int), node.visits), false)),
                (exists|j: int| 0 <= j < k && (#[trigger] node.children@[j]).1 is Some) ==> best is Some,
            decreases node.children@.len() - k,
        {
            assert(node.children@[k as int] == self.nodes@[leaf as int].children@[k as int]);
            if let Some(c) = node.children[k].1 {
                match best {
                    None => {
                        best = Some(c);
                        proof {
                            kb = k as int;
                        }
                    },
                    Some(b) => {
                        let best_stats = ChildStats { visits: self.nodes[b].visits, reward: self.nodes[b].reward };
                        let stats = ChildStats { visits: self.nodes[c].visits, reward: self.nodes[c].reward };
                        assert(best_stats == stats_of(self.nodes@, b as int));
                        assert(stats == stats_of(self.nodes@, c as int));
                        if prefer(best_stats, stats, node.visits) {
                            best = Some(c);
                            proof {
                                kb = k as int;
                            }
                        }
                    },
                }
            }
            k += 1;
        }
        best
    }

    /// Materializes a random child slot of `leaf` that has no node yet,
    /// plays its move on `state`, and returns the new node; returns `leaf`
    /// when every slot is taken. `leaf` is never terminal here.
    fn expand(&mut self, leaf: usize, state: &mut Game) -> (r: usize)
        requires
            old(self).wf(),
            leaf < old(self).nodes@.len(),
            old(self).nodes@[leaf as int].children@.len() > 0,
            reaches(old(self).nodes@, leaf as int, old(self).root as int),
            old(state).wf(),
            same_position(*old(state), old(self).states@[leaf as int]),
        ensures
            final(self).wf(),
            final(state).wf(),
            same_position(*final(state), final(self).states@[r as int]),
            forall|i: int| 0 <= i < old(self).nodes@.len() ==> #[trigger] final(self).states@[i] == old(self).states@[i],
            final(self).root == old(self).root,
            final(self).root_state == old(self).root_state,
            final(self).iterations == old(self).iterations,
            final(self).root_visits() == old(self).root_visits(),
            old(self).nodes@.len() <= final(self).nodes@.len() <= old(self).nodes@.len() + 1,
            r < final(self).nodes@.len(),
            reaches(final(self).nodes@, r as int, final(self).root as int),
            (final(self).nodes@.len() == old(self).nodes@.len() + 1) <==> exists|k: int|
                0 <= k < old(self).nodes@[leaf as int].children@.len()
                    && (#[trigger] old(self).nodes@[leaf as int].children@[k]).1 is None,
            final(self).nodes@.len() == old(self).nodes@.len() ==> r == leaf && final(self).nodes@
                == old(self).nodes@,
            final(self).nodes@.len() == old(self).nodes@.len() + 1 ==> grown(old(self).nodes@, final(self).nodes@, leaf as int),
            final(self).nodes@.len() == old(self).nodes@.len() + 1 ==> r == old(self).nodes@.len(),
            *final(state) == *old(state) || legal_step(*old(state), *final(state)),
    {
        let ghost old_nodes = self.nodes@;
        let mut free: Vec<usize> = Vec::new();
        let mut k: usize = 0;
        while k < self.nodes[leaf].children.len()
            invariant
                self.nodes@ == old_nodes,
                leaf < old_nodes.len(),
                0 <= k <= old_nodes[leaf as int].children@.len(),
                forall|j: int|
                    0 <= j < free@.len() ==> #[trigger] free@[j] < old_nodes[leaf as int].children@.len()
                        && old_nodes[leaf as int].children@[free@[j] as int].1 is None,
                forall|j: int|
                    0 <= j < k && (#[trigger] old_nodes[leaf as int].children@[j]).1 is None ==> free@.len() > 0,
            decreases old_nodes[leaf as int].children@.len() - k,
        {
            if self.nodes[leaf].children[k].1.is_none() {
                free.push(k);
            }
            k += 1;
        }
        if free.len() == 0 {
            return leaf;
        }
        assert(old_nodes[leaf as int].children@[free@[0] as int].1 is None);
        let j = random_below(&mut self.rng, free.len());
        let slot = free[j];
        let new_id = self.nodes.len();
        let m = self.nodes[leaf].children[slot].0;
        let ghost states = self.states@;
        proof {
            reveal(states_wf);
            assert(states[leaf as int].wf() && slot_moves(old_nodes[leaf as int].children@, states[leaf as int]));
            assert(states[leaf as int].legal(old_nodes[leaf as int].children@[slot as int].0));
            lemma_same_position_legal(*state, states[leaf as int]);
        }
        self.nodes[leaf].children[slot].1 = Some(new_id);
        let ghost prev = *state;
        state.make_move(m);
        proof {
            reveal(legal_step);
            assert(legal_step(prev, *state));
            lemma_follows_transfer(*state, prev, states[leaf as int], m);
        }
        let node = Node::new(state, Some(leaf), Some(m));
        self.nodes.push(node);
        let ghost new_states = states.push(*state);
        self.states = Ghost(new_states);
        proof {
            reveal(states_wf);
            let nodes = self.nodes@;
            let st = self.states@;
            assert(slot_moves(nodes[new_id as int].children@, *state));
            assert forall|i: int| 0 <= i < nodes.len() implies #[trigger] st[i].wf() && slot_moves(nodes[i].children@, st[i]) by {
                if i < old_nodes.len() {
                    assert(st[i] == states[i]);
                    lemma_state_at(old_nodes, states, self.root_state, self.root as int, i);
                    if i == leaf {
                        let cha = old_nodes[i].children@;
                        let chb = nodes[i].children@;
                        assert forall|k: int| 0 <= k < chb.len() implies #[trigger] chb[k].0 == cha[k].0 by {
                            if k != slot {
                                assert(chb[k] == cha[k]);
                            }
                        }
                        assert forall|m2: Move| #[trigger] st[i].legal(m2) implies exists|k: int| 0 <= k < chb.len() && (#[trigger] chb[k]).0 == m2 by {
                            let k = choose|k: int| 0 <= k < cha.len() && (#[trigger] cha[k]).0 == m2;
                            assert(chb[k].0 == m2);
                        }
                        assert forall|k1: int, k2: int| 0 <= k1 < k2 < chb.len() implies move_code((#[trigger] chb[k1]).0) < move_code((#[trigger] chb[k2]).0) by {
                            assert(chb[k1].0 == cha[k1].0 && chb[k2].0 == cha[k2].0);
                        }
                        assert forall|k: int| 0 <= k < chb.len() implies st[i].legal(#[trigger] chb[k].0) by {
                            assert(chb[k].0 == cha[k].0);
                        }
                    } else {
                        assert(nodes[i] == old_nodes[i]);
                    }
                }
            }
            assert forall|i: int|
                0 <= i < nodes.len() implies ((#[trigger] nodes[i]).parent matches Some(p) ==> (nodes[i].action matches Some(m3)
                    && 0 <= p < nodes.len() && st[p as int].legal(m3) && st[i].follows(st[p as int], m3))) by {
                if i < old_nodes.len() {
                    assert(nodes[i].parent == old_nodes[i].parent && nodes[i].action == old_nodes[i].action);
                    if let Some(p) = nodes[i].parent {
                        assert(st[p as int] == states[p as int]);
                        assert(st[i] == states[i]);
                    }
                } else {
                    assert(st[leaf as int] == states[leaf as int]);
                }
            }
            assert(st[self.root as int] == states[self.root as int]);
            assert(states_wf(nodes, st, self.root_state, self.root as int));
        }
        proof {
            let nodes = self.nodes@;
            assert forall|i: int| 0 <= i < old_nodes.len() implies (#[trigger] nodes[i]).parent == old_nodes[i].parent by {}
            assert(nodes[new_id as int].parent == Some(leaf));
            lemma_reaches_prefix(old_nodes, nodes, leaf as int, self.root as int);
            assert(reaches(nodes, new_id as int, self.root as int));
            assert forall|i: int| 0 <= i < nodes.len() implies #[trigger] children_sum(nodes, i) <= nodes[i].visits by {
                if i == new_id {
                    lemma_slot_sum_zero(nodes, nodes[i].children@, nodes[i].children@.len() as int);
                } else {
                    assert(children_sum(old_nodes, i) <= old_nodes[i].visits);
                    let cha = old_nodes[i].children@;
                    let chb = nodes[i].children@;
                    assert forall|j: int| 0 <= j < chb.len() implies slot_value(nodes, #[trigger] chb[j].1) <= slot_value(old_nodes, cha[j].1) by {
                        if i == leaf && j == slot {
                        } else {
                            assert(chb[j] == cha[j]);
                        }
                    }
                    lemma_slot_sum_le(old_nodes, cha, nodes, chb, chb.len() as int);
                }
            }
            assert forall|i: int, k: int|
                0 <= i < nodes.len() && 0 <= k < nodes[i].children@.len() implies ((
                #[trigger] nodes[i].children@[k]).1 matches Some(c) ==> i < c < nodes.len()
                    && nodes[c as int].parent == Some(i as usize) && nodes[c as int].action == Some(
                    nodes[i].children@[k].0,
                )) by {
                if i == leaf && k == slot {
                } else if i < old_nodes.len() {
                    assert(nodes[i].children@[k] == old_nodes[i].children@[k]);
                }
            }
        }
        proof {
            let nodes = self.nodes@;
            assert(nodes[leaf as int].children@[slot as int] == (m, Some(new_id)));
            assert forall|j: int| 0 <= j < nodes[leaf as int].children@.len() && j != slot implies #[trigger] nodes[leaf as int].children@[j]
                == old_nodes[leaf as int].children@[j] by {}
            assert forall|i: int| 0 <= i < old_nodes.len() implies (#[trigger] nodes[i]).parent == old_nodes[i].parent
                && nodes[i].action == old_nodes[i].action && nodes[i].visits == old_nodes[i].visits
                && nodes[i].reward == old_nodes[i].reward && (i != leaf ==> nodes[i].children == old_nodes[i].children)
                && nodes[i].children@.len() == old_nodes[i].children@.len() by {}
            assert(grown(old_nodes, nodes, leaf as int));
        }
        new_id
    }
}

proof fn lemma_reaches_prefix(a: Seq<Node>, b: Seq<Node>, i: int, r: int)
    requires
        a.len() <= b.len(),
        forall|x: int| 0 <= x < a.len() ==> (#[trigger] b[x]).parent == a[x].parent,
        reaches(a, i, r),
    ensures
        reaches(b, i, r),
    decreases i,
{
    if i != r {
        let p = a[i].parent.unwrap() as int;
        lemma_reaches_prefix(a, b, p, r);
    }
}


/// The visit count of the node a child slot points at, if any.
pub(crate) open spec fn slot_visits(nodes: Seq<Node>, slot: Option<usize>) -> Option<nat> {
    match slot {
        Some(c) => Some(nodes[c as int].visits as nat),
        None => None,
    }
}

impl MCTS {
    /// The child slots of the root: each legal move with the visit count
    /// of its node, if it has one.
    pub closed spec fn root_children(&self) -> Seq<(Move, Option<nat>)> {
        self.nodes@[self.root as int].children@.map_values(
            |s: (Move, Option<usize>)| (s.0, slot_visits(self.nodes@, s.1)),
        )
    }

    /// Descends from the root while the node is fully expanded and not
    /// terminal, to the child that `prefer` ranks highest, playing each
    /// child's move on `state`. Stays at the root while it has an empty slot.
    fn descend<F: Fn(ChildStats, ChildStats, u32) -> bool>(&self, prefer: &F, state: &mut Game) -> (leaf: usize)
        requires
            self.wf(),
            old(state).wf(),
            *old(state) == self.root_state,
            forall|a: ChildStats, b: ChildStats, v: u32| prefer.requires((a, b, v)),
        ensures
            final(state).wf(),
            leaf < self.nodes@.len(),
            reaches(self.nodes@, leaf as int, self.root as int),
            (exists|k: int|
                0 <= k < self.nodes@[self.root as int].children@.len() && (#[trigger] self.nodes@[self.root as int].children@[k]).1 is None)
                ==> leaf == self.root,
            reached_by_play(*old(state), *final(state)),
            same_position(*final(state), self.states@[leaf as int]),
            self.nodes@[leaf as int].children@.len() == 0 || exists|k: int|
                0 <= k < self.nodes@[leaf as int].children@.len() && (#[trigger] self.nodes@[leaf as int].children@[k]).1 is None,
    {
        let ghost start = *state;
        proof {
            lemma_play_refl(start);
        }
        let mut leaf = self.root;
        assert(reaches(self.nodes@, leaf as int, self.root as int));
        proof {
            reveal(states_wf);
            lemma_same_position_symm(self.states@[self.root as int], self.root_state);
        }
        while self.nodes[leaf].fully_expanded() && !self.nodes[leaf].is_terminal()
            invariant
                self.wf(),
                leaf < self.nodes@.len(),
                reaches(self.nodes@, leaf as int, self.root as int),
                state.wf(),
                reached_by_play(start, *state),
                same_position(*state, self.states@[leaf as int]),
                forall|a: ChildStats, b: ChildStats, v: u32| prefer.requires((a, b, v)),
                (exists|k: int|
                    0 <= k < self.nodes@[self.root as int].children@.len() && (#[trigger] self.nodes@[self.root as int].children@[k]).1 is None)
                    ==> leaf == self.root,
            decreases self.nodes@.len() - leaf,
        {
            assert(self.nodes@[leaf as int].children@[0].1 is Some);
            let c = self.uct_child(leaf, prefer).unwrap();
            let ghost k = choose|k: int|
                0 <= k < self.nodes@[leaf as int].children@.len() && (#[trigger] self.nodes@[leaf as int].children@[k]).1 == Some(c);
            assert(self.nodes@[c as int].parent == Some(leaf) && self.nodes@[c as int].action == Some(self.nodes@[leaf as int].children@[k].0));
            let m = self.nodes[c].action.unwrap();
            let ghost states = self.states@;
            proof {
                reveal(states_wf);
                assert(states[leaf as int].legal(m) && states[c as int].follows(states[leaf as int], m));
                lemma_same_position_legal(*state, states[leaf as int]);
            }
            let ghost prev = *state;
            state.make_move(m);
            proof {
                reveal(legal_step);
                assert(legal_step(prev, *state));
                lemma_play_step(start, prev, *state);
                lemma_follows_same(prev, states[leaf as int], *state, states[c as int], m);
            }
            leaf = c;
        }
        leaf
    }

    #[verifier::rlimit(100)]
    #[verifier::spinoff_prover]
    /// One iteration: selection by `prefer`, expansion, a random rollout,
    /// and backpropagation to the root.
    pub fn iterate<F: Fn(ChildStats, ChildStats, u32) -> bool>(&mut self, prefer: &F)
        requires
            old(self).wf(),
            old(self).root_visits() < u32::MAX,
            forall|a: ChildStats, b: ChildStats, v: u32| prefer.requires((a, b, v)),
        ensures
            final(self).wf(),
            final(self).spec_root_state() == old(self).spec_root_state(),
            final(self).budget() == old(self).budget(),
            final(self).root_visits() == old(self).root_visits() + 1,
            old(self).arena_len() <= final(self).arena_len() <= old(self).arena_len() + 1,
            final(self).root_index() == old(self).root_index(),
            forall|i: int|
                0 <= i < old(self).arena_len() ==> #[trigger] final(self).node_parent(i) == old(self).node_parent(i)
                    && final(self).node_action(i) == old(self).node_action(i)
                    && final(self).node_slots(i).len() == old(self).node_slots(i).len()
                    && forall|k: int|
                    0 <= k < old(self).node_slots(i).len() ==> (#[trigger] final(self).node_slots(i)[k]).0
                        == old(self).node_slots(i)[k].0 && (old(self).node_slots(i)[k].1 is Some
                        ==> final(self).node_slots(i)[k].1 == old(self).node_slots(i)[k].1),
            exists|path: Seq<usize>, s: int, r: u64, leaf_state: Game, end: Game|
                #[trigger] iteration_outcome(*old(self), *final(self), path, s, r, leaf_state, end),
    {
        let ghost a = *self;
        let mut state = self.root_state;
        // selection
        let mut leaf = self.descend(prefer, &mut state);
        let ghost mid = state;
        // expansion
        let ghost s = leaf;
        if !self.nodes[leaf].is_terminal() {
            leaf = self.expand(leaf, &mut state);
        } else {
            assert(!exists|k: int| 0 <= k < a.nodes@[s as int].children@.len() && (#[trigger] a.nodes@[s as int].children@[k]).1 is None);
        }
        let ghost e = self.nodes@;
        let ghost leaf_state = state;
        proof {
            if leaf_state != mid {
                lemma_play_step(a.root_state, mid, leaf_state);
            }
            assert(reached_by_play(a.root_state, leaf_state));
        }
        // simulation
        let leaf_player = state.current_player().other();
        let winner = rollout(state, &mut self.rng);
        let reward = reward_for(leaf_player, winner);
        // backpropagation
        let path = self.backpropagate(leaf, reward);
        proof {
            lemma_iteration_trace(a, e, *self, path@, s as int, reward);
            assert(iteration_trace(a, *self, path@, s as int, reward));
            lemma_iteration_outcome(a, *self, path@, s as int, reward, leaf_state, winner);
        }
    }

    /// The action of the most visited materialized child of the root, if
    /// any; among equals, the last one.
    pub fn best_action(&self) -> (r: Option<u8>)
        requires
            self.wf(),
        ensures
            r is None <==> forall|k: int| 0 <= k < self.root_children().len() ==> (#[trigger] self.root_children()[k]).1 is None,
            r matches Some(a) ==> a < 81 && exists|k: int|
                0 <= k < self.root_children().len() && (#[trigger] self.root_children()[k]).0 == code_move(a as int)
                    && (self.root_children()[k].1 matches Some(v) && forall|j: int|
                    0 <= j < self.root_children().len() ==> ((#[trigger] self.root_children()[j]).1 matches Some(w) ==> w <= v)),
    {
        let children = &self.nodes[self.root].children;
        let ghost rc = self.root_children();
        let mut best: Option<(usize, u32)> = None;
        let mut k: usize = 0;
        while k < children.len()
            invariant
                self.wf(),
                *children == self.nodes@[self.root as int].children,
                rc == self.root_children(),
                rc.len() == children@.len(),
                0 <= k <= children@.len(),
                best is None ==> forall|j: int| 0 <= j < k ==> (#[trigger] rc[j]).1 is None,
                best matches Some((bk, bv)) ==> bk < k && rc[bk as int].1 == Some(bv as nat)
                    && forall|j: int| 0 <= j < k ==> ((#[trigger] rc[j]).1 matches Some(w) ==> w <= bv),
            decreases children@.len() - k,
        {
            assert(rc[k as int] == (children@[k as int].0, slot_visits(self.nodes@, children@[k as int].1)));
            if let Some(c) = children[k].1 {
                let v = self.nodes[c].visits;
                match best {
                    None => {
                        best = Some((k, v));
                    },
                    Some((_, bv)) => {
                        if v >= bv {
                            best = Some((k, v));
                        }
                    },
                }
            }
            k += 1;
        }
        match best {
            None => None,
            Some((bk, _)) => {
                let m = children[bk].0;
                let a = move_to_action(m);
                proof {
                    crate::env::lemma_decode_encode(m);
                }
                Some(a)
            },
        }
    }
}


proof fn lemma_reaches_trans(nodes: Seq<Node>, i: int, c: int, r: int)
    requires
        reaches(nodes, i, c),
        reaches(nodes, c, r),
    ensures
        reaches(nodes, i, r),
    decreases i,
{
    if i != c {
        let p = nodes[i].parent.unwrap() as int;
        lemma_reaches_trans(nodes, p, c, r);
    }
}

proof fn lemma_reaches_detached(a: Seq<Node>, b: Seq<Node>, i: int, c: int)
    requires
        a.len() == b.len(),
        forall|x: int| 0 <= x < a.len() && x != c ==> (#[trigger] b[x]).parent == a[x].parent,
        reaches(b, i, c),
    ensures
        reaches(a, i, c),
    decreases i,
{
    if i != c {
        let p = b[i].parent.unwrap() as int;
        lemma_reaches_detached(a, b, p, c);
    }
}

proof fn lemma_count_mono(a: Seq<Node>, ra: int, b: Seq<Node>, rb: int, n: int)
    requires
        forall|i: int| 0 <= i < n && #[trigger] reaches(b, i, rb) ==> reaches(a, i, ra),
    ensures
        count_reaching(b, rb, n) <= count_reaching(a, ra, n),
    decreases n,
{
    if n > 0 {
        lemma_count_mono(a, ra, b, rb, n - 1);
    }
}

proof fn lemma_count_none(b: Seq<Node>, rb: int, n: int)
    requires
        forall|i: int| 0 <= i < n ==> !#[trigger] reaches(b, i, rb),
    ensures
        count_reaching(b, rb, n) == 0,
    decreases n,
{
    if n > 0 {
        lemma_count_none(b, rb, n - 1);
    }
}

impl MCTS {
    /// Runs the iteration budget and returns the action of the most visited
    /// child of the root, if the root has any.
    pub fn run<F: Fn(ChildStats, ChildStats, u32) -> bool>(&mut self, prefer: &F) -> (r: Option<u8>)
        requires
            old(self).wf(),
            old(self).root_visits() + old(self).budget() <= u32::MAX,
            forall|a: ChildStats, b: ChildStats, v: u32| prefer.requires((a, b, v)),
        ensures
            final(self).wf(),
            final(self).spec_root_state() == old(self).spec_root_state(),
            final(self).root_visits() == old(self).root_visits() + old(self).budget(),
            old(self).budget() >= 1 && old(self).root_children().len() > 0 ==> r is Some,
            final(self).root_index() == old(self).root_index(),
            r matches Some(a) ==> final(self).spec_root_state().legal(code_move(a as int)),
            r is None <==> forall|k: int|
                0 <= k < final(self).root_children().len() ==> (#[trigger] final(self).root_children()[k]).1 is None,
            r matches Some(a) ==> a < 81 && exists|k: int|
                0 <= k < final(self).root_children().len() && (#[trigger] final(self).root_children()[k]).0
                    == code_move(a as int) && (final(self).root_children()[k].1 matches Some(v)
                    && forall|j: int|
                    0 <= j < final(self).root_children().len() ==> ((#[trigger] final(self).root_children()[j]).1 matches Some(w)
                        ==> w <= v)),
    {
        let mut n: u32 = 0;
        while n < self.iterations
            invariant
                self.wf(),
                self.spec_root_state() == old(self).spec_root_state(),
                self.budget() == old(self).budget(),
                self.root_visits() == old(self).root_visits() + n,
                n <= self.iterations,
                old(self).root_visits() + old(self).budget() <= u32::MAX,
                forall|a: ChildStats, b: ChildStats, v: u32| prefer.requires((a, b, v)),
                self.root_children().len() == old(self).root_children().len(),
                self.root_index() == old(self).root_index(),
                n >= 1 && self.root_children().len() > 0 ==> exists|k: int|
                    0 <= k < self.root_children().len() && (#[trigger] self.root_children()[k]).1 is Some,
            decreases self.iterations - n,
        {
            let ghost a = *self;
            self.iterate(prefer);
            proof {
                let b = *self;
                let (path, s, r, ls, end) = choose|path: Seq<usize>, s: int, r: u64, ls: Game, end: Game|
                    #[trigger] iteration_outcome(a, b, path, s, r, ls, end);
                reveal(iteration_trace);
                let ra = a.root as int;
                assert(b.root == a.root);
                assert(b.nodes@[ra].children@.len() == a.nodes@[ra].children@.len());
                if a.root_children().len() > 0 {
                    if exists|k: int| 0 <= k < a.root_children().len() && (#[trigger] a.root_children()[k]).1 is Some {
                        let k = choose|k: int| 0 <= k < a.root_children().len() && (#[trigger] a.root_children()[k]).1 is Some;
                        assert(a.nodes@[ra].children@[k].1 is Some);
                        assert(b.node_slots(ra)[k].1 == a.node_slots(ra)[k].1);
                        assert(b.root_children()[k].1 is Some);
                    } else {
                        assert(a.root_children()[0].1 is None);
                        assert(a.node_slots(ra)[0].1 is None);
                        let n0 = a.nodes@.len() as int;
                        assert(b.arena_len() == n0 + 1);
                        let k = choose|k: int|
                            0 <= k < a.node_slots(s).len() && (#[trigger] a.node_slots(s)[k]).1 is None && b.node_slots(s)[k]
                                == (a.node_slots(s)[k].0, Some(n0 as usize)) && b.node_action(n0) == Some(a.node_slots(s)[k].0);
                        assert(b.nodes@[ra].children@[k].1 is Some);
                        assert(b.root_children()[k].1 is Some);
                    }
                }
            }
            n += 1;
        }
        let r = self.best_action();
        proof {
            lemma_root_slots(*self);
            if let Some(a) = r {
                let rc = self.root_children();
                let k = choose|k: int| 0 <= k < rc.len() && (#[trigger] rc[k]).0 == code_move(a as int)
                    && (rc[k].1 matches Some(v) && forall|j: int|
                    0 <= j < rc.len() ==> ((#[trigger] rc[j]).1 matches Some(w) ==> w <= v));
                assert(self.nodes@[self.root as int].children@[k].0 == code_move(a as int));
            }
        }
        r
    }

    /// Moves the root to the position after `action`, which must be legal
    /// at the root. The child's subtree is kept when it was materialized;
    /// otherwise the root becomes a fresh node.
    #[verifier::rlimit(100)]
    #[verifier::spinoff_prover]
    pub fn move_root(&mut self, action: u8)
        requires
            old(self).wf(),
            action < 81,
            old(self).spec_root_state().legal(code_move(action as int)),
        ensures
            final(self).wf(),
            final(self).spec_root_state().follows(old(self).spec_root_state(), code_move(action as int)),
            final(self).budget() == old(self).budget(),
            (exists|k: int|
                0 <= k < old(self).root_children().len() && (#[trigger] old(self).root_children()[k]).0
                    == code_move(action as int) && old(self).root_children()[k].1 is Some)
                ==> final(self).spec_tree_size() < old(self).spec_tree_size(),
            forall|k: int|
                0 <= k < old(self).node_slots(old(self).root_index() as int).len()
                    && first_slot_for(old(self).node_slots(old(self).root_index() as int), code_move(action as int), k)
                    ==> final(self).root_index() == (#[trigger] old(self).node_slots(old(self).root_index() as int)[k]).1.unwrap()
                    && final(self).arena_len() == old(self).arena_len()
                    && final(self).root_visits() == old(self).node_visits(final(self).root_index() as int)
                    && final(self).node_slots(final(self).root_index() as int) == old(self).node_slots(final(self).root_index() as int)
                    && final(self).spec_tree_size() == old(self).subtree_size(final(self).root_index() as int)
                    && forall|i: int|
                    0 <= i < old(self).arena_len() ==> #[trigger] final(self).node_visits(i) == old(self).node_visits(i)
                        && final(self).node_reward(i) == old(self).node_reward(i),
            final(self).node_parent(final(self).root_index() as int) is None,
            final(self).node_action(final(self).root_index() as int) is None,
            slot_moves(final(self).node_slots(final(self).root_index() as int), final(self).spec_root_state()),
            !(exists|k: int|
                0 <= k < old(self).root_children().len() && (#[trigger] old(self).root_children()[k]).0
                    == code_move(action as int) && old(self).root_children()[k].1 is Some)
                ==> final(self).spec_tree_size() == 1 && final(self).root_visits() == 0
                && final(self).root_index() == old(self).arena_len()
                && final(self).arena_len() == old(self).arena_len() + 1
                && final(self).node_reward(final(self).root_index() as int) == 0
                && fresh_slots(final(self).node_slots(final(self).root_index() as int), final(self).spec_root_state()),
    {
        let ghost old_nodes = self.nodes@;
        let ghost old_rs = self.root_state;
        let ghost states = self.states@;
        let ghost rc = self.root_children();
        let m = action_to_move(action);
        let old_root = self.root;
        let mut found: Option<(usize, usize)> = None;
        let mut k: usize = 0;
        while k < self.nodes[old_root].children.len()
            invariant_except_break
                found is None,
            invariant
                self.nodes@ == old_nodes,
                old_root == self.root,
                old_root < old_nodes.len(),
                rc == self.root_children(),
                rc.len() == old_nodes[old_root as int].children@.len(),
                0 <= k <= old_nodes[old_root as int].children@.len(),
                found matches Some((slot, c)) ==> first_slot_for(old_nodes[old_root as int].children@, m, slot as int) && slot < old_nodes[old_root as int].children@.len()
                    && old_nodes[old_root as int].children@[slot as int] == (m, Some(c)),
                found is None ==> forall|j: int|
                    0 <= j < k ==> !((#[trigger] rc[j]).0 == m && rc[j].1 is Some),
            ensures
                self.nodes@ == old_nodes,
                old_root == self.root,
                found matches Some((slot, c)) ==> first_slot_for(old_nodes[old_root as int].children@, m, slot as int) && slot < old_nodes[old_root as int].children@.len()
                    && old_nodes[old_root as int].children@[slot as int] == (m, Some(c)),
                found is None ==> forall|j: int|
                    0 <= j < rc.len() ==> !((#[trigger] rc[j]).0 == m && rc[j].1 is Some),
            decreases old_nodes[old_root as int].children@.len() - k,
        {
            let (cm, child) = self.nodes[old_root].children[k];
            assert(rc[k as int] == (cm, slot_visits(old_nodes, child)));
            assert(rc[k as int].0 == old_nodes[old_root as int].children@[k as int].0);
            if cm.0.0 == m.0.0 && cm.0.1 == m.0.1 && cm.1.0 == m.1.0 && cm.1.1 == m.1.1 && child.is_some() {
                assert forall|j: int| 0 <= j < k implies !((#[trigger] old_nodes[old_root as int].children@[j]).0 == m
                    && old_nodes[old_root as int].children@[j].1 is Some) by {
                    assert(rc[j] == (old_nodes[old_root as int].children@[j].0, slot_visits(old_nodes, old_nodes[old_root as int].children@[j].1)));
                }
                found = Some((k, child.unwrap()));
                break;
            }
            k += 1;
        }
        self.root_state.make_move(m);
        match found {
            Some((slot, c)) => {
                assert(rc[slot as int] == (m, slot_visits(old_nodes, Some(c))));
                self.nodes[old_root].children[slot].1 = None;
                self.nodes[c].parent = None;
                self.nodes[c].action = None;
                self.root = c;
                proof {
                    let nodes = self.nodes@;
                    reveal(states_wf);
                    assert(old_nodes[c as int].parent == Some(old_root) && old_nodes[c as int].action == Some(m));
                    assert(states[c as int].follows(states[old_root as int], m));
                    lemma_same_position_symm(states[old_root as int], old_rs);
                    lemma_follows_transfer(self.root_state, old_rs, states[old_root as int], m);
                    lemma_follows_same(states[old_root as int], states[old_root as int], states[c as int], self.root_state, m);
                    assert forall|i: int| 0 <= i < nodes.len() implies #[trigger] states[i].wf() && slot_moves(nodes[i].children@, states[i]) by {
                        lemma_state_at(old_nodes, states, old_rs, old_root as int, i);
                        if i == old_root {
                            let cha = old_nodes[i].children@;
                            let chb = nodes[i].children@;
                            assert forall|k: int| 0 <= k < chb.len() implies #[trigger] chb[k].0 == cha[k].0 by {
                                if k != slot {
                                    assert(chb[k] == cha[k]);
                                }
                            }
                            assert forall|m2: Move| #[trigger] states[i].legal(m2) implies exists|k: int| 0 <= k < chb.len() && (#[trigger] chb[k]).0 == m2 by {
                                let k = choose|k: int| 0 <= k < cha.len() && (#[trigger] cha[k]).0 == m2;
                                assert(chb[k].0 == m2);
                            }
                            assert forall|k1: int, k2: int| 0 <= k1 < k2 < chb.len() implies move_code((#[trigger] chb[k1]).0) < move_code((#[trigger] chb[k2]).0) by {
                                assert(chb[k1].0 == cha[k1].0 && chb[k2].0 == cha[k2].0);
                            }
                            assert forall|k: int| 0 <= k < chb.len() implies states[i].legal(#[trigger] chb[k].0) by {
                                assert(chb[k].0 == cha[k].0);
                            }
                        } else {
                            assert(nodes[i].children == old_nodes[i].children);
                        }
                    }
                    assert forall|i: int|
                        0 <= i < nodes.len() implies ((#[trigger] nodes[i]).parent matches Some(p) ==> (nodes[i].action matches Some(m3)
                            && 0 <= p < nodes.len() && states[p as int].legal(m3) && states[i].follows(states[p as int], m3))) by {
                        if i != c {
                            assert(nodes[i].parent == old_nodes[i].parent && nodes[i].action == old_nodes[i].action);
                        }
                    }
                    assert(states_wf(nodes, states, self.root_state, c as int));
                    assert forall|x: int| 0 <= x < nodes.len() && x != c implies (#[trigger] nodes[x]).parent
                        == old_nodes[x].parent by {}
                    assert forall|i: int, k: int|
                        0 <= i < nodes.len() && 0 <= k < nodes[i].children@.len() implies ((
                        #[trigger] nodes[i].children@[k]).1 matches Some(c2) ==> i < c2 < nodes.len()
                            && nodes[c2 as int].parent == Some(i as usize) && nodes[c2 as int].action
                            == Some(nodes[i].children@[k].0)) by {
                        if i == old_root && k == slot {
                        } else {
                            assert(nodes[i].children@[k] == old_nodes[i].children@[k]);
                        }
                    }
                    assert(reaches(old_nodes, c as int, old_root as int)) by {
                        assert(reaches(old_nodes, old_root as int, old_root as int));
                    }
                    assert forall|i: int| 0 <= i < nodes.len() && #[trigger] reaches(nodes, i, c as int) implies reaches(
                        old_nodes,
                        i,
                        old_root as int,
                    ) by {
                        lemma_reaches_detached(old_nodes, nodes, i, c as int);
                        lemma_reaches_trans(old_nodes, i, c as int, old_root as int);
                    }
                    lemma_count_mono(old_nodes, old_root as int, nodes, c as int, nodes.len() as int);
                    if reaches(nodes, old_root as int, c as int) {
                        lemma_reaches_above(nodes, old_root as int, c as int);
                    }
                    lemma_count_strict(old_nodes, old_root as int, nodes, c as int, nodes.len() as int, old_root as int);
                    assert forall|k: int|
                        0 <= k < old_nodes[old_root as int].children@.len() && first_slot_for(old_nodes[old_root as int].children@, m, k)
                        implies (#[trigger] old_nodes[old_root as int].children@[k]).1 == Some(c) by {
                        if k != slot {
                            if k < slot {
                            } else {
                                assert(old_nodes[old_root as int].children@[slot as int].0 == m);
                            }
                        }
                    }
                    assert(nodes[c as int].children == old_nodes[c as int].children);
                    assert(nodes[c as int].visits == old_nodes[c as int].visits);
                    assert(self.node_slots(c as int) == old_nodes[c as int].children@);
                    assert forall|i: int| 0 <= i < nodes.len() implies #[trigger] reaches(old_nodes, i, c as int)
                        == reaches(nodes, i, c as int) by {
                        if reaches(old_nodes, i, c as int) {
                            lemma_reaches_detached(nodes, old_nodes, i, c as int);
                        }
                        if reaches(nodes, i, c as int) {
                            lemma_reaches_detached(old_nodes, nodes, i, c as int);
                        }
                    }
                    lemma_count_mono(old_nodes, c as int, nodes, c as int, nodes.len() as int);
                    lemma_count_mono(nodes, c as int, old_nodes, c as int, nodes.len() as int);
                    assert forall|i: int| 0 <= i < old_nodes.len() implies #[trigger] nodes[i].visits == old_nodes[i].visits
                        && nodes[i].reward == old_nodes[i].reward by {}
                    assert forall|i: int| 0 <= i < nodes.len() implies #[trigger] children_sum(nodes, i) <= nodes[i].visits by {
                        assert(children_sum(old_nodes, i) <= old_nodes[i].visits);
                        let cha = old_nodes[i].children@;
                        let chb = nodes[i].children@;
                        assert forall|j: int| 0 <= j < chb.len() implies slot_value(nodes, #[trigger] chb[j].1) <= slot_value(old_nodes, cha[j].1) by {
                            if i == old_root && j == slot {
                            } else {
                                assert(chb[j] == cha[j]);
                            }
                        }
                        lemma_slot_sum_le(old_nodes, cha, nodes, chb, chb.len() as int);
                    }
                }
            },
            None => {
                let node = Node::new(&self.root_state, None, None);
                self.nodes.push(node);
                self.root = self.nodes.len() - 1;
                let ghost new_states = states.push(self.root_state);
                self.states = Ghost(new_states);
                proof {
                    reveal(states_wf);
                    let nodes = self.nodes@;
                    let st = self.states@;
                    let rr = self.root as int;
                    assert(slot_moves(nodes[rr].children@, self.root_state));
                    assert forall|i: int, j: int, k: int, l: int|
                        0 <= i < 3 && 0 <= j < 3 && 0 <= k < 3 && 0 <= l < 3 implies #[trigger] st[rr].cell(i, j, k, l) == self.root_state.cell(i, j, k, l) by {}
                    assert forall|i: int| 0 <= i < nodes.len() implies #[trigger] st[i].wf() && slot_moves(nodes[i].children@, st[i]) by {
                        if i < old_nodes.len() {
                            assert(st[i] == states[i] && nodes[i] == old_nodes[i]);
                            lemma_state_at(old_nodes, states, old_rs, old_root as int, i);
                        }
                    }
                    assert forall|i: int|
                        0 <= i < nodes.len() implies ((#[trigger] nodes[i]).parent matches Some(p) ==> (nodes[i].action matches Some(m3)
                            && 0 <= p < nodes.len() && st[p as int].legal(m3) && st[i].follows(st[p as int], m3))) by {
                        if i < old_nodes.len() {
                            assert(nodes[i] == old_nodes[i]);
                            if let Some(p) = nodes[i].parent {
                                assert(st[p as int] == states[p as int] && st[i] == states[i]);
                            }
                        }
                    }
                    assert(states_wf(nodes, st, self.root_state, rr));
                    let nodes = self.nodes@;
                    let r = self.root as int;
                    assert forall|i: int| 0 <= i < r implies !#[trigger] reaches(nodes, i, r) by {
                        if reaches(nodes, i, r) {
                            lemma_reaches_above(nodes, i, r);
                        }
                    }
                    lemma_count_none(nodes, r, r);
                    assert(fresh_slots(nodes[r].children@, self.root_state));
                    assert forall|k: int| 0 <= k < old_nodes[old_root as int].children@.len()
                        implies !first_slot_for(old_nodes[old_root as int].children@, m, k) by {
                        assert(rc[k] == (old_nodes[old_root as int].children@[k].0, slot_visits(old_nodes, old_nodes[old_root as int].children@[k].1)));
                    }
                    assert forall|i: int| 0 <= i < nodes.len() implies #[trigger] children_sum(nodes, i) <= nodes[i].visits by {
                        if i == r {
                            lemma_slot_sum_zero(nodes, nodes[i].children@, nodes[i].children@.len() as int);
                        } else {
                            assert(children_sum(old_nodes, i) <= old_nodes[i].visits);
                            let ch = old_nodes[i].children@;
                            assert(nodes[i] == old_nodes[i]);
                            assert forall|j: int| 0 <= j < ch.len() implies slot_value(nodes, #[trigger] ch[j].1) <= slot_value(old_nodes, ch[j].1) by {}
                            lemma_slot_sum_le(old_nodes, ch, nodes, ch, ch.len() as int);
                        }
                    }
                    assert(reaches(nodes, r, r));
                }
            },
        }
        proof {
            lemma_root_slots(*self);
        }
    }

    /// The visit count of the root.
    pub fn root_visit_count(&self) -> (r: u32)
        requires
            self.wf(),
        ensures
            r == self.root_visits(),
    {
        self.nodes[self.root].visits
    }

    /// The number of nodes in the subtree of the root.
    pub fn tree_size(&self) -> (r: usize)
        requires
            self.wf(),
        ensures
            r == self.spec_tree_size(),
    {
        let nodes = &self.nodes;
        let mut inside: Vec<bool> = Vec::new();
        let mut count: usize = 0;
        let mut i: usize = 0;
        while i < nodes.len()
            invariant
                self.wf(),
                *nodes == self.nodes,
                0 <= i <= nodes@.len(),
                inside@.len() == i,
                forall|j: int| 0 <= j < i ==> #[trigger] inside@[j] == reaches(nodes@, j, self.root as int),
                count == count_reaching(nodes@, self.root as int, i as int),
                count <= i,
            decreases nodes@.len() - i,
        {
            let v = if i == self.root {
                true
            } else {
                match nodes[i].parent {
                    Some(p) => inside[p],
                    None => false,
                }
            };
            inside.push(v);
            if v {
                count += 1;
            }
            i += 1;
        }
        count
    }
}

impl MCTS {
    /// The visit count of node `i` of the arena.
    pub closed spec fn node_visits(&self, i: int) -> nat {
        self.nodes@[i].visits as nat
    }

    /// The visit counts of the materialized children of node `i`, summed.
    pub closed spec fn children_visits(&self, i: int) -> nat {
        children_sum(self.nodes@, i)
    }

    /// The parent of node `i` of the arena.
    pub closed spec fn node_parent(&self, i: int) -> Option<usize> {
        self.nodes@[i].parent
    }

    /// Twice the accumulated reward of node `i`.
    pub closed spec fn node_reward(&self, i: int) -> nat {
        self.nodes@[i].reward as nat
    }

    /// The move that leads into node `i` from its parent.
    pub closed spec fn node_action(&self, i: int) -> Option<Move> {
        self.nodes@[i].action
    }

    /// The child slots of node `i`: each move with its node, if any.
    pub closed spec fn node_slots(&self, i: int) -> Seq<(Move, Option<usize>)> {
        self.nodes@[i].children@
    }

    /// The number of nodes whose parent links lead to node `i`.
    pub closed spec fn subtree_size(&self, i: int) -> nat {
        count_reaching(self.nodes@, i, self.nodes@.len() as int)
    }

    /// The index of the root in the arena.
    pub closed spec fn root_index(&self) -> nat {
        self.root as nat
    }

    /// Node `i` lies in the subtree of the root.
    pub closed spec fn in_tree(&self, i: int) -> bool {
        reaches(self.nodes@, i, self.root as int)
    }
}

/// No node has more visits than its parent.
pub proof fn lemma_child_visits_bounded(t: &MCTS, i: int)
    requires
        t.wf(),
        0 <= i < t.arena_len(),
        t.node_parent(i) is Some,
    ensures
        t.node_visits(i) <= t.node_visits(t.node_parent(i).unwrap() as int),
{
    assert(arena_wf(t.nodes@));
    let n = t.nodes@[i];
    assert(n.parent is Some);
}

/// The children of a node together have no more visits than the node: each
/// visit of a child passes through its parent, and the node's own first
/// visit, when it was the new leaf, passes through none of its children.
pub proof fn lemma_children_visits_within_node(t: &MCTS, i: int)
    requires
        t.wf(),
        0 <= i < t.arena_len(),
    ensures
        t.children_visits(i) <= t.node_visits(i),
{
    assert(arena_wf(t.nodes@));
    assert(children_sum(t.nodes@, i) <= t.nodes@[i].visits);
}

/// The subtree of the root holds at least the root.
pub proof fn lemma_tree_size_positive(t: &MCTS)
    requires
        t.wf(),
    ensures
        t.spec_tree_size() >= 1,
{
    lemma_count_root(t.nodes@, t.root as int, t.nodes@.len() as int);
}

} // verus!
