use vstd::prelude::*;
use rand::rngs::StdRng;
use crate::env::{code_move, stepped, UTTTEnvImpl};
use crate::game::{reached_by_play, Game};
use crate::mcts::rollout;
use crate::player::Player;
use crate::random::seeded_rng;

verus! {

/// The score of a finished game for `mover`: +1 for a win, -1 for a loss,
/// 0 for a draw.
pub open spec fn spec_score(mover: Player, winner: Option<Player>) -> int {
    match winner {
        None => 0,
        Some(w) => if w == mover { 1 } else { -1 },
    }
}

/// The score of a finished game for `mover`.
pub fn rollout_score(mover: Player, winner: Option<Player>) -> (r: i8)
    ensures
        r as int == spec_score(mover, winner),
{
    match winner {
        None => 0,
        Some(w) => if w == mover { 1 } else { -1 },
    }
}

/// The action with the largest total, the last one among equals; `None`
/// when there is no action.
pub fn best_of(actions: &Vec<u8>, totals: &Vec<i64>) -> (r: Option<u8>)
    requires
        actions@.len() == totals@.len(),
    ensures
        r is None <==> actions@.len() == 0,
        r matches Some(a) ==> exists|k: int|
            0 <= k < actions@.len() && actions@[k] == a && (forall|j: int|
                0 <= j < actions@.len() ==> #[trigger] totals@[j] <= totals@[k]) && (forall|j: int|
                k < j < actions@.len() ==> #[trigger] totals@[j] < totals@[k]),
{
    if actions.len() == 0 {
        return None;
    }
    let mut best: usize = 0;
    let mut k: usize = 1;
    while k < actions.len()
        invariant
            actions@.len() == totals@.len(),
            0 <= best < k <= actions@.len(),
            forall|j: int| 0 <= j < k ==> #[trigger] totals@[j] <= totals@[best as int],
            forall|j: int| best < j < k ==> #[trigger] totals@[j] < totals@[best as int],
        decreases actions@.len() - k,
    {
        if totals[k] >= totals[best] {
            best = k;
        }
        k += 1;
    }
    Some(actions[best])
}

/// `actions` are the codes of the legal moves of `g`, in increasing order.
pub open spec fn legal_actions(g: Game, actions: Seq<u8>) -> bool {
    &&& forall|k: int| 0 <= k < actions.len() ==> #[trigger] actions[k] < 81 && g.legal(code_move(actions[k] as int))
    &&& forall|k1: int, k2: int| 0 <= k1 < k2 < actions.len() ==> #[trigger] actions[k1] < #[trigger] actions[k2]
    &&& forall|a: u8| a < 81 && #[trigger] g.legal(code_move(a as int)) ==> actions.contains(a)
}

/// The outcome of a flat search of `g` with `budget` rollouts: each legal
/// action got `budget / k` rollouts, for `k` legal actions, whose scores in
/// `-1..=1` sum to its total, and `a` is the last action of largest total.
pub open spec fn flat_outcome(
    g: Game,
    budget: nat,
    actions: Seq<u8>,
    totals: Seq<i64>,
    scores: Seq<Seq<int>>,
    a: u8,
) -> bool {
    let per = budget / actions.len();
    &&& legal_actions(g, actions)
    &&& actions.len() > 0
    &&& totals.len() == actions.len()
    &&& scores.len() == actions.len()
    &&& forall|i: int| 0 <= i < totals.len() ==> rollouts_sum(g, actions[i], #[trigger] scores[i], per, totals[i] as int)
    &&& exists|k: int|
        0 <= k < actions.len() && actions[k] == a && (forall|j: int|
            0 <= j < actions.len() ==> #[trigger] totals[j] <= totals[k]) && (forall|j: int|
            k < j < actions.len() ==> #[trigger] totals[j] < totals[k])
}

/// `s` is the score, for the player to move in `g`, of one rollout: `action`
/// stepped, then legal moves played to a finished position.
pub open spec fn rollout_outcome(g: Game, action: u8, s: int) -> bool {
    exists|after: Game, end: Game|
        #![trigger stepped(g, action, after), reached_by_play(after, end)]
        stepped(g, action, after) && reached_by_play(after, end) && end.finished() && s == spec_score(
            g.turn(),
            end.spec_winner(),
        )
}

/// `after` is `before` plus the score of one rollout after `action`.
pub open spec fn score_added(g: Game, action: u8, before: int, after: int) -> bool {
    exists|s: int| #[trigger] rollout_outcome(g, action, s) && after == before + s
}

/// The sum of a sequence of integers.
pub open spec fn sum_of(xs: Seq<int>) -> int
    decreases xs.len(),
{
    if xs.len() == 0 {
        0
    } else {
        sum_of(xs.drop_last()) + xs.last()
    }
}

/// `total` is the sum of `n` rollout scores after `action`.
pub open spec fn rollouts_sum(g: Game, action: u8, scores: Seq<int>, n: nat, total: int) -> bool {
    &&& scores.len() == n
    &&& total == sum_of(scores)
    &&& forall|j: int| 0 <= j < scores.len() ==> rollout_outcome(g, action, #[trigger] scores[j])
}

proof fn lemma_sum_push(xs: Seq<int>, x: int)
    ensures
        sum_of(xs.push(x)) == sum_of(xs) + x,
{
    assert(xs.push(x).drop_last() =~= xs);
}

/// Flat Monte Carlo search: uniform random rollouts after each legal
/// action, scored for the player to move.
pub struct PMCTS {
    pub(crate) iterations: u32,
    pub(crate) rng: StdRng,
}

impl PMCTS {
    /// The total number of rollouts that `run` shares out.
    pub closed spec fn budget(&self) -> nat {
        self.iterations as nat
    }

    /// A search with `iterations` rollouts per `run`, shared out evenly
    /// over the legal actions, and a random generator seeded with `seed`.
    pub fn new(iterations: u32, seed: u64) -> (r: PMCTS)
        ensures
            r.budget() == iterations,
    {
        PMCTS { iterations, rng: seeded_rng(seed) }
    }

    /// Plays `action` on a copy of `env`, then random legal moves to the
    /// end, and scores the result for the player who was to move in `env`.
    pub fn rollout_action(&mut self, env: &UTTTEnvImpl, action: u8) -> (r: i8)
        requires
            env.game.wf(),
        ensures
            exists|after: Game, end: Game|
                #![trigger stepped(env.game, action, after), reached_by_play(after, end)]
                stepped(env.game, action, after) && reached_by_play(after, end) && end.finished()
                    && r as int == spec_score(env.game.turn(), end.spec_winner()),
            rollout_outcome(env.game, action, r as int),
            -1 <= r <= 1,
            final(self).budget() == old(self).budget(),
    {
        let mover = env.game.current_player();
        let mut game = *env;
        game.step(action);
        let after = game.game;
        let winner = rollout(after, &mut self.rng);
        assert(stepped(env.game, action, after));
        let r = rollout_score(mover, winner);
        proof {
            let end = choose|end: Game| #[trigger] reached_by_play(after, end) && end.finished() && winner == end.spec_winner();
            assert(stepped(env.game, action, after) && reached_by_play(after, end));
        }
        r
    }

    /// One pass: one rollout after each action of `actions`, its score added
    /// to that action's total.
    pub fn rollout_pass(&mut self, env: &UTTTEnvImpl, actions: &Vec<u8>, totals: &mut Vec<i64>)
        requires
            env.game.wf(),
            old(totals)@.len() == actions@.len(),
            forall|i: int| 0 <= i < old(totals)@.len() ==> i64::MIN < #[trigger] old(totals)@[i] < i64::MAX,
        ensures
            final(self).budget() == old(self).budget(),
            final(totals)@.len() == old(totals)@.len(),
            forall|i: int|
                0 <= i < final(totals)@.len() ==> score_added(env.game, actions@[i], old(totals)@[i] as int, #[trigger] final(totals)@[i] as int),
    {
        let ghost before = totals@;
        let mut i: usize = 0;
        while i < actions.len()
            invariant
                env.game.wf(),
                0 <= i <= actions@.len(),
                totals@.len() == before.len(),
                before.len() == actions@.len(),
                self.budget() == old(self).budget(),
                forall|j: int| i <= j < totals@.len() ==> #[trigger] totals@[j] == before[j],
                forall|j: int| 0 <= j < before.len() ==> i64::MIN < #[trigger] before[j] < i64::MAX,
                forall|j: int| 0 <= j < i ==> score_added(env.game, actions@[j], before[j] as int, #[trigger] totals@[j] as int),
            decreases actions@.len() - i,
        {
            let s = self.rollout_action(env, actions[i]);
            let t = totals[i] + s as i64;
            let ghost prev = totals@;
            totals.set(i, t);
            assert(score_added(env.game, actions@[i as int], before[i as int] as int, totals@[i as int] as int));
            assert forall|j: int| 0 <= j < i implies score_added(env.game, actions@[j], before[j] as int, #[trigger] totals@[j] as int) by {
                assert(totals@[j] == prev[j]);
            }
            i += 1;
        }
    }

    /// Gives each legal action of `env` an equal share of the budget in
    /// rollouts and returns the action with the largest total score; `None`
    /// when no action is legal.
    pub fn run(&mut self, env: UTTTEnvImpl) -> (r: Option<u8>)
        requires
            env.game.wf(),
        ensures
            r is None <==> forall|a: u8| a < 81 ==> !#[trigger] env.game.legal(code_move(a as int)),
            r matches Some(a) ==> a < 81 && env.game.legal(code_move(a as int)),
            r matches Some(a) ==> exists|actions: Seq<u8>, totals: Seq<i64>, scores: Seq<Seq<int>>|
                #[trigger] flat_outcome(env.game, old(self).budget(), actions, totals, scores, a),
    {
        let actions = env.valid_actions();
        if actions.len() == 0 {
            return None;
        }
        let per = self.iterations / (actions.len() as u32);
        let mut totals: Vec<i64> = Vec::new();
        let ghost mut scores: Seq<Seq<int>> = Seq::empty();
        let mut i: usize = 0;
        while i < actions.len()
            invariant
                env.game.wf(),
                0 <= i <= actions@.len(),
                totals@.len() == i,
                actions@.len() <= 81,
                actions@.len() > 0,
                per as int == self.iterations as int / actions@.len() as int,
                self.budget() == old(self).budget(),
                scores.len() == i,
                forall|j: int| 0 <= j < i ==> rollouts_sum(env.game, actions@[j], #[trigger] scores[j], per as nat, totals@[j] as int),
            decreases actions@.len() - i,
        {
            let mut total: i64 = 0;
            let ghost mut sc: Seq<int> = Seq::empty();
            let mut n: u32 = 0;
            while n < per
                invariant
                    env.game.wf(),
                    0 <= n <= per,
                    -(n as int) <= total <= n as int,
                    i < actions@.len(),
                    rollouts_sum(env.game, actions@[i as int], sc, n as nat, total as int),
                    self.budget() == old(self).budget(),
                decreases per - n,
            {
                let s = self.rollout_action(&env, actions[i]);
                proof {
                    lemma_sum_push(sc, s as int);
                    let old_sc = sc;
                    sc = sc.push(s as int);
                    assert forall|j: int| 0 <= j < sc.len() implies rollout_outcome(env.game, actions@[i as int], #[trigger] sc[j]) by {
                        if j < old_sc.len() {
                            assert(sc[j] == old_sc[j]);
                        }
                    }
                }
                total = total + s as i64;
                n += 1;
            }
            let ghost prev = totals@;
            let ghost prev_scores = scores;
            totals.push(total);
            proof {
                scores = scores.push(sc);
            }
            assert forall|j: int| 0 <= j < i + 1 implies rollouts_sum(env.game, actions@[j], #[trigger] scores[j], per as nat, totals@[j] as int) by {
                if j < i {
                    assert(totals@[j] == prev[j]);
                    assert(scores[j] == prev_scores[j]);
                }
            }
            i += 1;
        }
        let r = best_of(&actions, &totals);
        proof {
            if let Some(a) = r {
                assert(flat_outcome(env.game, old(self).budget(), actions@, totals@, scores, a));
            }
        }
        r
    }
}

} // verus!
