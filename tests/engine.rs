use uttt::big_board::BigBoard;
use uttt::env::{action_to_move, move_to_action, UTTTEnvImpl};
use uttt::game::{Game, Move};
use uttt::mcts::{ChildStats, MCTS};
use uttt::player::Player;
use uttt::pmcts::{best_of, rollout_score, PMCTS};
use uttt::small_board::SmallBoard;
use uttt::winner::get_winner;

const X: Option<Player> = Some(Player::X);
const O: Option<Player> = Some(Player::O);
const E: Option<Player> = None;

fn uct(stats: ChildStats, parent_visits: u32) -> f64 {
    let v = stats.visits as f64;
    (stats.reward as f64 / 2.0) / v + 1.41 * ((parent_visits as f64).ln() / v).sqrt()
}

fn prefer(best: ChildStats, cand: ChildStats, parent_visits: u32) -> bool {
    uct(cand, parent_visits) >= uct(best, parent_visits)
}

fn play(game: &mut Game, moves: &[Move]) {
    for m in moves {
        assert!(game.move_valid(*m), "{:?} should be legal", m);
        game.make_move(*m);
    }
}

#[test]
fn other_swaps_marks() {
    assert_eq!(Player::X.other(), Player::O);
    assert_eq!(Player::O.other(), Player::X);
}

#[test]
fn winner_row_column_diagonals() {
    assert_eq!(get_winner(&[[X, X, X], [O, O, E], [E, E, E]]), X);
    assert_eq!(get_winner(&[[O, X, E], [O, X, E], [O, E, X]]), O);
    assert_eq!(get_winner(&[[X, O, E], [O, X, E], [E, E, X]]), X);
    assert_eq!(get_winner(&[[X, X, O], [X, O, E], [O, E, E]]), O);
}

#[test]
fn winner_none_on_empty_and_unlined() {
    assert_eq!(get_winner(&[[E, E, E], [E, E, E], [E, E, E]]), None);
    assert_eq!(get_winner(&[[X, O, X], [X, O, O], [O, X, X]]), None);
    assert_eq!(get_winner(&[[X, X, E], [O, O, E], [E, E, E]]), None);
}

#[test]
fn winner_kept_under_rotation_and_reflection() {
    let g = [[X, O, E], [X, O, E], [X, E, O]];
    let mut rot = [[E; 3]; 3];
    let mut refl = [[E; 3]; 3];
    for i in 0..3 {
        for j in 0..3 {
            rot[i][j] = g[2 - j][i];
            refl[i][j] = g[i][2 - j];
        }
    }
    assert_eq!(get_winner(&g), X);
    assert_eq!(get_winner(&rot), X);
    assert_eq!(get_winner(&refl), X);
}

#[test]
fn small_board_place_and_win() {
    let mut sb = SmallBoard::new();
    assert!(!sb.is_over());
    sb.place(Player::O, (0, 2));
    sb.place(Player::O, (1, 1));
    assert_eq!(sb.get_winner(), None);
    sb.place(Player::O, (2, 0));
    assert_eq!(sb.at((1, 1)), O);
    assert_eq!(sb.get_winner(), O);
    assert!(sb.is_over());
    assert!(!sb.is_full());
}

#[test]
fn small_board_full_draw() {
    let mut sb = SmallBoard::new();
    let cells = [
        (Player::X, (0, 0)),
        (Player::O, (0, 1)),
        (Player::X, (0, 2)),
        (Player::X, (1, 0)),
        (Player::O, (1, 1)),
        (Player::O, (1, 2)),
        (Player::O, (2, 0)),
        (Player::X, (2, 1)),
        (Player::X, (2, 2)),
    ];
    for (p, c) in cells {
        sb.place(p, c);
    }
    assert!(sb.is_full());
    assert!(sb.is_over());
    assert_eq!(sb.get_winner(), None);
}

#[test]
fn subboard_row_win_scenario() {
    let mut bb = BigBoard::new();
    bb.place(Player::X, Move((0, 0), (0, 0)));
    bb.place(Player::O, Move((0, 0), (1, 0)));
    bb.place(Player::X, Move((0, 0), (0, 1)));
    bb.place(Player::O, Move((0, 1), (1, 0)));
    bb.place(Player::X, Move((0, 0), (0, 2)));
    assert_eq!(bb.at((0, 0)).get_winner(), X);
    assert_eq!(bb.get_winner(), None);
    assert!(!bb.is_over());
    assert!(!bb.is_full());
}

#[test]
fn big_board_meta_winner() {
    let mut bb = BigBoard::new();
    for outer in [(0, 0), (1, 1), (2, 2)] {
        for inner in [(0, 0), (0, 1), (0, 2)] {
            bb.place(Player::O, Move(outer, inner));
        }
    }
    assert_eq!(bb.get_winner(), O);
    assert!(bb.is_over());
}

#[test]
fn initial_position_has_all_moves() {
    let game = Game::new();
    let moves = game.valid_moves();
    assert_eq!(moves.len(), 81);
    for (a, m) in moves.iter().enumerate() {
        assert_eq!(move_to_action(*m) as usize, a);
    }
    assert_eq!(game.current_player(), Player::X);
    assert!(!game.is_over());
    assert_eq!(game.winner(), None);
}

#[test]
fn sent_to_constraint() {
    let mut game = Game::new();
    play(&mut game, &[Move((1, 1), (0, 2))]);
    let moves = game.valid_moves();
    assert_eq!(moves.len(), 9);
    assert!(moves.iter().all(|m| m.0 == (0, 2)));
    assert!(!game.move_valid(Move((1, 1), (0, 0))));
    assert!(game.move_valid(Move((0, 2), (1, 1))));
    assert_eq!(game.current_player(), Player::O);
}

#[test]
fn free_move_release() {
    let mut game = Game::new();
    play(
        &mut game,
        &[
            Move((1, 1), (0, 0)),
            Move((0, 0), (1, 1)),
            Move((1, 1), (0, 1)),
            Move((0, 1), (1, 1)),
            Move((1, 1), (0, 2)),
            Move((0, 2), (1, 1)),
        ],
    );
    assert_eq!(game.big_board().at((1, 1)).get_winner(), X);
    let moves = game.valid_moves();
    assert_eq!(moves.len(), 69);
    assert!(moves.iter().all(|m| m.0 != (1, 1)));
    assert!(game.move_valid(Move((2, 2), (2, 2))));
    assert!(!game.move_valid(Move((1, 1), (2, 2))));
    assert!(!game.move_valid(Move((0, 0), (1, 1))));
    for m in moves.iter() {
        assert!(game.move_valid(*m));
    }
}

#[test]
fn valid_moves_match_move_valid() {
    let mut game = Game::new();
    play(&mut game, &[Move((2, 0), (1, 2)), Move((1, 2), (2, 0))]);
    let moves = game.valid_moves();
    for a in 0..81u8 {
        let m = action_to_move(a);
        assert_eq!(game.move_valid(m), moves.contains(&m));
    }
    assert!(!game.move_valid(Move((3, 0), (0, 0))));
}

#[test]
fn board_flattening() {
    let mut game = Game::new();
    play(&mut game, &[Move((0, 1), (2, 0)), Move((2, 0), (1, 2))]);
    let b = game.board();
    assert_eq!(b[2][3], X);
    assert_eq!(b[7][2], O);
    let marked = b.iter().flatten().filter(|c| c.is_some()).count();
    assert_eq!(marked, 2);
}

#[test]
fn game_over_on_meta_line() {
    let mut game = Game::new();
    // A legal game of 43 plies that X wins on the subboard winners.
    let seq = [
        Move((2, 2), (2, 0)),
        Move((2, 0), (1, 0)),
        Move((1, 0), (2, 1)),
        Move((2, 1), (2, 2)),
        Move((2, 2), (2, 2)),
        Move((2, 2), (1, 2)),
        Move((1, 2), (2, 2)),
        Move((2, 2), (0, 2)),
        Move((0, 2), (2, 1)),
        Move((2, 1), (0, 0)),
        Move((0, 0), (0, 0)),
        Move((0, 0), (1, 0)),
        Move((1, 0), (1, 2)),
        Move((1, 2), (0, 2)),
        Move((0, 2), (1, 1)),
        Move((1, 1), (0, 0)),
        Move((0, 0), (0, 2)),
        Move((0, 2), (0, 0)),
        Move((0, 0), (1, 2)),
        Move((1, 2), (0, 1)),
        Move((0, 1), (2, 1)),
        Move((2, 1), (0, 2)),
        Move((0, 2), (0, 2)),
        Move((0, 2), (1, 0)),
        Move((1, 0), (0, 1)),
        Move((0, 1), (1, 2)),
        Move((1, 2), (2, 0)),
        Move((2, 0), (2, 0)),
        Move((2, 0), (1, 2)),
        Move((1, 2), (1, 2)),
        Move((1, 2), (0, 0)),
        Move((0, 0), (2, 0)),
        Move((2, 0), (0, 2)),
        Move((0, 2), (1, 2)),
        Move((1, 2), (1, 0)),
        Move((1, 0), (2, 2)),
        Move((2, 2), (2, 1)),
        Move((2, 1), (1, 2)),
        Move((1, 1), (2, 0)),
        Move((2, 0), (2, 1)),
        Move((0, 1), (1, 0)),
        Move((1, 0), (0, 2)),
        Move((0, 2), (0, 1)),
    ];
    play(&mut game, &seq);
    assert!(game.is_over());
    assert_eq!(game.winner(), X);
    assert!(game.valid_moves().is_empty());
}

#[test]
fn action_round_trip() {
    for a in 0..81u8 {
        assert_eq!(move_to_action(action_to_move(a)), a);
    }
}

#[test]
fn move_round_trip_and_bijection() {
    let mut seen = [false; 81];
    for r1 in 0..3u8 {
        for c1 in 0..3u8 {
            for r2 in 0..3u8 {
                for c2 in 0..3u8 {
                    let m = Move((r1, c1), (r2, c2));
                    let a = move_to_action(m);
                    assert_eq!(a, r1 * 27 + c1 * 9 + r2 * 3 + c2);
                    assert_eq!(action_to_move(a), m);
                    assert!(!seen[a as usize]);
                    seen[a as usize] = true;
                }
            }
        }
    }
    assert!(seen.iter().all(|s| *s));
    assert_eq!(action_to_move(38), Move((1, 1), (0, 2)));
}

#[test]
fn env_initial_state() {
    let env = UTTTEnvImpl::new();
    assert_eq!(env.valid_actions(), (0..81).collect::<Vec<u8>>());
    assert_eq!(env.current_player(), 0);
    assert!(!env.done());
    assert_eq!(env.reward(), 0);
}

#[test]
fn env_step_observation() {
    let mut env = UTTTEnvImpl::new();
    let (obs, reward, done) = env.step(38);
    assert_eq!(reward, 0);
    assert!(!done);
    assert_eq!(env.current_player(), 1);
    // O is to move: the X mark at row 3, column 5 is the opponent's.
    assert_eq!(obs[0][3][5], 0);
    assert_eq!(obs[1][3][5], 1);
    assert!(obs[2].iter().flatten().all(|v| *v == 0));
    assert_eq!(obs[1].iter().flatten().map(|v| *v as u32).sum::<u32>(), 1);
    assert_eq!(env.valid_actions(), (18..27).collect::<Vec<u8>>());
    let (obs, _, _) = env.step(22);
    assert_eq!(obs[0][3][5], 1);
    assert_eq!(obs[1][1][7], 1);
    assert!(obs[2].iter().flatten().all(|v| *v == 1));
}

#[test]
fn env_illegal_action_falls_back() {
    let mut env = UTTTEnvImpl::new();
    env.step(38);
    let (_, _, done) = env.step(0);
    assert!(!done);
    assert_eq!(env.current_player(), 0);
    let b = env.game.board();
    assert_eq!(b[0][6], O);
    let marked = b.iter().flatten().filter(|c| c.is_some()).count();
    assert_eq!(marked, 2);
    let (_, _, _) = env.step(200);
    let marked = env.game.board().iter().flatten().filter(|c| c.is_some()).count();
    assert_eq!(marked, 3);
}

#[test]
fn env_reset_restores_start() {
    let mut env = UTTTEnvImpl::new();
    env.step(40);
    env.reset();
    assert_eq!(env.valid_actions().len(), 81);
    assert_eq!(env.current_player(), 0);
}

#[test]
fn env_reward_signs() {
    let mut env = UTTTEnvImpl::new();
    let mut steps = 0;
    while !env.done() {
        let a = env.valid_actions()[0];
        env.step(a);
        steps += 1;
    }
    assert!(steps <= 81);
    let r = env.reward();
    assert!(r == 1 || r == -1 || r == 0);
    match env.game.winner() {
        Some(Player::X) => assert_eq!(r, 1),
        Some(Player::O) => assert_eq!(r, -1),
        None => assert_eq!(r, 0),
    }
}

#[test]
fn mcts_root_visits_and_tree_size() {
    let env = UTTTEnvImpl::new();
    let mut mcts = MCTS::new(env, 50, 7);
    assert_eq!(mcts.tree_size(), 1);
    for _ in 0..50 {
        mcts.iterate(&prefer);
    }
    assert_eq!(mcts.tree_size(), 51);
    assert_eq!(mcts.root_visit_count(), 50);
    let a = mcts.best_action().unwrap();
    assert!(a < 81);
}

#[test]
fn mcts_run_returns_legal_action() {
    let env = UTTTEnvImpl::new();
    let mut mcts = MCTS::new(env.clone(), 200, 3);
    let a = mcts.run(&prefer).unwrap();
    assert!(env.valid_actions().contains(&a));
}

#[test]
fn mcts_deterministic_with_seed() {
    let mut env = UTTTEnvImpl::new();
    env.step(40);
    let mut first = MCTS::new(env.clone(), 300, 11);
    let mut second = MCTS::new(env.clone(), 300, 11);
    assert_eq!(first.run(&prefer), second.run(&prefer));
}

#[test]
fn mcts_move_root_shrinks_tree() {
    let env = UTTTEnvImpl::new();
    let mut mcts = MCTS::new(env.clone(), 400, 5);
    let a = mcts.run(&prefer).unwrap();
    let before = mcts.tree_size();
    mcts.move_root(a);
    let after = mcts.tree_size();
    assert!(after < before);
    assert!(after >= 1);
    let b = mcts.run(&prefer).unwrap();
    let mut env2 = env.clone();
    env2.step(a);
    assert!(env2.valid_actions().contains(&b));
}

#[test]
fn mcts_move_root_to_unexpanded_child() {
    let env = UTTTEnvImpl::new();
    let mut mcts = MCTS::new(env, 0, 1);
    mcts.move_root(40);
    assert_eq!(mcts.tree_size(), 1);
    assert_eq!(mcts.best_action(), None);
}

#[test]
fn pmcts_returns_legal_action() {
    let mut env = UTTTEnvImpl::new();
    env.step(0);
    let mut p = PMCTS::new(90, 9);
    let a = p.run(env.clone()).unwrap();
    assert!(env.valid_actions().contains(&a));
}

#[test]
fn pmcts_rollout_scores() {
    assert_eq!(rollout_score(Player::X, X), 1);
    assert_eq!(rollout_score(Player::X, O), -1);
    assert_eq!(rollout_score(Player::O, O), 1);
    assert_eq!(rollout_score(Player::O, None), 0);
}

#[test]
fn best_of_picks_last_largest() {
    assert_eq!(best_of(&vec![3, 5, 7], &vec![1, 4, 4]), Some(7));
    assert_eq!(best_of(&vec![3, 5, 7], &vec![9, 4, -2]), Some(3));
    assert_eq!(best_of(&vec![], &vec![]), None);
}

#[test]
fn mark_balance_after_moves() {
    let mut env = UTTTEnvImpl::new();
    for k in 0..30 {
        let actions = env.valid_actions();
        if actions.is_empty() {
            break;
        }
        env.step(actions[(k * 7) % actions.len()]);
        let b = env.game.board();
        let xs = b.iter().flatten().filter(|c| **c == X).count();
        let os = b.iter().flatten().filter(|c| **c == O).count();
        assert!(xs == os || xs == os + 1);
        assert_eq!(xs - os, env.current_player() as usize);
    }
}

#[test]
fn mcts_run_counts_root_visits() {
    let env = UTTTEnvImpl::new();
    let mut mcts = MCTS::new(env, 120, 21);
    mcts.run(&prefer);
    assert_eq!(mcts.root_visit_count(), 120);
    mcts.run(&prefer);
    assert_eq!(mcts.root_visit_count(), 240);
}

#[test]
fn pmcts_rollout_pass_adds_one_score_each() {
    let env = UTTTEnvImpl::new();
    let mut p = PMCTS::new(0, 4);
    let actions = env.valid_actions();
    let mut totals = vec![0i64; actions.len()];
    p.rollout_pass(&env, &actions, &mut totals);
    assert_eq!(totals.len(), 81);
    assert!(totals.iter().all(|t| (-1..=1).contains(t)));
    p.rollout_pass(&env, &actions, &mut totals);
    assert!(totals.iter().all(|t| (-2..=2).contains(t)));
}
