use othello_gui::ai::{ProcStatus, AI};
use othello_gui::arena::{AIArena, Report, Submode};
use othello_gui::console::{Console, Level};
use othello_gui::elo;
use othello_gui::game::Game;
use othello_gui::mixed_player::MixedPlayer;

fn agent(name: &str) -> MixedPlayer {
    MixedPlayer::AI(AI::new(name.to_string(), 1000))
}

fn exited(stdout: &str) -> Option<ProcStatus> {
    Some(ProcStatus::Exited { code: 0, stdout: stdout.to_string(), stderr: String::new() })
}

fn no_obs(n: usize) -> Vec<Option<ProcStatus>> {
    let mut v = Vec::new();
    for _ in 0..n {
        v.push(None);
    }
    v
}

fn elo_game(a: usize, b: usize, score_half: u32) -> elo::Game {
    elo::Game { players: (a, b), score_half }
}

#[test]
fn elo_1() {
    let games = vec![elo_game(0, 1, 0), elo_game(1, 0, 1)];
    let elos = elo::from_single_tournament(&games, 2, 50, 16);
    let a = elos[0] as f64 / elo::SCALE as f64;
    let b = elos[1] as f64 / elo::SCALE as f64;
    assert!((a + b - 2000.0).abs() < 1.0);
}

#[test]
fn elo_2() {
    let games = vec![
        elo_game(0, 1, 0),
        elo_game(1, 0, 1),
        elo_game(0, 2, 2),
        elo_game(2, 0, 1),
        elo_game(1, 2, 2),
        elo_game(2, 1, 0),
    ];
    let elos = elo::from_single_tournament(&games, 3, 50, 16);
    let sum: f64 = elos.iter().map(|e| *e as f64 / elo::SCALE as f64).sum();
    assert!((sum - 3000.0).abs() < 5.0);
}

#[test]
fn all_draws_keep_the_baseline() {
    // two equally skilled participants: every game drawn, mirrored
    // home and away; both ratings stay exactly at the baseline
    let games = vec![elo_game(0, 1, 1), elo_game(1, 0, 1)];
    let elos = elo::from_single_tournament(&games, 2, 50, 16);
    assert_eq!(elos[0], elo::BASELINE);
    assert_eq!(elos[1], elo::BASELINE);
    let a = elos[0] as f64 / elo::SCALE as f64;
    assert!((a - 1000.0).abs() < 1.0);
}

#[test]
fn expected_score_curve() {
    assert_eq!(elo::expected_scaled(0), elo::SCALE / 2);
    let up = elo::expected_scaled(400 * elo::SCALE as i64);
    let down = elo::expected_scaled(-400 * (elo::SCALE as i64));
    assert_eq!(up + down, elo::SCALE);
    assert!(up > elo::SCALE / 2);
    assert!(elo::expected_scaled(1600 * elo::SCALE as i64) > 60000);
}

#[test]
fn score_to_outcome_codes() {
    assert_eq!(elo::score_to_outcome(0), elo::Outcome::Loss);
    assert_eq!(elo::score_to_outcome(1), elo::Outcome::Draw);
    assert_eq!(elo::score_to_outcome(2), elo::Outcome::Win);
}

/// Drive every admitted match one full turn: answer each spawned agent
/// with the given stdout on the following tick.
fn run_compare_batch() -> Report {
    let games = vec![
        Game::new(0, agent("A"), agent("B")),
        Game::new(1, agent("B"), agent("A")),
        Game::new(2, agent("A"), agent("B")),
        Game::new(3, agent("B"), agent("A")),
    ];
    let console = Console::new(Level::Necessary);
    let mut arena = AIArena::new(games, 4, console, Submode::Compare);

    // tick 1: all four matches admitted, first movers spawned
    let tick = arena.update_ai_arena(no_obs(4));
    assert!(tick.report.is_none());
    assert_eq!(tick.spawns.len(), 4);
    assert_eq!(arena.first_unstarted, 4);

    // tick 2: every first mover answers with its first legal move
    let first_legal = arena.games[0].pos.valid_moves()[0].move_string();
    let obs: Vec<Option<ProcStatus>> =
        (0..4).map(|_| exited(&first_legal)).collect();
    let tick = arena.update_ai_arena(obs);
    assert!(tick.report.is_none());
    assert_eq!(tick.spawns.len(), 4);
    for g in arena.games.iter() {
        assert_eq!(g.history.len(), 2);
        assert!(g.winner.is_none());
    }

    // tick 3: every second mover forfeits with an out-of-range token
    let obs: Vec<Option<ProcStatus>> = (0..4).map(|_| exited("z9")).collect();
    let tick = arena.update_ai_arena(obs);
    tick.report.expect("all matches ended")
}

#[test]
fn compare_batch_is_fair() {
    // one mover-side always wins; with the seats swapped every second
    // game, both nominal competitors finish on two full points
    match run_compare_batch() {
        Report::Compare { score1, score2 } => {
            assert_eq!(score1, 4);
            assert_eq!(score2, 4);
        },
        _ => panic!("expected a comparison report"),
    }
}

#[test]
fn admission_respects_the_budget() {
    let games = vec![
        Game::new(0, agent("A"), agent("B")),
        Game::new(1, agent("B"), agent("A")),
        Game::new(2, agent("A"), agent("B")),
    ];
    let console = Console::new(Level::Necessary);
    let mut arena = AIArena::new(games, 1, console, Submode::Compare);

    let tick = arena.update_ai_arena(no_obs(3));
    assert_eq!(arena.first_unstarted, 1);
    assert_eq!(tick.spawns.len(), 1);

    // the admitted match is still ongoing: nothing new may start
    let _ = arena.update_ai_arena(no_obs(3));
    assert_eq!(arena.first_unstarted, 1);

    // finish the first match by forfeit; the next tick admits one more
    let mut obs = no_obs(3);
    obs[0] = exited("z9");
    let _ = arena.update_ai_arena(obs);
    assert!(arena.games[0].winner.is_some());
    assert_eq!(arena.first_unstarted, 1);
    let _ = arena.update_ai_arena(no_obs(3));
    assert_eq!(arena.first_unstarted, 2);

    let ongoing = arena.games[..arena.first_unstarted]
        .iter()
        .filter(|g| g.winner.is_none())
        .count();
    assert!(ongoing <= 1);
}

#[test]
fn tournament_report_ranks_by_score() {
    // A wins both encounters: once as first mover, once by B's forfeit
    let games = vec![
        Game::new(0, agent("A"), agent("B")),
        Game::new(1, agent("B"), agent("A")),
    ];
    let console = Console::new(Level::Necessary);
    let mut arena = AIArena::new(games, 2, console, Submode::Tournament);

    let _ = arena.update_ai_arena(no_obs(2));
    let first_legal = arena.games[0].pos.valid_moves()[0].move_string();
    // game 0: A (first seat) plays a legal move; game 1: B forfeits at once
    let tick = arena.update_ai_arena(vec![exited(&first_legal), exited("z9")]);
    assert!(tick.report.is_none());
    // game 0: B forfeits on its turn
    let tick = arena.update_ai_arena(vec![exited("z9"), None]);
    match tick.report.expect("all matches ended") {
        Report::Tournament(rows) => {
            assert_eq!(rows.len(), 2);
            assert_eq!(rows[0].path, "A");
            assert_eq!(rows[0].score, 4);
            assert_eq!(rows[1].path, "B");
            assert_eq!(rows[1].score, 0);
            assert!(rows[0].elo > rows[1].elo);
        },
        _ => panic!("expected a tournament report"),
    }
}

#[test]
fn console_filters_and_pins() {
    let mut c = Console::new(Level::Warning);
    c.info("dropped");
    c.warn("kept");
    c.print("also kept");
    let out = c.take_output();
    assert_eq!(out.len(), 2);
    assert_eq!(out[0].1, "kept");
    assert_eq!(out[1].1, "also kept");
    assert!(c.take_output().is_empty());

    c.pin("3/4 done".to_string());
    assert_eq!(c.pinned_message().as_deref(), Some("3/4 done"));
    c.unpin();
    assert!(c.pinned_message().is_none());
}
