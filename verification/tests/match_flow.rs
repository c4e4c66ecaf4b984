use othello_gui::ai::{ProcStatus, AI};
use othello_gui::console::{Console, Level};
use othello_gui::game::Game;
use othello_gui::mixed_player::MixedPlayer;
use othello_gui::othello::Tile;
use othello_gui::visual::Visual;

fn agent(name: &str) -> MixedPlayer {
    MixedPlayer::AI(AI::new(name.to_string(), 1000))
}

fn exited(stdout: &str) -> Option<ProcStatus> {
    Some(ProcStatus::Exited { code: 0, stdout: stdout.to_string(), stderr: String::new() })
}

#[test]
fn first_legal_move_then_forfeit() {
    // agent A plays the first legal move; agent B answers with an
    // out-of-range token and forfeits on its first turn
    let mut console = Console::new(Level::Info);
    let mut game = Game::new(0, agent("A"), agent("B"));
    let req = game.initialize(&mut console);
    assert!(req.is_some());

    let first_legal = game.pos.valid_moves()[0].move_string();
    let req = game.update(exited(&first_legal), &mut console);
    assert!(req.is_some());
    assert_eq!(game.history.len(), 2);
    assert!(game.winner.is_none());

    let req = game.update(exited("z9"), &mut console);
    assert!(req.is_none());
    assert_eq!(game.winner, Some(Tile::X));
    assert_eq!(game.history.len(), 2);
}

#[test]
fn scores_of_a_finished_match_are_zero_sum() {
    let mut console = Console::new(Level::Info);
    let mut game = Game::new(0, agent("A"), agent("B"));
    let _ = game.initialize(&mut console);
    let _ = game.update(exited("z9"), &mut console);
    assert_eq!(game.winner, Some(Tile::O));
    assert_eq!(game.score_for(Tile::X) + game.score_for(Tile::O), 2);
    assert_eq!(game.score_for(Tile::O), 2);

    // a drawn outcome splits the point
    let mut drawn = Game::new(1, MixedPlayer::Human, MixedPlayer::Human);
    drawn.winner = Some(Tile::Empty);
    assert_eq!(drawn.score_for(Tile::X), 1);
    assert_eq!(drawn.score_for(Tile::O), 1);
    assert_eq!(drawn.score_for(Tile::X) + drawn.score_for(Tile::O), 2);
}

#[test]
fn history_grows_by_one_per_move() {
    let mut console = Console::new(Level::Necessary);
    let mut game = Game::new(0, MixedPlayer::Human, MixedPlayer::Human);
    assert_eq!(game.history.len(), 1);
    for expected_len in 2..=4 {
        let mv = game.pos.valid_moves()[0];
        game.play(mv, "human", &mut console);
        assert_eq!(game.history.len(), expected_len);
    }
}

#[test]
fn undo_then_replay_restores_history() {
    let mut console = Console::new(Level::Necessary);
    let mut game = Game::new(0, MixedPlayer::Human, MixedPlayer::Human);
    let mv1 = game.pos.valid_moves()[0];
    game.play(mv1, "human", &mut console);
    let mv2 = game.pos.valid_moves()[0];
    game.play(mv2, "human", &mut console);
    let saved_history = game.history.clone();
    let saved_pos = game.pos;

    let (_kill, _req) = game.undo(&mut console, 2);
    assert_eq!(game.history.len(), 1);
    assert!(game.winner.is_none());

    game.play(mv1, "human", &mut console);
    game.play(mv2, "human", &mut console);
    assert_eq!(game.history, saved_history);
    assert_eq!(game.pos, saved_pos);
}

#[test]
fn manual_undo_steps_back_one_entry() {
    let mut console = Console::new(Level::Necessary);
    let mut game = Game::new(0, MixedPlayer::Human, MixedPlayer::Human);
    let start = game.pos;
    let mv = game.pos.valid_moves()[0];
    game.play(mv, "human", &mut console);
    let _ = game.manual_interrupt(&mut console);
    game.manual_undo(&mut console);
    assert_eq!(game.history.len(), 1);
    assert_eq!(game.pos, start);
    let _ = game.initialize_next_player(&mut console);
    assert!(game.winner.is_none());
}

#[test]
fn human_player_always_waits() {
    let mut console = Console::new(Level::Necessary);
    let mut game = Game::new(0, MixedPlayer::Human, agent("B"));
    let req = game.initialize(&mut console);
    assert!(req.is_none());
    let req = game.update(None, &mut console);
    assert!(req.is_none());
    assert_eq!(game.history.len(), 1);
    assert!(game.winner.is_none());
}

#[test]
fn next_and_prev_player() {
    let game = Game::new(0, MixedPlayer::Human, agent("B"));
    assert!(matches!(game.next_player(), Some(MixedPlayer::Human)));
    assert!(matches!(game.prev_player(), Some(MixedPlayer::AI(_))));
    let mut done = game;
    done.winner = Some(Tile::X);
    assert!(done.next_player().is_none());
    assert!(matches!(done.winner_player(), Some(MixedPlayer::Human)));
}

#[test]
fn visual_undo_returns_to_the_human() {
    let console = Console::new(Level::Necessary);
    let game = Game::new(0, MixedPlayer::Human, agent("B"));
    let mut visual = Visual { game, console };
    let mv = visual.game.pos.valid_moves()[0];
    visual.game.play(mv, "human", &mut visual.console);
    assert_eq!(visual.game.history.len(), 2);
    let (_kill, req) = visual.undo();
    assert_eq!(visual.game.history.len(), 1);
    assert!(visual.game.winner.is_none());
    assert!(req.is_none());
    assert!(matches!(visual.game.next_player(), Some(MixedPlayer::Human)));
}

#[test]
fn display_pos_shows_last_move() {
    let mut console = Console::new(Level::Necessary);
    let mut game = Game::new(0, MixedPlayer::Human, MixedPlayer::Human);
    let start = game.pos;
    let mv = game.pos.valid_moves()[0];
    game.play(mv, "human", &mut console);
    let view = game.game_display_pos();
    assert_eq!(view.cur, game.pos);
    assert_eq!(view.last, start);
    assert_eq!(view.last_move, Some(mv));
}
