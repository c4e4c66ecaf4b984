//! The per-match state machine: two players alternate over a position
//! history; a decoded move extends the history, a player failure forfeits
//! the match to the opponent, and undo rewinds the history.
use crate::ai::ProcStatus;
use crate::ai::SpawnRequest;
use crate::ai::{output_move, output_ok};
use crate::console::{Console, Level};
use crate::mixed_player::MixedPlayer;
use crate::othello::{
    is_place_result, is_valid_move_spec, lemma_place_deterministic, Pos, Relation, Tile, Vec2,
};
use crate::text::usize_string;
use vstd::prelude::*;

verus! {

/// What one poll of the on-turn player produced: a decoded, legal move
/// with a note; a failure that forfeits the match; or nothing yet.
#[derive(Debug)]
pub enum UpdateResult {
    Moved { mv: Vec2, notes: String },
    Fail { report: String },
    Wait,
}

/// One match: an id, the current position, the positions passed through
/// with the move that reached each, the two players, and the outcome
/// once there is one (`Empty` records a draw).
#[derive(Debug)]
pub struct Game {
    pub id: usize,
    pub pos: Pos,
    pub history: Vec<(Pos, Option<Vec2>)>,
    pub player_x: MixedPlayer,
    pub player_o: MixedPlayer,
    pub winner: Option<Tile>,
}

impl Game {
    /// The history starts at a position with no move, each later entry
    /// records the valid move that reached it, and the current position
    /// is the last entry.
    pub open spec fn history_wf(self) -> bool {
        &&& self.history@.len() >= 1
        &&& self.history@[0].1 is None
        &&& self.pos == self.history@.last().0
        &&& forall|i: int| 0 <= i < self.history@.len() ==> (#[trigger] self.history@[i].0).wf()
        &&& forall|i: int|
            0 < i < self.history@.len() ==> ((#[trigger] self.history@[i].1) matches Some(mv)
                && is_valid_move_spec(self.history@[i - 1].0, mv) && is_place_result(
                self.history@[i - 1].0,
                mv,
                self.history@[i].0,
            ))
    }

    pub open spec fn wf(self) -> bool {
        self.history_wf()
    }

    /// How many moves have been played: one for every history entry
    /// beyond the first, each of which records exactly one move.
    pub open spec fn moves_played(self) -> int {
        self.history@.len() - 1
    }

    /// The player whose turn it is.
    pub open spec fn on_turn_player(self) -> MixedPlayer {
        if self.pos.next_player == Tile::X {
            self.player_x
        } else {
            self.player_o
        }
    }

    /// An agent on turn has a request in flight; a human needs nothing.
    pub open spec fn on_turn_ready(self) -> bool {
        match self.on_turn_player() {
            MixedPlayer::AI(a) => a.ai_run_handle is Some,
            MixedPlayer::Human => true,
        }
    }

    /// Players keep their identity: kind, path and time limit.
    pub open spec fn same_players(a: Game, b: Game) -> bool {
        &&& match (a.player_x, b.player_x) {
            (MixedPlayer::AI(p), MixedPlayer::AI(q)) => p.path == q.path && p.time_limit
                == q.time_limit,
            (MixedPlayer::Human, MixedPlayer::Human) => true,
            _ => false,
        }
        &&& match (a.player_o, b.player_o) {
            (MixedPlayer::AI(p), MixedPlayer::AI(q)) => p.path == q.path && p.time_limit
                == q.time_limit,
            (MixedPlayer::Human, MixedPlayer::Human) => true,
            _ => false,
        }
    }

    /// Position, history and outcome all kept.
    pub open spec fn unchanged_game(a: Game, b: Game) -> bool {
        b.id == a.id && b.pos == a.pos && b.history@ == a.history@ && b.winner == a.winner
    }

    /// One valid move `mv` was applied: the history grew by the new
    /// position, and the outcome was set exactly if the game then ended.
    pub open spec fn stepped_game(a: Game, b: Game, mv: Vec2) -> bool {
        &&& b.id == a.id
        &&& is_valid_move_spec(a.pos, mv)
        &&& is_place_result(a.pos, mv, b.pos)
        &&& b.history@ == a.history@.push((b.pos, Some(mv)))
        &&& b.winner == (if b.pos.is_game_over_spec() {
            Some(b.pos.winner_spec())
        } else {
            None::<Tile>
        })
    }

    /// The on-turn player forfeited: nothing else changed, and the
    /// opponent is recorded as the winner.
    pub open spec fn forfeited_game(a: Game, b: Game) -> bool {
        &&& b.id == a.id
        &&& b.pos == a.pos
        &&& b.history@ == a.history@
        &&& b.winner == Some(a.pos.next_player.opponent_spec())
    }

    /// Exactly what one tick does to a match, case by case: a finished
    /// match, a human on turn, a missing observation and an agent still
    /// within its deadline change nothing; a timeout, a crash, an
    /// undecodable output and an illegal decoded move forfeit to the
    /// opponent; a decoded legal move is applied.
    pub open spec fn update_transition(g0: Game, g1: Game, obs: Option<ProcStatus>) -> bool {
        if g0.winner is Some {
            g1 == g0
        } else {
            match g0.on_turn_player() {
                MixedPlayer::Human => g1 == g0,
                MixedPlayer::AI(a) => match obs {
                    None => g1 == g0,
                    Some(o) => match o {
                        ProcStatus::Running { elapsed_ms } => {
                            if elapsed_ms > a.ai_run_handle->Some_0.time_limit {
                                Game::forfeited_game(g0, g1) && Game::same_players(g0, g1)
                            } else {
                                g1 == g0
                            }
                        },
                        ProcStatus::Exited { code, stdout, .. } => {
                            if code != 0 {
                                Game::forfeited_game(g0, g1) && Game::same_players(g0, g1)
                            } else if !output_ok(stdout@) {
                                Game::forfeited_game(g0, g1) && Game::same_players(g0, g1)
                            } else if !is_valid_move_spec(g0.pos, output_move(stdout@)) {
                                Game::forfeited_game(g0, g1) && Game::same_players(g0, g1)
                            } else {
                                Game::stepped_game(g0, g1, output_move(stdout@))
                                    && Game::same_players(g0, g1)
                            }
                        },
                    },
                },
            }
        }
    }

    /// A match at `pos` between `player_x` and `player_o`, no move played.
    pub fn from_pos(id: usize, player_x: MixedPlayer, player_o: MixedPlayer, pos: Pos) -> (g: Game)
        requires
            pos.wf(),
        ensures
            g.wf(),
            g.id == id,
            g.pos == pos,
            g.history@ =~= seq![(pos, None::<Vec2>)],
            g.player_x == player_x,
            g.player_o == player_o,
            g.winner is None,
    {
        let mut history: Vec<(Pos, Option<Vec2>)> = Vec::new();
        history.push((pos, None));
        let g = Game { id, pos, history, player_x, player_o, winner: None };
        proof {
            assert(g.history@ =~= seq![(pos, None::<Vec2>)]);
        }
        g
    }

    /// A match from the standard opening position.
    pub fn new(id: usize, player_x: MixedPlayer, player_o: MixedPlayer) -> (g: Game)
        ensures
            g.wf(),
            g.id == id,
            g.history@.len() == 1,
            g.player_x == player_x,
            g.player_o == player_o,
            g.winner is None,
    {
        Game::from_pos(id, player_x, player_o, Pos::new())
    }

    /// The match id as a pinned-width column, `#` and `>` around it.
    fn formatted_id(&self) -> String {
        let digits = usize_string(self.id);
        let mut s = String::from_str("#");
        if self.id < 10 {
            s.append("__");
        } else if self.id < 100 {
            s.append("_");
        }
        s.append(digits.as_str());
        s.append(">");
        s
    }

    /// Whether the match has an outcome (natural end or forfeit).
    pub fn is_game_over(&self) -> (r: bool)
        ensures
            r == (self.winner is Some),
    {
        self.winner.is_some()
    }

    /// The player whose turn it is, while the match is live.
    pub fn next_player(&self) -> (r: Option<&MixedPlayer>)
        ensures
            match r {
                Some(p) => self.winner is None && *p == self.on_turn_player(),
                None => self.winner is Some,
            },
    {
        if self.winner.is_some() {
            None
        } else if matches!(self.pos.next_player, Tile::X) {
            Some(&self.player_x)
        } else {
            Some(&self.player_o)
        }
    }

    /// The player who moved last, while some side is on turn.
    pub fn prev_player(&self) -> (r: Option<&MixedPlayer>)
        requires
            self.pos.wf(),
        ensures
            match r {
                Some(p) => *p == (if self.pos.next_player.opponent_spec() == Tile::X {
                    self.player_x
                } else {
                    self.player_o
                }),
                None => self.pos.next_player == Tile::Empty,
            },
    {
        if matches!(self.pos.next_player, Tile::Empty) {
            None
        } else if matches!(self.pos.next_player, Tile::O) {
            Some(&self.player_x)
        } else {
            Some(&self.player_o)
        }
    }

    /// Apply the valid move `mv`: extend the history, and set the outcome
    /// if the game is now over. `notes` only annotates the log line.
    pub fn play(&mut self, mv: Vec2, notes: &str, console: &mut Console)
        requires
            old(self).wf(),
            old(self).winner is None,
            is_valid_move_spec(old(self).pos, mv),
        ensures
            final(self).wf(),
            Game::stepped_game(*old(self), *final(self), mv),
            final(self).player_x == old(self).player_x,
            final(self).player_o == old(self).player_o,
            old(console).out_spec().len() <= final(console).out_spec().len(),
    {
        let mut msg = self.formatted_id();
        msg.append(" ");
        msg.append(crate::othello::tile_str(self.pos.next_player));
        msg.append(": ");
        msg.append(mv.move_string().as_str());
        msg.append(" (");
        msg.append(notes);
        msg.append(")");
        console.info(msg.as_str());
        self.pos.play(mv);
        self.history.push((self.pos, Some(mv)));
        if self.pos.is_game_over() {
            self.winner = Some(self.pos.winner());
        }
        proof {
            let a = *old(self);
            let b = *self;
            assert(b.history@.last() == (b.pos, Some(mv)));
            assert forall|i: int|
                0 < i < b.history@.len() implies ((#[trigger] b.history@[i].1) matches Some(m)
                && is_valid_move_spec(b.history@[i - 1].0, m) && is_place_result(
                b.history@[i - 1].0,
                m,
                b.history@[i].0,
            )) by {
                if i < b.history@.len() - 1 {
                    assert(b.history@[i] == a.history@[i]);
                    assert(b.history@[i - 1] == a.history@[i - 1]);
                } else {
                    assert(b.history@[i - 1] == a.history@.last());
                }
            }
        }
    }

    /// Start the on-turn player's turn. While the match is live, an agent
    /// on turn gets a request (returned for the host to perform); once the
    /// position is terminal the outcome is recorded instead.
    pub fn initialize_next_player(&mut self, console: &mut Console) -> (req: Option<SpawnRequest>)
        requires
            old(self).wf(),
        ensures
            final(self).wf(),
            final(self).id == old(self).id,
            final(self).pos == old(self).pos,
            final(self).history@ == old(self).history@,
            Game::same_players(*old(self), *final(self)),
            old(self).winner is Some ==> final(self).winner == Some(
                old(self).pos.winner_spec(),
            ),
            old(self).winner is None ==> final(self).winner is None && final(self).on_turn_ready()
                && (match final(self).on_turn_player() {
                MixedPlayer::AI(a) => a.ai_run_handle matches Some(h) && h.time_limit
                    == a.time_limit && h.input@ == crate::ai::request_spec(
                    old(self).pos,
                    a.time_limit,
                ),
                MixedPlayer::Human => true,
            }),
            old(console).out_spec().len() <= final(console).out_spec().len(),
            match req {
                Some(r) => {
                    &&& old(self).winner is None
                    &&& old(self).on_turn_player() matches MixedPlayer::AI(a)
                    &&& r.path == a.path
                    &&& r.input@ == crate::ai::request_spec(old(self).pos, a.time_limit)
                },
                None => old(self).winner is Some || old(self).on_turn_player() matches MixedPlayer::Human,
            },
    {
        if self.winner.is_some() {
            self.winner = Some(self.pos.winner());
            let mut msg = self.formatted_id();
            msg.append(" Game ended, winner: ");
            msg.append(crate::othello::tile_str(self.pos.winner()));
            console.info(msg.as_str());
            return None;
        }
        let pos = self.pos;
        if matches!(self.pos.next_player, Tile::X) {
            self.player_x.init(&pos)
        } else {
            self.player_o.init(&pos)
        }
    }

    /// Announce the match and start the first player's turn.
    pub fn initialize(&mut self, console: &mut Console) -> (req: Option<SpawnRequest>)
        requires
            old(self).wf(),
        ensures
            final(self).wf(),
            final(self).id == old(self).id,
            final(self).pos == old(self).pos,
            final(self).history@ == old(self).history@,
            Game::same_players(*old(self), *final(self)),
            old(self).winner is Some ==> final(self).winner == Some(old(self).pos.winner_spec()),
            old(self).winner is None ==> final(self).winner is None && final(self).on_turn_ready()
                && (match final(self).on_turn_player() {
                MixedPlayer::AI(a) => a.ai_run_handle matches Some(h) && h.time_limit
                    == a.time_limit && h.input@ == crate::ai::request_spec(
                    old(self).pos,
                    a.time_limit,
                ),
                MixedPlayer::Human => true,
            }),
            match req {
                Some(r) => {
                    &&& old(self).winner is None
                    &&& old(self).on_turn_player() matches MixedPlayer::AI(a)
                    &&& r.path == a.path
                    &&& r.input@ == crate::ai::request_spec(old(self).pos, a.time_limit)
                },
                None => old(self).winner is Some || old(self).on_turn_player() matches MixedPlayer::Human,
            },
    {
        let mut msg = self.formatted_id();
        msg.append(" Game Started");
        console.info(msg.as_str());
        self.initialize_next_player(console)
    }

    /// Advance the match by one poll of the on-turn player: apply a
    /// decoded legal move and start the next turn, record a forfeit, or
    /// do nothing while the player is still thinking.
    pub fn update(&mut self, obs: Option<ProcStatus>, console: &mut Console) -> (req: Option<
        SpawnRequest,
    >)
        requires
            old(self).wf(),
            old(self).winner is None ==> old(self).on_turn_ready(),
        ensures
            final(self).wf(),
            Game::same_players(*old(self), *final(self)),
            Game::update_transition(*old(self), *final(self), obs),
            final(self).winner is None ==> final(self).on_turn_ready(),
            old(self).winner is None && Game::forfeited_game(*old(self), *final(self)) && old(
                console,
            ).level.rank_spec() <= 2 ==> final(console).out_spec().len() > old(
                console,
            ).out_spec().len() && final(console).out_spec().last().0 == Level::Warning,
            !Game::unchanged_game(*old(self), *final(self)) && final(self).winner is None
                && (final(self).on_turn_player() matches MixedPlayer::AI(_)) ==> req is Some,
            match req {
                Some(r) => {
                    &&& final(self).winner is None
                    &&& final(self).on_turn_player() matches MixedPlayer::AI(a)
                    &&& r.path == a.path
                    &&& r.input@ == crate::ai::request_spec(final(self).pos, a.time_limit)
                },
                None => true,
            },
    {
        if self.winner.is_some() {
            return None;
        }
        let pos = self.pos;
        let result = if matches!(self.pos.next_player, Tile::X) {
            self.player_x.update(&pos, obs)
        } else {
            self.player_o.update(&pos, obs)
        };
        match result {
            UpdateResult::Moved { mv, notes } => {
                self.play(mv, notes.as_str(), console);
                let req = self.initialize_next_player(console);
                proof {
                    assert(Game::stepped_game(*old(self), *self, mv));
                }
                req
            },
            UpdateResult::Fail { report } => {
                let mut msg = self.formatted_id();
                msg.append(" Player ");
                msg.append(crate::othello::tile_str(self.pos.next_player));
                msg.append(" Error:\n");
                msg.append(report.as_str());
                console.warn(msg.as_str());
                self.winner = Some(self.pos.next_player.opponent());
                None
            },
            UpdateResult::Wait => None,
        }
    }

    /// Stop the on-turn player before a run of manual undos; reports
    /// whether the host must kill an agent process.
    pub fn manual_interrupt(&mut self, console: &mut Console) -> (kill: bool)
        requires
            old(self).wf(),
        ensures
            final(self).wf(),
            final(self).id == old(self).id,
            final(self).pos == old(self).pos,
            final(self).history@ == old(self).history@,
            final(self).winner == old(self).winner,
            Game::same_players(*old(self), *final(self)),
            old(self).winner is Some ==> *final(self) == *old(self),
            old(self).winner is None ==> (match final(self).on_turn_player() {
                MixedPlayer::AI(a) => a.ai_run_handle is None,
                MixedPlayer::Human => true,
            }) && (if old(self).pos.next_player == Tile::X {
                final(self).player_o == old(self).player_o
            } else {
                final(self).player_x == old(self).player_x
            }),
            kill == (old(self).winner is None && (match old(self).on_turn_player() {
                MixedPlayer::AI(a) => a.ai_run_handle is Some,
                MixedPlayer::Human => false,
            })),
    {
        let _ = console;
        if self.winner.is_some() {
            return false;
        }
        if matches!(self.pos.next_player, Tile::X) {
            self.player_x.interrupt()
        } else {
            self.player_o.interrupt()
        }
    }

    /// Take back the last move: drop the final history entry and clear
    /// the outcome. Use between `manual_interrupt` and a final
    /// `initialize_next_player`.
    pub fn manual_undo(&mut self, console: &mut Console)
        requires
            old(self).wf(),
            old(self).history@.len() >= 2,
        ensures
            final(self).wf(),
            final(self).id == old(self).id,
            final(self).history@ == old(self).history@.drop_last(),
            final(self).pos == old(self).history@[old(self).history@.len() - 2].0,
            final(self).winner is None,
            final(self).player_x == old(self).player_x,
            final(self).player_o == old(self).player_o,
            old(console).out_spec().len() <= final(console).out_spec().len(),
    {
        self.winner = None;
        let _ = self.history.pop();
        let mut msg = self.formatted_id();
        msg.append(" Undid move");
        console.info(msg.as_str());
        let last = self.history.len() - 1;
        self.pos = self.history[last].0;
        proof {
            assert(final(self).history@ =~= old(self).history@.drop_last());
        }
    }

    /// Take back the last `moves` moves in one call: interrupt the
    /// on-turn player, drop that many history entries, and resume.
    /// Reports whether the host must kill a process, and the spawn
    /// request of the player then on turn, if it is an agent.
    pub fn undo(&mut self, console: &mut Console, moves: usize) -> (r: (bool, Option<
        SpawnRequest,
    >))
        requires
            old(self).wf(),
            moves < old(self).history@.len(),
        ensures
            final(self).wf(),
            final(self).id == old(self).id,
            final(self).history@ == old(self).history@.take(old(self).history@.len() - moves),
            final(self).pos == old(self).history@[old(self).history@.len() - moves - 1].0,
            final(self).winner is None,
            final(self).on_turn_ready(),
            Game::same_players(*old(self), *final(self)),
            r.0 == (old(self).winner is None && (match old(self).on_turn_player() {
                MixedPlayer::AI(a) => a.ai_run_handle is Some,
                MixedPlayer::Human => false,
            })),
            match r.1 {
                Some(rq) => final(self).on_turn_player() matches MixedPlayer::AI(a) && rq.path
                    == a.path && rq.input@ == crate::ai::request_spec(
                    final(self).pos,
                    a.time_limit,
                ),
                None => final(self).on_turn_player() matches MixedPlayer::Human,
            },
    {
        let kill = if self.winner.is_none() {
            if matches!(self.pos.next_player, Tile::X) {
                self.player_x.interrupt()
            } else {
                self.player_o.interrupt()
            }
        } else {
            false
        };
        self.winner = None;
        proof {
            assert(old(self).history@.take(old(self).history@.len() as int) =~= old(
                self,
            ).history@);
        }
        let mut i: usize = 0;
        while i < moves
            invariant
                i <= moves,
                self.history@ == old(self).history@.take(old(self).history@.len() - i),
                self.id == old(self).id,
                Game::same_players(*old(self), *self),
                self.winner is None,
            decreases moves - i,
        {
            let _ = self.history.pop();
            let mut msg = self.formatted_id();
            msg.append(" Undid move");
            console.info(msg.as_str());
            i += 1;
            proof {
                assert(self.history@ =~= old(self).history@.take(
                    old(self).history@.len() - i,
                ));
            }
        }
        let last = self.history.len() - 1;
        self.pos = self.history[last].0;
        proof {
            assert(self.history@.last() == old(self).history@[old(self).history@.len() - moves
                - 1]);
            assert forall|i: int| 0 <= i < self.history@.len() implies (
            #[trigger] self.history@[i].0).wf() by {
                assert(self.history@[i] == old(self).history@[i]);
            }
        }
        let req = self.initialize_next_player(console);
        (kill, req)
    }

    /// The winning player, where the recorded outcome names a side.
    pub fn winner_player(&self) -> (r: Option<&MixedPlayer>)
        ensures
            match r {
                Some(p) => (self.winner == Some(Tile::X) && *p == self.player_x) || (self.winner
                    == Some(Tile::O) && *p == self.player_o),
                None => self.winner is None || self.winner == Some(Tile::Empty),
            },
    {
        match self.winner {
            Some(Tile::X) => Some(&self.player_x),
            Some(Tile::O) => Some(&self.player_o),
            _ => None,
        }
    }

    /// `tile`'s score in half-points: 2 for a win, 1 for a draw, 0 for a
    /// loss.
    pub open spec fn score_for_spec(self, tile: Tile) -> int {
        match self.winner->Some_0.relation_spec(tile) {
            Relation::Same => 2,
            Relation::Neutral => 1,
            Relation::Opponent => 0,
        }
    }

    /// `tile`'s score of a finished match, in half-points.
    pub fn score_for(&self, tile: Tile) -> (r: u32)
        requires
            self.winner is Some,
            tile != Tile::Empty,
        ensures
            r == self.score_for_spec(tile),
            r <= 2,
    {
        let winner = match self.winner {
            Some(w) => w,
            None => Tile::Empty,
        };
        match winner.relation(tile) {
            Relation::Same => 2,
            Relation::Neutral => 1,
            Relation::Opponent => 0,
        }
    }
}

/// A finished match is zero-sum: the two sides' half-point scores always
/// add up to one full point.
pub proof fn lemma_score_zero_sum(g: Game)
    requires
        g.winner is Some,
    ensures
        g.score_for_spec(Tile::X) + g.score_for_spec(Tile::O) == 2,
{
}

/// The history always holds one entry more than the number of moves
/// played, and every entry beyond the first records exactly one move.
pub proof fn lemma_history_counts(g: Game)
    requires
        g.wf(),
    ensures
        g.history@.len() == g.moves_played() + 1,
        forall|i: int| 0 < i < g.history@.len() ==> (#[trigger] g.history@[i].1) is Some,
        g.history@[0].1 is None,
{
}

/// The same `n` moves, replayed in order from where an `n`-move undo
/// lands, pass through exactly the history entries the undo removed:
/// undo followed by replay restores the history.
pub proof fn lemma_undo_replay(g: Game, n: int, replayed: Seq<Pos>)
    requires
        g.wf(),
        0 <= n < g.history@.len(),
        replayed.len() == n,
        // each replayed step applies the move the history recorded there,
        // starting from the position the undo leaves current
        forall|i: int|
            0 <= i < n ==> is_place_result(
                if i == 0 {
                    g.history@[g.history@.len() - n - 1].0
                } else {
                    replayed[i - 1]
                },
                g.history@[g.history@.len() - n + i].1->Some_0,
                #[trigger] replayed[i],
            ),
    ensures
        forall|i: int| 0 <= i < n ==> #[trigger] replayed[i] == g.history@[g.history@.len() - n + i].0,
{
    assert forall|i: int| 0 <= i < n implies #[trigger] replayed[i] == g.history@[g.history@.len()
        - n + i].0 by {
        lemma_undo_replay_step(g, n, replayed, i);
    }
}

#[verifier::rlimit(80)]
#[verifier::spinoff_prover]
proof fn lemma_undo_replay_step(g: Game, n: int, replayed: Seq<Pos>, k: int)
    requires
        g.wf(),
        0 <= n < g.history@.len(),
        replayed.len() == n,
        0 <= k < n,
        forall|i: int|
            0 <= i < n ==> is_place_result(
                if i == 0 {
                    g.history@[g.history@.len() - n - 1].0
                } else {
                    replayed[i - 1]
                },
                g.history@[g.history@.len() - n + i].1->Some_0,
                #[trigger] replayed[i],
            ),
    ensures
        replayed[k] == g.history@[g.history@.len() - n + k].0,
    decreases k,
{
    let len = g.history@.len();
    let prev = if k == 0 {
        g.history@[len - n - 1].0
    } else {
        replayed[k - 1]
    };
    if k > 0 {
        lemma_undo_replay_step(g, n, replayed, k - 1);
    }
    assert(prev == g.history@[len - n + k - 1].0);
    assert(is_place_result(prev, g.history@[len - n + k].1->Some_0, replayed[k]));
    assert(is_place_result(
        g.history@[len - n + k - 1].0,
        g.history@[len - n + k].1->Some_0,
        g.history@[len - n + k].0,
    ));
    lemma_place_deterministic(
        prev,
        g.history@[len - n + k].1->Some_0,
        replayed[k],
        g.history@[len - n + k].0,
    );
}

/// The "current position, previous position, last move" view a front end
/// renders.
pub struct DisplayPos {
    pub cur: Pos,
    pub last: Pos,
    pub last_move: Option<Vec2>,
}

/// Anything that can hand a front end a position to draw.
pub trait Showable {
    fn display_pos(&self) -> DisplayPos;
}

impl Game {
    /// The view of this match for a front end: the current position, the
    /// one before it, and the move between them.
    pub fn game_display_pos(&self) -> (r: DisplayPos)
        requires
            self.wf(),
        ensures
            r.cur == self.pos,
            r.last == self.history@[if self.history@.len() >= 2 {
                self.history@.len() - 2
            } else {
                0
            }].0,
            r.last_move == self.history@.last().1,
    {
        let len = self.history.len();
        let last_idx = if len >= 2 {
            len - 2
        } else {
            0
        };
        DisplayPos {
            cur: self.pos,
            last: self.history[last_idx].0,
            last_move: self.history[len - 1].1,
        }
    }
}

impl Showable for Game {
    fn display_pos(&self) -> DisplayPos {
        let len = self.history.len();
        if len == 0 {
            return DisplayPos { cur: self.pos, last: self.pos, last_move: None };
        }
        let last_idx = if len >= 2 {
            len - 2
        } else {
            0
        };
        DisplayPos {
            cur: self.pos,
            last: self.history[last_idx].0,
            last_move: self.history[len - 1].1,
        }
    }
}

} // verus!
