//! A single interactively displayed match: the one human-facing front end
//! drives it by injecting moves and taking back turns.
use crate::ai::{request_spec, SpawnRequest};
use crate::console::Console;
use crate::game::{DisplayPos, Game, Showable};
use crate::mixed_player::MixedPlayer;
use crate::othello::Tile;
use vstd::prelude::*;

verus! {

/// One match shown to and driven by a person.
#[derive(Debug)]
pub struct Visual {
    pub game: Game,
    pub console: Console,
}

/// Whether, with the history cut back to `k` entries, a human would be on
/// turn: the mover of the `k`-th recorded position is the human seat.
pub open spec fn human_on_turn_at(g: Game, k: int) -> bool {
    (if g.history@[k - 1].0.next_player == Tile::X {
        g.player_x
    } else {
        g.player_o
    }) is Human
}

impl Visual {
    /// Take back moves until a human is on turn again — never in an
    /// agent-versus-agent match — then resume: the history shrinks to the
    /// longest proper prefix with the human to move (or to the opening
    /// entry), the outcome is cleared, and the player then on turn is
    /// re-initialized. Reports whether the host must kill an agent
    /// process, and the resumed agent's request, if one is due.
    pub fn undo(&mut self) -> (r: (bool, Option<SpawnRequest>))
        requires
            old(self).game.wf(),
        ensures
            final(self).game.wf(),
            Game::same_players(old(self).game, final(self).game),
            final(self).game.id == old(self).game.id,
            1 <= final(self).game.history@.len() <= old(self).game.history@.len(),
            final(self).game.history@ == old(self).game.history@.take(
                final(self).game.history@.len() as int,
            ),
            (old(self).game.player_x matches MixedPlayer::AI(_) && old(self).game.player_o matches MixedPlayer::AI(_)) ==> *final(self) == *old(self) && r.0
                == false && r.1 is None,
            !(old(self).game.player_x matches MixedPlayer::AI(_) && old(self).game.player_o matches MixedPlayer::AI(_)) ==> {
                let taken = final(self).game.history@.len() as int;
                let whole = old(self).game.history@.len() as int;
                &&& (whole >= 2 ==> taken < whole && final(self).game.winner is None && final(self).game.on_turn_ready())
                &&& (taken > 1 ==> human_on_turn_at(old(self).game, taken))
                &&& (forall|k: int|
                    taken < k < whole ==> !human_on_turn_at(old(self).game, k))
                &&& r.0 == (old(self).game.winner is None && (match old(self).game.on_turn_player() {
                    MixedPlayer::AI(a) => a.ai_run_handle is Some,
                    MixedPlayer::Human => false,
                }))
                &&& match r.1 {
                    Some(rq) => final(self).game.on_turn_player() matches MixedPlayer::AI(a)
                        && rq.path == a.path && rq.input@ == request_spec(
                        final(self).game.pos,
                        a.time_limit,
                    ),
                    None => final(self).game.winner is Some || final(self).game.on_turn_player() matches MixedPlayer::Human,
                }
            },
    {
        let both_ai = matches!(self.game.player_x, MixedPlayer::AI(_)) && matches!(
            self.game.player_o,
            MixedPlayer::AI(_),
        );
        if both_ai {
            proof {
                assert(old(self).game.history@.take(old(self).game.history@.len() as int)
                    =~= old(self).game.history@);
            }
            return (false, None);
        }
        let kill = self.game.manual_interrupt(&mut self.console);
        let ghost g0 = old(self).game;
        proof {
            assert(self.game.history@ =~= g0.history@.take(self.game.history@.len() as int));
        }
        #[verifier::loop_isolation(true)]
        while self.game.history.len() >= 2
            invariant_except_break
                self.game.history@.len() < g0.history@.len() ==> !human_on_turn_at(
                    g0,
                    self.game.history@.len() as int,
                ),
            invariant
                g0.wf(),
                self.game.wf(),
                Game::same_players(g0, self.game),
                self.game.id == g0.id,
                1 <= self.game.history@.len() <= g0.history@.len(),
                self.game.history@ == g0.history@.take(self.game.history@.len() as int),
                self.game.history@.len() < g0.history@.len() ==> self.game.winner is None,
                forall|k: int|
                    self.game.history@.len() < k < g0.history@.len() ==> !human_on_turn_at(g0, k),
            ensures
                g0.wf(),
                self.game.wf(),
                Game::same_players(g0, self.game),
                self.game.id == g0.id,
                1 <= self.game.history@.len() <= g0.history@.len(),
                self.game.history@ == g0.history@.take(self.game.history@.len() as int),
                self.game.history@.len() < g0.history@.len() ==> self.game.winner is None,
                g0.history@.len() >= 2 ==> self.game.history@.len() < g0.history@.len(),
                self.game.history@.len() > 1 ==> human_on_turn_at(
                    g0,
                    self.game.history@.len() as int,
                ),
                forall|k: int|
                    self.game.history@.len() < k < g0.history@.len() ==> !human_on_turn_at(g0, k),
            decreases self.game.history@.len(),
        {
            self.game.manual_undo(&mut self.console);
            proof {
                assert(self.game.history@ =~= g0.history@.take(
                    self.game.history@.len() as int,
                ));
            }
            let stop = match self.game.next_player() {
                Some(p) => matches!(p, MixedPlayer::Human),
                None => false,
            };
            proof {
                let len_now = self.game.history@.len() as int;
                assert(self.game.pos == g0.history@[len_now - 1].0);
                assert(stop == human_on_turn_at(g0, len_now));
            }
            if stop {
                break ;
            }
        }
        let req = self.game.initialize_next_player(&mut self.console);
        (kill, req)
    }
}

impl Showable for Visual {
    fn display_pos(&self) -> DisplayPos {
        self.game.display_pos()
    }
}

} // verus!
