//! The player abstraction: a closed sum of the two player kinds. An
//! agent-backed player delegates to the process supervisor; a human-backed
//! player is inert — its moves are injected from outside through
//! `Game::play` once the front end has validated them.
use crate::ai::{ai_update_ensures, request_spec, ProcStatus, SpawnRequest, AI};
use crate::game::UpdateResult;
use crate::othello::{is_valid_move_spec, Pos};
use vstd::prelude::*;

verus! {

/// A player: an external agent program, or a human moving from outside.
#[derive(Debug)]
pub enum MixedPlayer {
    AI(AI),
    Human,
}

impl MixedPlayer {
    /// A copy of this player; an agent can be copied only while no
    /// request of it is in flight.
    pub fn try_clone(&self) -> (r: Result<MixedPlayer, String>)
        ensures
            match self {
                MixedPlayer::Human => r matches Ok(p) && p is Human,
                MixedPlayer::AI(a) => {
                    if a.ai_run_handle is None {
                        r matches Ok(p) && (p matches MixedPlayer::AI(b) && b.path@ == a.path@
                            && b.time_limit == a.time_limit && b.ai_run_handle is None)
                    } else {
                        r is Err
                    }
                },
            },
    {
        match self {
            MixedPlayer::AI(ai) => {
                match ai.try_clone() {
                    Ok(c) => Ok(MixedPlayer::AI(c)),
                    Err(e) => Err(e),
                }
            },
            MixedPlayer::Human => Ok(MixedPlayer::Human),
        }
    }

    /// The player's name: an agent's path, or `human`.
    pub fn name(&self) -> (r: String)
        ensures
            match self {
                MixedPlayer::AI(a) => r@ == a.path@,
                MixedPlayer::Human => r@ == "human"@,
            },
    {
        match self {
            MixedPlayer::AI(ai) => ai.name(),
            MixedPlayer::Human => String::from_str("human"),
        }
    }

    /// Start a turn at `pos`: an agent gets a request issued (returned
    /// for the host to perform); a human needs nothing.
    pub fn init(&mut self, pos: &Pos) -> (req: Option<SpawnRequest>)
        requires
            pos.wf(),
        ensures
            match *old(self) {
                MixedPlayer::Human => (*final(self)) is Human && req is None,
                MixedPlayer::AI(a0) => {
                    &&& (*final(self)) matches MixedPlayer::AI(a1) && a1.path == a0.path
                        && a1.time_limit == a0.time_limit && (a1.ai_run_handle matches Some(h)
                        && h.time_limit == a0.time_limit && h.input@ == request_spec(
                        *pos,
                        a0.time_limit,
                    ))
                    &&& req matches Some(r) && r.path == a0.path && r.input@ == request_spec(
                        *pos,
                        a0.time_limit,
                    )
                },
            },
    {
        match self {
            MixedPlayer::AI(ai) => Some(ai.init(pos)),
            MixedPlayer::Human => None,
        }
    }

    /// Poll the player once: a human always waits; an agent's outstanding
    /// request is classified from the host's observation `obs`.
    pub fn update(&mut self, pos: &Pos, obs: Option<ProcStatus>) -> (r: UpdateResult)
        requires
            pos.wf(),
            (*old(self)) matches MixedPlayer::AI(a) ==> a.ai_run_handle is Some,
        ensures
            r matches UpdateResult::Moved { mv, .. } ==> is_valid_move_spec(*pos, mv),
            match *old(self) {
                MixedPlayer::Human => (*final(self)) is Human && r is Wait,
                MixedPlayer::AI(a0) => (*final(self)) matches MixedPlayer::AI(a1) && (match obs {
                    Some(o) => ai_update_ensures(a0, a1, *pos, o, r),
                    None => a1 == a0 && r is Wait,
                }),
            },
    {
        match self {
            MixedPlayer::AI(ai) => {
                match obs {
                    Some(o) => ai.update(pos, o),
                    None => UpdateResult::Wait,
                }
            },
            MixedPlayer::Human => UpdateResult::Wait,
        }
    }

    /// Abandon an outstanding request; reports whether the host must
    /// kill an agent process.
    pub fn interrupt(&mut self) -> (kill: bool)
        ensures
            match *old(self) {
                MixedPlayer::Human => (*final(self)) is Human && !kill,
                MixedPlayer::AI(a0) => (*final(self)) matches MixedPlayer::AI(a1) && a1.path
                    == a0.path && a1.time_limit == a0.time_limit && a1.ai_run_handle is None
                    && kill == (a0.ai_run_handle is Some),
            },
    {
        match self {
            MixedPlayer::AI(ai) => ai.interrupt(),
            MixedPlayer::Human => false,
        }
    }
}

} // verus!
