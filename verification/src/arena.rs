//! The arena scheduler: a batch of matches advanced one tick at a time
//! under a bounded-concurrency budget, with the final outcomes aggregated
//! into a pairwise comparison or a round-robin tournament report.
use crate::ai::{request_spec, ProcStatus, SpawnRequest};
use crate::console::Console;
use crate::elo;
use crate::game::{DisplayPos, Game, Showable};
use crate::mixed_player::MixedPlayer;
use crate::othello::Tile;
use crate::text::{dec_spec, usize_string};
use vstd::prelude::*;
use vstd::multiset::Multiset;

verus! {

/// The arena's reporting strategy.
#[derive(Debug, Clone, Copy, PartialEq, Eq, Hash, Structural)]
pub enum Submode {
    Compare,
    Tournament,
}

/// One line of a tournament report: a participant, its estimated rating
/// (scaled by `elo::SCALE`), and its total score in half-points.
#[derive(Debug)]
pub struct TournamentRow {
    pub path: String,
    pub elo: i64,
    pub score: u64,
}

/// The batch outcome: two aggregate scores for a comparison, or rated and
/// scored participants, best score first, for a tournament. Scores are in
/// half-points throughout.
#[derive(Debug)]
pub enum Report {
    Compare { score1: u64, score2: u64 },
    Tournament(Vec<TournamentRow>),
}

/// What one scheduler tick asks of the host: agent processes to start,
/// and the final report once every match has ended.
#[derive(Debug)]
pub struct ArenaTick {
    pub spawns: Vec<(usize, SpawnRequest)>,
    pub report: Option<Report>,
}

/// How many of the first `upto` matches have no outcome yet.
pub open spec fn count_ongoing(gs: Seq<Game>, upto: int) -> int
    decreases upto,
{
    if upto <= 0 {
        0
    } else {
        count_ongoing(gs, upto - 1) + (if gs[upto - 1].winner is None {
            1int
        } else {
            0int
        })
    }
}

/// Replacing one match with one whose outcome is no fresher never raises
/// the number of ongoing matches.
proof fn lemma_count_ongoing_update(gs1: Seq<Game>, gs2: Seq<Game>, i: int, upto: int)
    requires
        gs1.len() == gs2.len(),
        0 <= i < gs1.len(),
        forall|j: int| 0 <= j < gs1.len() && j != i ==> gs2[j] == gs1[j],
        gs2[i].winner is None ==> gs1[i].winner is None,
        upto <= gs1.len(),
    ensures
        count_ongoing(gs2, upto) <= count_ongoing(gs1, upto),
    decreases upto,
{
    if upto > 0 {
        lemma_count_ongoing_update(gs1, gs2, i, upto - 1);
    }
}

/// Extending the admitted range by one started match counts it as ongoing
/// exactly when it has no outcome.
proof fn lemma_count_ongoing_unfold(gs: Seq<Game>, upto: int)
    requires
        0 < upto <= gs.len(),
    ensures
        count_ongoing(gs, upto) == count_ongoing(gs, upto - 1) + (if gs[upto - 1].winner is None {
            1int
        } else {
            0int
        }),
{
}

/// What admitting a queued match does: nothing of the match state moves,
/// and the on-turn player has its request issued — for an agent, a
/// recorded handle carrying the exact request for the match's position.
pub open spec fn started_from(g0: Game, g1: Game) -> bool {
    &&& g1.id == g0.id
    &&& g1.pos == g0.pos
    &&& g1.history@ == g0.history@
    &&& g1.winner == g0.winner
    &&& Game::same_players(g0, g1)
    &&& g1.on_turn_ready()
    &&& match g1.on_turn_player() {
        MixedPlayer::AI(a) => a.ai_run_handle matches Some(h) && h.time_limit == a.time_limit
            && h.input@ == request_spec(g0.pos, a.time_limit),
        MixedPlayer::Human => true,
    }
}

/// A queued match was admitted this tick and then advanced once: some
/// just-started state lies between the old one and the new one.
pub open spec fn admitted_then_updated(g0: Game, g1: Game, obs: Option<ProcStatus>) -> bool {
    exists|mid: Game| started_from(g0, mid) && #[trigger] Game::update_transition(mid, g1, obs)
}

/// The name a match slot reports for a player.
pub open spec fn player_path(p: MixedPlayer) -> Seq<char> {
    match p {
        MixedPlayer::AI(a) => a.path@,
        MixedPlayer::Human => "human"@,
    }
}

/// The distinct participant names of the first `i` matches, in order of
/// first appearance (first seat before second).
pub open spec fn seen_paths(gs: Seq<Game>, i: int) -> Seq<Seq<char>>
    decreases i,
{
    if i <= 0 {
        Seq::empty()
    } else {
        let prev = seen_paths(gs, i - 1);
        let px = player_path(gs[i - 1].player_x);
        let po = player_path(gs[i - 1].player_o);
        let withx = if prev.contains(px) {
            prev
        } else {
            prev.push(px)
        };
        if withx.contains(po) {
            withx
        } else {
            withx.push(po)
        }
    }
}

/// The half-points `path` collected over the first `i` matches.
pub open spec fn path_score_upto(gs: Seq<Game>, i: int, path: Seq<char>) -> int
    decreases i,
{
    if i <= 0 {
        0
    } else {
        path_score_upto(gs, i - 1, path) + (if player_path(gs[i - 1].player_x) == path {
            gs[i - 1].score_for_spec(Tile::X)
        } else {
            0int
        }) + (if player_path(gs[i - 1].player_o) == path {
            gs[i - 1].score_for_spec(Tile::O)
        } else {
            0int
        })
    }
}

/// The position of `p` in `names` (its length when absent).
pub open spec fn index_of_path(names: Seq<Seq<char>>, p: Seq<char>) -> int
    decreases names.len(),
{
    if names.len() == 0 {
        0
    } else if names[0] == p {
        0
    } else {
        1 + index_of_path(names.drop_first(), p)
    }
}

proof fn lemma_index_of_path(names: Seq<Seq<char>>, p: Seq<char>)
    requires
        names.contains(p),
    ensures
        0 <= index_of_path(names, p) < names.len(),
        names[index_of_path(names, p)] == p,
    decreases names.len(),
{
    if names[0] != p {
        assert(names.drop_first().contains(p)) by {
            let w = choose|w: int| 0 <= w < names.len() && names[w] == p;
            assert(names.drop_first()[w - 1] == p);
        }
        lemma_index_of_path(names.drop_first(), p);
    }
}

/// Names once seen stay seen as more matches are taken in.
proof fn lemma_seen_paths_monotone(gs: Seq<Game>, i: int, j: int, p: Seq<char>)
    requires
        0 <= i <= j,
        seen_paths(gs, i).contains(p),
    ensures
        seen_paths(gs, j).contains(p),
    decreases j - i,
{
    if i < j {
        lemma_seen_paths_monotone(gs, i, j - 1, p);
        let prev = seen_paths(gs, j - 1);
        let w = choose|w: int| 0 <= w < prev.len() && prev[w] == p;
        let px = player_path(gs[j - 1].player_x);
        let withx = if prev.contains(px) {
            prev
        } else {
            prev.push(px)
        };
        assert(withx[w] == p);
        assert(withx.contains(p));
        let po = player_path(gs[j - 1].player_o);
        if !withx.contains(po) {
            assert(withx.push(po)[w] == p);
        }
    }
}

/// Both players of every match taken in so far are among the seen names.
proof fn lemma_seen_paths_complete(gs: Seq<Game>, i: int, g: int)
    requires
        0 <= g < i <= gs.len(),
    ensures
        seen_paths(gs, i).contains(player_path(gs[g].player_x)),
        seen_paths(gs, i).contains(player_path(gs[g].player_o)),
{
    let prev = seen_paths(gs, g);
    let px = player_path(gs[g].player_x);
    let po = player_path(gs[g].player_o);
    let withx = if prev.contains(px) {
        prev
    } else {
        prev.push(px)
    };
    assert(withx.contains(px)) by {
        if prev.contains(px) {
            let w = choose|w: int| 0 <= w < prev.len() && prev[w] == px;
            assert(withx[w] == px);
        } else {
            assert(withx[withx.len() - 1] == px);
        }
    }
    let all = seen_paths(gs, g + 1);
    assert(all.contains(po)) by {
        if withx.contains(po) {
            let w = choose|w: int| 0 <= w < withx.len() && withx[w] == po;
            if all == withx {
                assert(all[w] == po);
            } else {
                assert(all[w] == po);
            }
        } else {
            assert(all[all.len() - 1] == po);
        }
    }
    assert(all.contains(px)) by {
        let w = choose|w: int| 0 <= w < withx.len() && withx[w] == px;
        if all != withx {
            assert(all[w] == px);
        }
    }
    lemma_seen_paths_monotone(gs, g + 1, i, px);
    lemma_seen_paths_monotone(gs, g + 1, i, po);
}

/// The rating-engine view of the matches: participant indices within
/// `names`, and the first seat's half-point score.
pub open spec fn elo_games_spec(gs: Seq<Game>, names: Seq<Seq<char>>) -> Seq<elo::Game> {
    Seq::new(
        gs.len(),
        |i: int|
            elo::Game {
                players: (
                    index_of_path(names, player_path(gs[i].player_x)) as usize,
                    index_of_path(names, player_path(gs[i].player_o)) as usize,
                ),
                score_half: gs[i].score_for_spec(Tile::X) as u32,
            },
    )
}

/// The two aggregate scores of a comparison over the first `i` matches:
/// the first competitor holds the first seat of even matches and the
/// second seat of odd ones, its rival the other seat.
pub open spec fn compare_scores_upto(gs: Seq<Game>, i: int) -> (int, int)
    decreases i,
{
    if i <= 0 {
        (0int, 0int)
    } else {
        let prev = compare_scores_upto(gs, i - 1);
        if (i - 1) % 2 == 0 {
            (prev.0 + gs[i - 1].score_for_spec(Tile::X), prev.1 + gs[i - 1].score_for_spec(Tile::O))
        } else {
            (prev.0 + gs[i - 1].score_for_spec(Tile::O), prev.1 + gs[i - 1].score_for_spec(Tile::X))
        }
    }
}

/// The arena: a flat list of matches, of which `[0, first_unstarted)`
/// have been admitted, a concurrency budget, and a reporting submode.
#[derive(Debug)]
pub struct AIArena {
    pub games: Vec<Game>,
    pub showed_game_idx: usize,
    pub first_unstarted: usize,
    pub max_concurrency: usize,
    pub console: Console,
    pub submode: Submode,
}

impl AIArena {
    /// Admission control and bookkeeping stay coherent: admitted matches
    /// are ready, queued matches are untouched, and the number of
    /// admitted-but-unfinished matches never exceeds the budget.
    pub open spec fn wf(self) -> bool {
        &&& 1 <= self.games@.len() <= 10000
        &&& self.first_unstarted <= self.games@.len()
        &&& self.showed_game_idx < self.games@.len()
        &&& self.max_concurrency >= 1
        &&& forall|i: int| 0 <= i < self.games@.len() ==> (#[trigger] self.games@[i]).wf()
        &&& forall|i: int|
            0 <= i < self.first_unstarted && (#[trigger] self.games@[i]).winner is None
                ==> self.games@[i].on_turn_ready()
        &&& forall|i: int|
            self.first_unstarted <= i < self.games@.len() ==> (#[trigger] self.games@[i]).winner
                is None
        &&& count_ongoing(self.games@, self.first_unstarted as int) <= self.max_concurrency
    }

    /// An arena over `games`, none yet admitted.
    pub fn new(games: Vec<Game>, max_concurrency: usize, console: Console, submode: Submode) -> (a:
        AIArena)
        requires
            1 <= games@.len() <= 10000,
            max_concurrency >= 1,
            forall|i: int| 0 <= i < games@.len() ==> (#[trigger] games@[i]).wf(),
            forall|i: int| 0 <= i < games@.len() ==> (#[trigger] games@[i]).winner is None,
        ensures
            a.wf(),
            a.games@ == games@,
            a.first_unstarted == 0,
            a.showed_game_idx == 0,
            a.max_concurrency == max_concurrency,
            a.submode == submode,
    {
        AIArena {
            games,
            showed_game_idx: 0,
            first_unstarted: 0,
            max_concurrency,
            console,
            submode,
        }
    }

    /// Admit queued matches, in index order, while the budget allows.
    fn start_new_games(&mut self) -> (spawns: Vec<(usize, SpawnRequest)>)
        requires
            old(self).wf(),
        ensures
            final(self).wf(),
            final(self).games@.len() == old(self).games@.len(),
            final(self).max_concurrency == old(self).max_concurrency,
            final(self).submode == old(self).submode,
            final(self).showed_game_idx == old(self).showed_game_idx,
            final(self).first_unstarted >= old(self).first_unstarted,
            final(self).first_unstarted >= 1,
            final(self).first_unstarted as int <= old(self).first_unstarted + (old(
                self,
            ).max_concurrency - count_ongoing(old(self).games@, old(self).first_unstarted as int)),
            final(self).first_unstarted as int == old(self).first_unstarted + (old(
                self,
            ).max_concurrency - count_ongoing(old(self).games@, old(self).first_unstarted as int))
                || final(self).first_unstarted == final(self).games@.len(),
            forall|i: int|
                old(self).first_unstarted <= i < final(self).first_unstarted ==> started_from(
                    old(self).games@[i],
                    #[trigger] final(self).games@[i],
                ),
            forall|i: int|
                final(self).first_unstarted <= i < final(self).games@.len()
                    ==> #[trigger] final(self).games@[i] == old(self).games@[i],
            forall|k: int|
                0 <= k < spawns@.len() ==> (#[trigger] spawns@[k]).0 < final(self).first_unstarted,
            forall|i: int|
                0 <= i < old(self).first_unstarted ==> final(self).games@[i] == old(self).games@[i],
            forall|i: int|
                0 <= i < old(self).games@.len() ==> Game::same_players(
                    #[trigger] old(self).games@[i],
                    final(self).games@[i],
                ) && final(self).games@[i].id == old(self).games@[i].id && final(self).games@[i].history@ == old(self).games@[i].history@ && final(self).games@[i].winner == old(self).games@[i].winner && final(self).games@[i].pos
                    == old(self).games@[i].pos,
    {
        let mut ongoing: usize = 0;
        let mut i: usize = 0;
        while i < self.first_unstarted
            invariant
                i <= self.first_unstarted <= self.games@.len(),
                ongoing == count_ongoing(self.games@, i as int),
                ongoing <= i,
            decreases self.first_unstarted - i,
        {
            if !self.games[i].is_game_over() {
                ongoing += 1;
            }
            i += 1;
        }
        let can_start = self.max_concurrency - ongoing;
        let mut started: usize = 0;
        let mut spawns: Vec<(usize, SpawnRequest)> = Vec::new();
        let ghost arena0 = *self;
        while started < can_start && self.first_unstarted < self.games.len()
            invariant
                started <= can_start,
                can_start + ongoing == self.max_concurrency,
                self.first_unstarted == arena0.first_unstarted + started,
                self.games@.len() == arena0.games@.len(),
                self.max_concurrency == arena0.max_concurrency,
                self.submode == arena0.submode,
                self.showed_game_idx == arena0.showed_game_idx,
                arena0.first_unstarted <= self.first_unstarted <= self.games@.len(),
                ongoing == count_ongoing(arena0.games@, arena0.first_unstarted as int),
                count_ongoing(self.games@, self.first_unstarted as int) <= ongoing + started,
                arena0.wf(),
                forall|i: int| 0 <= i < self.games@.len() ==> (#[trigger] self.games@[i]).wf(),
                forall|i: int|
                    0 <= i < self.first_unstarted && (#[trigger] self.games@[i]).winner is None
                        ==> self.games@[i].on_turn_ready(),
                forall|i: int|
                    self.first_unstarted <= i < self.games@.len() ==> (
                    #[trigger] self.games@[i]).winner is None,
                forall|i: int|
                    0 <= i < arena0.first_unstarted ==> #[trigger] self.games@[i]
                        == arena0.games@[i],
                forall|i: int|
                    0 <= i < self.games@.len() ==> Game::same_players(
                        #[trigger] arena0.games@[i],
                        self.games@[i],
                    ) && self.games@[i].id == arena0.games@[i].id && self.games@[i].history@
                        == arena0.games@[i].history@ && self.games@[i].winner
                        == arena0.games@[i].winner && self.games@[i].pos == arena0.games@[i].pos,
                forall|i: int|
                    arena0.first_unstarted <= i < self.first_unstarted ==> started_from(
                        arena0.games@[i],
                        #[trigger] self.games@[i],
                    ),
                forall|i: int|
                    self.first_unstarted <= i < self.games@.len() ==> #[trigger] self.games@[i]
                        == arena0.games@[i],
                forall|k: int|
                    0 <= k < spawns@.len() ==> (#[trigger] spawns@[k]).0 < self.first_unstarted,
            decreases self.games@.len() - self.first_unstarted,
        {
            let idx = self.first_unstarted;
            let ghost before = self.games@;
            let req = self.games[idx].initialize(&mut self.console);
            proof {
                assert(forall|j: int|
                    0 <= j < before.len() && j != idx ==> self.games@[j] == before[j]);
                lemma_count_ongoing_update(before, self.games@, idx as int, idx as int);
                lemma_count_ongoing_unfold(self.games@, idx as int + 1);
            }
            if let Some(r) = req {
                spawns.push((idx, r));
            }
            self.first_unstarted = idx + 1;
            started += 1;
        }
        proof {
            if self.first_unstarted == 0 {
                assert(count_ongoing(arena0.games@, 0) == 0);
                assert(started == can_start);
                assert(false);
            }
        }
        spawns
    }

    /// Advance every admitted match once. `obs` carries, per match slot,
    /// the host's observation of that match's outstanding agent process,
    /// if it has one. Admits queued matches up to the budget first, moves
    /// the displayed match off a finished one, reports progress, and —
    /// once every match has ended — produces the final report.
    pub fn update_ai_arena(&mut self, obs: Vec<Option<ProcStatus>>) -> (tick: ArenaTick)
        requires
            old(self).wf(),
            obs@.len() == old(self).games@.len(),
        ensures
            final(self).wf(),
            final(self).games@.len() == old(self).games@.len(),
            count_ongoing(final(self).games@, final(self).first_unstarted as int) <= final(self).max_concurrency,
            forall|k: int|
                0 <= k < tick.spawns@.len() ==> (#[trigger] tick.spawns@[k]).0 < final(self).games@.len(),
            tick.report is Some <==> (forall|i: int|
                0 <= i < final(self).games@.len() ==> (#[trigger] final(self).games@[i]).winner
                    is Some),
            final(self).submode == old(self).submode,
            final(self).max_concurrency == old(self).max_concurrency,
            old(self).first_unstarted <= final(self).first_unstarted,
            final(self).first_unstarted as int <= old(self).first_unstarted + (old(
                self,
            ).max_concurrency - count_ongoing(old(self).games@, old(self).first_unstarted as int)),
            final(self).first_unstarted as int == old(self).first_unstarted + (old(
                self,
            ).max_concurrency - count_ongoing(old(self).games@, old(self).first_unstarted as int))
                || final(self).first_unstarted == final(self).games@.len(),
            final(self).showed_game_idx as int == (if old(self).games@[old(
                self,
            ).showed_game_idx as int].winner is Some {
                final(self).first_unstarted - 1
            } else {
                old(self).showed_game_idx as int
            }),
            forall|i: int|
                0 <= i < old(self).first_unstarted ==> Game::update_transition(
                    old(self).games@[i],
                    #[trigger] final(self).games@[i],
                    obs@[i],
                ),
            forall|i: int|
                old(self).first_unstarted <= i < final(self).first_unstarted
                    ==> admitted_then_updated(
                    old(self).games@[i],
                    #[trigger] final(self).games@[i],
                    obs@[i],
                ),
            forall|i: int|
                final(self).first_unstarted <= i < final(self).games@.len()
                    ==> #[trigger] final(self).games@[i] == old(self).games@[i],
            match tick.report {
                None => final(self).console.pinned_spec() == Some(
                    "Games done: "@ + dec_spec(
                        final(self).first_unstarted - count_ongoing(
                            final(self).games@,
                            final(self).first_unstarted as int,
                        ),
                    ) + "/"@ + dec_spec(final(self).games@.len() as int),
                ),
                Some(_) => final(self).console.pinned_spec() is None,
            },
            match tick.report {
                Some(Report::Compare { score1, score2 }) => final(self).submode == Submode::Compare
                    && (score1 as int, score2 as int) == compare_scores_upto(
                    final(self).games@,
                    final(self).games@.len() as int,
                ),
                Some(Report::Tournament(rows)) => final(self).submode == Submode::Tournament
                    && {
                    let gs = final(self).games@;
                    let names = seen_paths(gs, gs.len() as int);
                    let elos = elo::iterate_spec(
                        elo_games_spec(gs, names),
                        names.len() as nat,
                        16,
                        50,
                    );
                    &&& rows@.len() == names.len()
                    &&& (forall|a: int, b: int|
                        0 <= a < b < rows@.len() ==> (#[trigger] rows@[a]).score
                            >= (#[trigger] rows@[b]).score)
                    &&& rows@.map_values(
                        |row: TournamentRow| (row.path@, row.elo as int, row.score as int),
                    ).to_multiset() =~= Seq::new(
                        names.len(),
                        |p: int|
                            (names[p], elos[p], path_score_upto(gs, gs.len() as int, names[p])),
                    ).to_multiset()
                },
                None => true,
            },
    {
        let mut obs = obs;
        let ghost obs0 = obs@;
        let mut spawns = self.start_new_games();
        if self.games[self.showed_game_idx].is_game_over() {
            self.showed_game_idx = self.first_unstarted - 1;
        }
        let fu = self.first_unstarted;
        let ghost at_loop = *self;
        let mut i: usize = 0;
        while i < fu
            invariant
                i <= fu,
                fu == self.first_unstarted,
                obs@.len() == self.games@.len(),
                at_loop.wf(),
                fu == at_loop.first_unstarted,
                self.games@.len() == at_loop.games@.len(),
                self.max_concurrency == at_loop.max_concurrency,
                self.submode == at_loop.submode,
                self.showed_game_idx == at_loop.showed_game_idx,
                forall|j: int| 0 <= j < self.games@.len() ==> (#[trigger] self.games@[j]).wf(),
                forall|j: int|
                    0 <= j < self.first_unstarted && (#[trigger] self.games@[j]).winner is None
                        ==> self.games@[j].on_turn_ready(),
                forall|j: int|
                    self.first_unstarted <= j < self.games@.len() ==> (
                    #[trigger] self.games@[j]).winner is None,
                count_ongoing(self.games@, fu as int) <= self.max_concurrency,
                forall|k: int|
                    0 <= k < spawns@.len() ==> (#[trigger] spawns@[k]).0 < self.games@.len(),
                forall|j: int| i <= j < obs0.len() ==> #[trigger] obs@[j] == obs0[j],
                forall|j: int|
                    0 <= j < i ==> Game::update_transition(
                        at_loop.games@[j],
                        #[trigger] self.games@[j],
                        obs0[j],
                    ),
                forall|j: int|
                    i <= j < self.games@.len() ==> #[trigger] self.games@[j]
                        == at_loop.games@[j],
            decreases fu - i,
        {
            let mut o: Option<ProcStatus> = None;
            core::mem::swap(&mut obs[i], &mut o);
            let ghost before = self.games@;
            let req = self.games[i].update(o, &mut self.console);
            if let Some(r) = req {
                spawns.push((i, r));
            }
            proof {
                assert(forall|j: int|
                    0 <= j < before.len() && j != i ==> self.games@[j] == before[j]);
                assert(self.games@[i as int].winner is None ==> before[i as int].winner is None);
                lemma_count_ongoing_update(before, self.games@, i as int, fu as int);
            }
            i += 1;
        }
        proof {
            assert forall|ii: int| 0 <= ii < old(self).first_unstarted implies Game::update_transition(
                old(self).games@[ii],
                #[trigger] self.games@[ii],
                obs0[ii],
            ) by {
                assert(at_loop.games@[ii] == old(self).games@[ii]);
            }
            assert forall|ii: int|
                old(self).first_unstarted <= ii < self.first_unstarted implies admitted_then_updated(
                old(self).games@[ii],
                #[trigger] self.games@[ii],
                obs0[ii],
            ) by {
                let mid = at_loop.games@[ii];
                assert(started_from(old(self).games@[ii], mid));
                assert(Game::update_transition(mid, self.games@[ii], obs0[ii]));
            }
        }
        let ghost gfin = self.games@;
        let mut finished: usize = 0;
        let mut j: usize = 0;
        while j < fu
            invariant
                j <= fu <= self.games@.len(),
                finished <= j,
                finished as int == j - count_ongoing(self.games@, j as int),
            decreases fu - j,
        {
            proof {
                lemma_count_ongoing_unfold(self.games@, j as int + 1);
            }
            if self.games[j].is_game_over() {
                finished += 1;
            }
            j += 1;
        }
        let mut progress = String::from_str("Games done: ");
        progress.append(usize_string(finished).as_str());
        progress.append("/");
        progress.append(usize_string(self.games.len()).as_str());
        proof {
            assert(progress@ =~= "Games done: "@ + dec_spec(finished as int) + "/"@ + dec_spec(
                self.games@.len() as int,
            ));
        }
        self.console.pin(progress);
        let mut all_over = true;
        let mut m: usize = 0;
        while m < self.games.len()
            invariant
                m <= self.games@.len(),
                all_over == (forall|i: int|
                    0 <= i < m ==> (#[trigger] self.games@[i]).winner is Some),
            decreases self.games@.len() - m,
        {
            if !self.games[m].is_game_over() {
                all_over = false;
            }
            m += 1;
        }
        if all_over {
            let report = match self.submode {
                Submode::Compare => self.finish_compare(),
                Submode::Tournament => self.finish_tournament(),
            };
            proof {
                lemma_update_tail(*old(self), at_loop, gfin, self.games@, obs0, fu as int);
            }
            ArenaTick { spawns, report: Some(report) }
        } else {
            proof {
                lemma_update_tail(*old(self), at_loop, gfin, self.games@, obs0, fu as int);
            }
            ArenaTick { spawns, report: None }
        }
    }

    /// Sum the two competitors' scores across the fairness-swapped pairs:
    /// the first competitor's score is the first seat's on even matches
    /// and the second seat's on odd ones.
    pub fn finish_compare(&mut self) -> (r: Report)
        requires
            old(self).wf(),
            forall|i: int|
                0 <= i < old(self).games@.len() ==> (#[trigger] old(self).games@[i]).winner
                    is Some,
        ensures
            final(self).games@ == old(self).games@,
            final(self).submode == old(self).submode,
            final(self).first_unstarted == old(self).first_unstarted,
            final(self).showed_game_idx == old(self).showed_game_idx,
            final(self).max_concurrency == old(self).max_concurrency,
            final(self).console.pinned_spec() is None,
            final(self).wf(),
            r matches Report::Compare { score1, score2 } && (score1 as int, score2 as int)
                == compare_scores_upto(old(self).games@, old(self).games@.len() as int),
    {
        self.console.unpin();
        let mut score1: u64 = 0;
        let mut score2: u64 = 0;
        let n = self.games.len();
        let mut i: usize = 0;
        while i < n
            invariant
                i <= n,
                n == self.games@.len(),
                self.games@ == old(self).games@,
                self.submode == old(self).submode,
                self.first_unstarted == old(self).first_unstarted,
                self.showed_game_idx == old(self).showed_game_idx,
                self.max_concurrency == old(self).max_concurrency,
                old(self).wf(),
                forall|g: int|
                    0 <= g < self.games@.len() ==> (#[trigger] self.games@[g]).winner is Some,
                score1 <= 2 * i,
                score2 <= 2 * i,
                (score1 as int, score2 as int) == compare_scores_upto(self.games@, i as int),
            decreases n - i,
        {
            if i % 2 == 0 {
                score1 = score1 + self.games[i].score_for(Tile::X) as u64;
                score2 = score2 + self.games[i].score_for(Tile::O) as u64;
            } else {
                score1 = score1 + self.games[i].score_for(Tile::O) as u64;
                score2 = score2 + self.games[i].score_for(Tile::X) as u64;
            }
            i += 1;
        }
        Report::Compare { score1, score2 }
    }

    /// The distinct participant names, in order of first appearance.
    fn collect_names(&self) -> (names: Vec<String>)
        requires
            self.wf(),
        ensures
            names.deep_view() == seen_paths(self.games@, self.games@.len() as int),
    {
        let mut names: Vec<String> = Vec::new();
        let n = self.games.len();
        let mut i: usize = 0;
        while i < n
            invariant
                i <= n,
                n == self.games@.len(),
                self.wf(),
                names.deep_view() == seen_paths(self.games@, i as int),
            decreases n - i,
        {
            let ghost prev_dv = names.deep_view();
            let px = self.games[i].player_x.name();
            let ghost pxv = px@;
            if !contains_name(&names, &px) {
                names.push(px);
                proof {
                    assert(names.deep_view() =~= prev_dv.push(pxv));
                }
            }
            let ghost mid_dv = names.deep_view();
            proof {
                assert(mid_dv == (if prev_dv.contains(pxv) {
                    prev_dv
                } else {
                    prev_dv.push(pxv)
                }));
            }
            let po = self.games[i].player_o.name();
            let ghost pov = po@;
            if !contains_name(&names, &po) {
                names.push(po);
                proof {
                    assert(names.deep_view() =~= mid_dv.push(pov));
                }
            }
            proof {
                assert(pxv == player_path(self.games@[i as int].player_x));
                assert(pov == player_path(self.games@[i as int].player_o));
                assert(names.deep_view() == seen_paths(self.games@, i as int + 1));
            }
            i += 1;
        }
        names
    }

    /// Each name's total half-points across every match.
    fn tournament_scores(&self, names: &Vec<String>) -> (scores: Vec<u64>)
        requires
            self.wf(),
            forall|i: int|
                0 <= i < self.games@.len() ==> (#[trigger] self.games@[i]).winner is Some,
        ensures
            scores@.len() == names@.len(),
            forall|p: int|
                0 <= p < names@.len() ==> #[trigger] scores@[p] as int == path_score_upto(
                    self.games@,
                    self.games@.len() as int,
                    names@[p]@,
                ),
    {
        let n_names = names.len();
        let n = self.games.len();
        let mut scores: Vec<u64> = Vec::new();
        let mut p: usize = 0;
        while p < n_names
            invariant
                p <= n_names,
                n_names == names@.len(),
                n == self.games@.len(),
                self.wf(),
                forall|i: int|
                    0 <= i < self.games@.len() ==> (#[trigger] self.games@[i]).winner is Some,
                scores@.len() == p,
                forall|q: int|
                    0 <= q < p ==> #[trigger] scores@[q] as int == path_score_upto(
                        self.games@,
                        n as int,
                        names@[q]@,
                    ),
            decreases n_names - p,
        {
            let mut total: u64 = 0;
            let mut i: usize = 0;
            while i < n
                invariant
                    i <= n,
                    p < n_names == names@.len(),
                    n == self.games@.len(),
                    self.wf(),
                    forall|g: int|
                        0 <= g < self.games@.len() ==> (#[trigger] self.games@[g]).winner is Some,
                    total <= 4 * i,
                    total as int == path_score_upto(self.games@, i as int, names@[p as int]@),
                decreases n - i,
            {
                let px = self.games[i].player_x.name();
                if px.eq(&names[p]) {
                    total = total + self.games[i].score_for(Tile::X) as u64;
                }
                let po = self.games[i].player_o.name();
                if po.eq(&names[p]) {
                    total = total + self.games[i].score_for(Tile::O) as u64;
                }
                i += 1;
            }
            scores.push(total);
            p += 1;
        }
        scores
    }

    /// The rating-engine input: every match as a pair of name indices
    /// with the first seat's half-point score.
    fn build_elo_games(&self, names: &Vec<String>) -> (egs: Vec<elo::Game>)
        requires
            self.wf(),
            forall|i: int|
                0 <= i < self.games@.len() ==> (#[trigger] self.games@[i]).winner is Some,
            names.deep_view() == seen_paths(self.games@, self.games@.len() as int),
        ensures
            egs@ =~= elo_games_spec(self.games@, names.deep_view()),
            forall|i: int|
                0 <= i < egs@.len() ==> ((#[trigger] egs@[i]).players.0 as int) < names@.len() && (
                egs@[i].players.1 as int) < names@.len() && egs@[i].score_half <= 2,
    {
        let n = self.games.len();
        let mut egs: Vec<elo::Game> = Vec::new();
        let mut i: usize = 0;
        while i < n
            invariant
                i <= n,
                n == self.games@.len(),
                self.wf(),
                forall|g: int|
                    0 <= g < self.games@.len() ==> (#[trigger] self.games@[g]).winner is Some,
                names.deep_view() == seen_paths(self.games@, self.games@.len() as int),
                egs@.len() == i,
                forall|j: int|
                    0 <= j < i ==> #[trigger] egs@[j] == elo_games_spec(
                        self.games@,
                        names.deep_view(),
                    )[j],
                forall|j: int|
                    0 <= j < i ==> ((#[trigger] egs@[j]).players.0 as int) < names@.len() && (
                    egs@[j].players.1 as int) < names@.len() && egs@[j].score_half <= 2,
            decreases n - i,
        {
            proof {
                lemma_seen_paths_complete(self.games@, n as int, i as int);
                lemma_index_of_path(
                    names.deep_view(),
                    player_path(self.games@[i as int].player_x),
                );
                lemma_index_of_path(
                    names.deep_view(),
                    player_path(self.games@[i as int].player_o),
                );
            }
            let px = self.games[i].player_x.name();
            let po = self.games[i].player_o.name();
            let a = find_name(&names, &px);
            let b = find_name(&names, &po);
            let sc = self.games[i].score_for(Tile::X);
            egs.push(elo::Game { players: (a, b), score_half: sc });
            i += 1;
        }
        proof {
            assert(egs@ =~= elo_games_spec(self.games@, names.deep_view()));
        }
        egs
    }

    /// Rate and rank every participant: total scores, ratings from the
    /// rating engine over fifty periods with factor sixteen, rows sorted
    /// by score descending.
    pub fn finish_tournament(&mut self) -> (r: Report)
        requires
            old(self).wf(),
            forall|i: int|
                0 <= i < old(self).games@.len() ==> (#[trigger] old(self).games@[i]).winner
                    is Some,
        ensures
            final(self).games@ == old(self).games@,
            final(self).submode == old(self).submode,
            final(self).first_unstarted == old(self).first_unstarted,
            final(self).showed_game_idx == old(self).showed_game_idx,
            final(self).max_concurrency == old(self).max_concurrency,
            final(self).console.pinned_spec() is None,
            final(self).wf(),
            r matches Report::Tournament(rows) && {
                let gs = old(self).games@;
                let names = seen_paths(gs, gs.len() as int);
                let elos = elo::iterate_spec(
                    elo_games_spec(gs, names),
                    names.len() as nat,
                    16,
                    50,
                );
                &&& rows@.len() == names.len()
                &&& (forall|a: int, b: int|
                    0 <= a < b < rows@.len() ==> (#[trigger] rows@[a]).score
                        >= (#[trigger] rows@[b]).score)
                &&& rows@.map_values(|row: TournamentRow| (row.path@, row.elo as int, row.score as int)).to_multiset()
                    =~= Seq::new(
                    names.len(),
                    |p: int| (names[p], elos[p], path_score_upto(gs, gs.len() as int, names[p])),
                ).to_multiset()
            },
    {
        self.console.unpin();
        let names = self.collect_names();
        let scores = self.tournament_scores(&names);
        let egs = self.build_elo_games(&names);
        let elos = elo::from_single_tournament(&egs, names.len(), 50, 16);
        let ghost gs = self.games@;
        let ghost names_spec = seen_paths(gs, gs.len() as int);
        let ghost elos_spec = elo::iterate_spec(elo_games_spec(gs, names_spec), names_spec.len() as nat, 16, 50);
        let mut rows: Vec<TournamentRow> = Vec::new();
        let n_names = names.len();
        let mut p: usize = 0;
        while p < n_names
            invariant
                p <= n_names,
                n_names == names@.len(),
                names.deep_view() == names_spec,
                scores@.len() == n_names,
                elos@.len() == n_names,
                forall|q: int| 0 <= q < n_names ==> #[trigger] elos@[q] as int == elos_spec[q],
                forall|q: int|
                    0 <= q < n_names ==> #[trigger] scores@[q] as int == path_score_upto(
                        gs,
                        gs.len() as int,
                        names_spec[q],
                    ),
                rows@.len() == p,
                forall|q: int|
                    0 <= q < p ==> (#[trigger] rows@[q]).path@ == names_spec[q] && rows@[q].elo
                        as int == elos_spec[q] && rows@[q].score as int == path_score_upto(
                        gs,
                        gs.len() as int,
                        names_spec[q],
                    ),
            decreases n_names - p,
        {
            rows.push(TournamentRow { path: names[p].clone(), elo: elos[p], score: scores[p] });
            p += 1;
        }
        let sorted = sort_rows_by_score(rows);
        proof {
            assert(rows@.map_values(|row: TournamentRow| (row.path@, row.elo as int, row.score as int))
                =~= Seq::new(
                names_spec.len(),
                |q: int| (names_spec[q], elos_spec[q], path_score_upto(gs, gs.len() as int, names_spec[q])),
            ));
        }
        Report::Tournament(sorted)
    }
}

/// Transfers the per-slot facts established after the update loop to the
/// final list of matches, which later steps leave untouched.
proof fn lemma_update_tail(
    a0: AIArena,
    at_loop: AIArena,
    gfin: Seq<Game>,
    gnow: Seq<Game>,
    obs0: Seq<Option<ProcStatus>>,
    fu: int,
)
    requires
        gnow == gfin,
        gfin.len() == a0.games@.len(),
        a0.first_unstarted <= fu <= gfin.len(),
        forall|i: int|
            0 <= i < a0.first_unstarted ==> at_loop.games@[i] == a0.games@[i],
        forall|i: int|
            a0.first_unstarted <= i < fu ==> started_from(
                a0.games@[i],
                #[trigger] at_loop.games@[i],
            ),
        forall|i: int|
            0 <= i < fu ==> Game::update_transition(
                at_loop.games@[i],
                #[trigger] gfin[i],
                obs0[i],
            ),
        forall|i: int| fu <= i < gfin.len() ==> #[trigger] gfin[i] == a0.games@[i],
    ensures
        forall|i: int|
            0 <= i < a0.first_unstarted ==> Game::update_transition(
                a0.games@[i],
                #[trigger] gnow[i],
                obs0[i],
            ),
        forall|i: int|
            a0.first_unstarted <= i < fu ==> admitted_then_updated(
                a0.games@[i],
                #[trigger] gnow[i],
                obs0[i],
            ),
        forall|i: int| fu <= i < gnow.len() ==> #[trigger] gnow[i] == a0.games@[i],
{
    assert forall|i: int|
        0 <= i < a0.first_unstarted implies Game::update_transition(
        a0.games@[i],
        #[trigger] gnow[i],
        obs0[i],
    ) by {
        assert(gnow[i] == gfin[i]);
        assert(Game::update_transition(at_loop.games@[i], gfin[i], obs0[i]));
        assert(at_loop.games@[i] == a0.games@[i]);
    }
    assert forall|i: int|
        a0.first_unstarted <= i < fu implies admitted_then_updated(
        a0.games@[i],
        #[trigger] gnow[i],
        obs0[i],
    ) by {
        let mid = at_loop.games@[i];
        assert(gnow[i] == gfin[i]);
        assert(started_from(a0.games@[i], mid) && Game::update_transition(
            mid,
            gnow[i],
            obs0[i],
        ));
    }
    assert forall|i: int| fu <= i < gnow.len() implies #[trigger] gnow[i] == a0.games@[i] by {
        assert(gnow[i] == gfin[i]);
    }
}

/// Whether some entry of `names` has the characters of `p`.
fn contains_name(names: &Vec<String>, p: &String) -> (r: bool)
    ensures
        r == names.deep_view().contains(p@),
{
    let n = names.len();
    let mut i: usize = 0;
    while i < n
        invariant
            i <= n,
            n == names@.len(),
            forall|j: int| 0 <= j < i ==> names.deep_view()[j] != p@,
        decreases n - i,
    {
        if names[i].eq(p) {
            proof {
                assert(names.deep_view()[i as int] == p@);
            }
            return true;
        }
        i += 1;
    }
    false
}

/// The index of the entry of `names` with the characters of `p`.
fn find_name(names: &Vec<String>, p: &String) -> (idx: usize)
    requires
        names.deep_view().contains(p@),
    ensures
        idx as int == index_of_path(names.deep_view(), p@),
        idx < names@.len(),
{
    proof {
        lemma_index_of_path(names.deep_view(), p@);
    }
    let n = names.len();
    let mut i: usize = 0;
    while i < n
        invariant
            i <= n,
            n == names@.len(),
            forall|j: int| 0 <= j < i ==> names.deep_view()[j] != p@,
        decreases n - i,
    {
        if names[i].eq(p) {
            proof {
                lemma_index_of_prefix(names.deep_view(), p@, i as int);
            }
            return i;
        }
        i += 1;
    }
    proof {
        lemma_index_of_path(names.deep_view(), p@);
        assert(false);
    }
    0
}

/// When the first hit is at `i`, that is what `index_of_path` names.
proof fn lemma_index_of_prefix(names: Seq<Seq<char>>, p: Seq<char>, i: int)
    requires
        0 <= i < names.len(),
        names[i] == p,
        forall|j: int| 0 <= j < i ==> names[j] != p,
    ensures
        index_of_path(names, p) == i,
    decreases i,
{
    if i > 0 {
        lemma_index_of_prefix(names.drop_first(), p, i - 1);
    }
}

/// `rows` rearranged so scores never increase, keeping exactly the same
/// rows (as a multiset).
fn sort_rows_by_score(rows: Vec<TournamentRow>) -> (r: Vec<TournamentRow>)
    ensures
        r@.len() == rows@.len(),
        forall|a: int, b: int|
            0 <= a < b < r@.len() ==> (#[trigger] r@[a]).score >= (#[trigger] r@[b]).score,
        r@.map_values(|row: TournamentRow| (row.path@, row.elo as int, row.score as int)).to_multiset()
            =~= rows@.map_values(
            |row: TournamentRow| (row.path@, row.elo as int, row.score as int),
        ).to_multiset(),
{
    let ghost view_of = |row: TournamentRow| (row.path@, row.elo as int, row.score as int);
    proof {
        broadcast use vstd::seq_lib::group_to_multiset_ensures;
        broadcast use vstd::multiset::group_multiset_axioms;

    }
    let mut rest = rows;
    let mut out: Vec<TournamentRow> = Vec::new();
    proof {
        assert(out@.map_values(view_of).len() == 0);
        assert forall|t: (Seq<char>, int, int)|
            out@.map_values(view_of).to_multiset().add(
                rest@.map_values(view_of).to_multiset(),
            ).count(t) == rows@.map_values(view_of).to_multiset().count(t) by {
            assert(!out@.map_values(view_of).contains(t));
        }
        assert(out@.map_values(view_of).to_multiset().add(rest@.map_values(view_of).to_multiset())
            =~= rows@.map_values(view_of).to_multiset());
    }
    while rest.len() > 0
        invariant
            out@.len() + rest@.len() == rows@.len(),
            forall|a: int, b: int|
                0 <= a < b < out@.len() ==> (#[trigger] out@[a]).score >= (#[trigger] out@[b]).score,
            forall|a: int, b: int|
                0 <= a < out@.len() && 0 <= b < rest@.len() ==> (#[trigger] out@[a]).score
                    >= (#[trigger] rest@[b]).score,
            out@.map_values(view_of).to_multiset().add(rest@.map_values(view_of).to_multiset())
                =~= rows@.map_values(view_of).to_multiset(),
        decreases rest@.len(),
    {
        proof {
            broadcast use vstd::seq_lib::group_to_multiset_ensures;
            broadcast use vstd::multiset::group_multiset_axioms;

        }
        let mut best: usize = 0;
        let mut i: usize = 1;
        while i < rest.len()
            invariant
                best < i <= rest@.len(),
                rest@.len() > 0,
                forall|j: int| 0 <= j < i ==> rest@[best as int].score >= (#[trigger] rest@[j]).score,
            decreases rest@.len() - i,
        {
            if rest[i].score > rest[best].score {
                best = i;
            }
            i += 1;
        }
        let ghost rest0 = rest@;
        let ghost out0 = out@;
        let x = rest.remove(best);
        let ghost xv = view_of(x);
        out.push(x);
        proof {
            let rest_ms0 = rest0.map_values(view_of).to_multiset();
            let out_ms0 = out0.map_values(view_of).to_multiset();
            assert(rest@.map_values(view_of) =~= rest0.map_values(view_of).remove(best as int));
            assert(rest0.map_values(view_of)[best as int] == xv);
            assert(rest@.map_values(view_of).to_multiset() =~= rest_ms0.remove(xv));
            assert(out@.map_values(view_of) =~= out0.map_values(view_of).push(xv));
            assert(out@.map_values(view_of).to_multiset() =~= out_ms0.insert(xv));
            assert(rest0.map_values(view_of).contains(xv));
            assert(rest_ms0.count(xv) > 0);
            assert forall|t: (Seq<char>, int, int)|
                out@.map_values(view_of).to_multiset().add(
                    rest@.map_values(view_of).to_multiset(),
                ).count(t) == out_ms0.add(rest_ms0).count(t) by {}
            assert(out@.map_values(view_of).to_multiset().add(
                rest@.map_values(view_of).to_multiset(),
            ) =~= out_ms0.add(rest_ms0));
        }
    }
    proof {
        broadcast use vstd::seq_lib::group_to_multiset_ensures;
        broadcast use vstd::multiset::group_multiset_axioms;

        assert forall|t: (Seq<char>, int, int)|
            out@.map_values(view_of).to_multiset().count(t) == rows@.map_values(
                view_of,
            ).to_multiset().count(t) by {
            assert(!rest@.map_values(view_of).contains(t));
        }
        assert(out@.map_values(view_of).to_multiset() =~= rows@.map_values(view_of).to_multiset());
        assert(out@.map_values(view_of).to_multiset().len() == rows@.map_values(
            view_of,
        ).to_multiset().len());
    }
    out
}

impl Showable for AIArena {
    fn display_pos(&self) -> DisplayPos {
        if self.games.len() == 0 || self.showed_game_idx >= self.games.len() {
            return DisplayPos {
                cur: crate::othello::Pos::new(),
                last: crate::othello::Pos::new(),
                last_move: None,
            };
        }
        self.games[self.showed_game_idx].display_pos()
    }
}

} // verus!
