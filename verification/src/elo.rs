//! The rating engine: a pure batch computation of relative skill from a
//! list of pairwise outcomes. Ratings are fixed-point numbers in units of
//! `1/SCALE` rating points, and the expected-score curve is an integer
//! approximation of the standard logistic formula, built so that the two
//! sides of any pairing always get expectations summing to exactly one.
use vstd::prelude::*;

verus! {

/// Fixed-point scale: one rating point, and one full game point.
pub const SCALE: u64 = 65536;

/// Every participant starts here: 1000 rating points.
pub const BASELINE: i64 = 65536000;

/// One finished pairwise game: two participant indices, and the first
/// participant's score in half-points (0 loss, 1 draw, 2 win).
#[derive(Debug, Clone, Copy)]
pub struct Game {
    pub players: (usize, usize),
    pub score_half: u32,
}

/// A win, draw or loss, one participant's view of one game.
#[derive(Debug, Clone, Copy, PartialEq, Eq, Structural)]
pub enum Outcome {
    Win,
    Draw,
    Loss,
}

/// The outcome encoded by a half-point score.
pub open spec fn outcome_spec(score_half: int) -> Outcome {
    if score_half == 0 {
        Outcome::Loss
    } else if score_half == 1 {
        Outcome::Draw
    } else {
        Outcome::Win
    }
}

/// The outcome a half-point score stands for; only 0, 1 and 2 encode one.
pub fn score_to_outcome(score_half: u32) -> (r: Outcome)
    requires
        score_half <= 2,
    ensures
        r == outcome_spec(score_half as int),
{
    if score_half == 0 {
        Outcome::Loss
    } else if score_half == 1 {
        Outcome::Draw
    } else {
        Outcome::Win
    }
}

/// `10^(p/400)` in fixed point, for a rating-point difference `p`;
/// the fractional power is a cubic approximation of `2^f`.
pub open spec fn pow10_spec(p: int) -> int {
    let a = p / 400;
    let b = p % 400;
    let y = b * 5442648 / 10000;
    let c = y / 65536;
    let f = y % 65536;
    let f2 = f * f / 65536;
    let f3 = f2 * f / 65536;
    let two_f = 65536 + (f * 45613 / 65536) + (f2 * 14712 / 65536) + (f3 * 5205 / 65536);
    let ten_a = if a == 0 {
        1int
    } else if a == 1 {
        10int
    } else if a == 2 {
        100int
    } else if a == 3 {
        1000int
    } else {
        10000int
    };
    ten_a * pow2int(c) * two_f
}

/// A small power of two.
pub open spec fn pow2int(c: int) -> int {
    if c <= 0 {
        1int
    } else if c == 1 {
        2int
    } else if c == 2 {
        4int
    } else {
        8int
    }
}

/// The expected score (scaled by `SCALE`) of a participant whose rating
/// exceeds the opponent's by `diff` scaled units. Antisymmetric by
/// construction: the two views of one pairing always sum to `SCALE`.
pub open spec fn expected_spec(diff: int) -> int
    decreases (if diff < 0 {
        1int
    } else {
        0int
    }),
{
    if diff < 0 {
        65536 - expected_spec(-diff)
    } else {
        let p = if diff / 65536 > 1600 {
            1600int
        } else {
            diff / 65536
        };
        let g = pow10_spec(p);
        65536 * g / (g + 65536)
    }
}

/// The fixed-point power curve stays within workable bounds.
proof fn lemma_pow10_bounds(p: int)
    requires
        0 <= p <= 1600,
    ensures
        65536 <= pow10_spec(p) <= 0x4_0000_0000u64,
{
    let a = p / 400;
    let b = p % 400;
    assert(0 <= a <= 4 && 0 <= b < 400);
    let y = b * 5442648 / 10000;
    assert(0 <= y < 217206) by (nonlinear_arith)
        requires
            0 <= b < 400,
            y == b * 5442648 / 10000,
    ;
    let c = y / 65536;
    let f = y % 65536;
    assert(0 <= c <= 3);
    assert(0 <= f < 65536);
    let f2 = f * f / 65536;
    assert(0 <= f2 < 65536) by (nonlinear_arith)
        requires
            0 <= f < 65536,
            f2 == f * f / 65536,
    ;
    let f3 = f2 * f / 65536;
    assert(0 <= f3 < 65536) by (nonlinear_arith)
        requires
            0 <= f2 < 65536,
            0 <= f < 65536,
            f3 == f2 * f / 65536,
    ;
    let t1 = f * 45613 / 65536;
    let t2 = f2 * 14712 / 65536;
    let t3 = f3 * 5205 / 65536;
    assert(0 <= t1 <= 45613 && 0 <= t2 <= 14712 && 0 <= t3 <= 5205) by (nonlinear_arith)
        requires
            0 <= f < 65536,
            0 <= f2 < 65536,
            0 <= f3 < 65536,
            t1 == f * 45613 / 65536,
            t2 == f2 * 14712 / 65536,
            t3 == f3 * 5205 / 65536,
    ;
    let two_f = 65536 + t1 + t2 + t3;
    assert(65536 <= two_f <= 131066);
    let ten_a = if a == 0 {
        1int
    } else if a == 1 {
        10int
    } else if a == 2 {
        100int
    } else if a == 3 {
        1000int
    } else {
        10000int
    };
    assert(1 <= ten_a <= 10000);
    assert(1 <= pow2int(c) <= 8);
    let prod = ten_a * pow2int(c) * two_f;
    assert(65536 <= prod <= 10485280000) by (nonlinear_arith)
        requires
            1 <= ten_a <= 10000,
            1 <= pow2int(c) <= 8,
            65536 <= two_f <= 131066,
            prod == ten_a * pow2int(c) * two_f,
    ;
    assert(pow10_spec(p) == prod);
}

/// The expected score always lies between 0 and `SCALE`, and equally
/// rated participants expect exactly half a point each.
pub proof fn lemma_expected_bounds(diff: int)
    ensures
        0 <= expected_spec(diff) <= 65536,
        diff == 0 ==> expected_spec(diff) == 32768,
    decreases (if diff < 0 {
        1int
    } else {
        0int
    }),
{
    if diff >= 0 {
        let p = if diff / 65536 > 1600 {
            1600int
        } else {
            diff / 65536
        };
        assert(0 <= p <= 1600);
        lemma_pow10_bounds(p);
        let g = pow10_spec(p);
        assert(0 <= 65536 * g / (g + 65536) <= 65536) by (nonlinear_arith)
            requires
                65536 <= g,
        ;
        if diff == 0 {
            assert(pow10_spec(0) == 65536) by {
                assert(0int / 400 == 0 && 0int % 400 == 0);
                assert(0int * 5442648 == 0) by (nonlinear_arith);
                assert(0int / 10000 == 0);
                assert(0int / 65536 == 0 && 0int % 65536 == 0);
                assert(0int * 0 == 0) by (nonlinear_arith);
                assert(0int * 45613 == 0 && 0int * 14712 == 0 && 0int * 5205 == 0)
                    by (nonlinear_arith);
                assert(pow2int(0) == 1);
                assert(1int * 1 * 65536 == 65536) by (nonlinear_arith);
            }
            assert(65536 * 65536 / (65536 + 65536) == 32768);
        }
    } else {
        lemma_expected_bounds(-diff);
    }
}

/// The two sides of one pairing expect exactly one point between them.
pub proof fn lemma_expected_antisymmetric(diff: int)
    ensures
        expected_spec(diff) + expected_spec(-diff) == 65536,
{
    if diff == 0 {
        lemma_expected_bounds(0);
    } else if diff < 0 {
        assert(expected_spec(diff) == 65536 - expected_spec(-diff));
    } else {
        assert(expected_spec(-diff) == 65536 - expected_spec(diff));
    }
}

/// `10^(p/400)` in fixed point, for `p` whole rating points.
fn pow10_q16(p: u64) -> (g: u64)
    requires
        p <= 1600,
    ensures
        g as int == pow10_spec(p as int),
        65536 <= g,
{
    proof {
        lemma_pow10_bounds(p as int);
    }
    let a = p / 400;
    let b = p % 400;
    let y = b * 5442648 / 10000;
    let c = y / 65536;
    let f = y % 65536;
    proof {
        assert(f * f < 0x1_0000_0000u64 && f * f / 65536 < 65536) by (nonlinear_arith)
            requires
                f < 65536u64,
        ;
    }
    let f2 = f * f / 65536;
    proof {
        assert(f2 * f < 0x1_0000_0000u64 && f2 * f / 65536 < 65536) by (nonlinear_arith)
            requires
                f < 65536u64,
                f2 < 65536u64,
        ;
        assert(f * 45613 / 65536 <= 45613 && f2 * 14712 / 65536 <= 14712) by (nonlinear_arith)
            requires
                f < 65536u64,
                f2 < 65536u64,
        ;
    }
    let f3 = f2 * f / 65536;
    proof {
        assert(f3 * 5205 / 65536 <= 5205) by (nonlinear_arith)
            requires
                f3 < 65536u64,
        ;
    }
    let two_f = 65536 + (f * 45613 / 65536) + (f2 * 14712 / 65536) + (f3 * 5205 / 65536);
    let ten_a: u64 = if a == 0 {
        1
    } else if a == 1 {
        10
    } else if a == 2 {
        100
    } else if a == 3 {
        1000
    } else {
        10000
    };
    let two_c: u64 = if c == 0 {
        1
    } else if c == 1 {
        2
    } else if c == 2 {
        4
    } else {
        8
    };
    proof {
        assert(two_c as int == pow2int(c as int));
        assert(ten_a * two_c <= 80000 && ten_a * two_c * two_f <= 10485280000u64)
            by (nonlinear_arith)
            requires
                1 <= ten_a <= 10000u64,
                1 <= two_c <= 8u64,
                65536 <= two_f <= 131066u64,
        ;
    }
    ten_a * two_c * two_f
}

/// The expected score, scaled by `SCALE`, for a scaled rating advantage
/// of `diff`.
pub fn expected_scaled(diff: i64) -> (e: u64)
    requires
        i64::MIN < diff,
    ensures
        e as int == expected_spec(diff as int),
        e <= 65536,
    decreases (if diff < 0 {
        1int
    } else {
        0int
    }),
{
    proof {
        lemma_expected_bounds(diff as int);
    }
    if diff >= 0 {
        let d_pts = diff / 65536;
        let p: u64 = if d_pts > 1600 {
            1600
        } else {
            d_pts as u64
        };
        let g = pow10_q16(p);
        proof {
            lemma_pow10_bounds(p as int);
            assert(65536 * g <= 65536 * 0x4_0000_0000u64) by (nonlinear_arith)
                requires
                    g <= 0x4_0000_0000u64,
            ;
        }
        65536 * g / (g + 65536)
    } else {
        let e_pos = expected_scaled(-diff);
        proof {
            lemma_expected_bounds(-diff as int);
        }
        65536 - e_pos
    }
}

/// One participant's half-games: each opponent index with this
/// participant's half-point score against them.
pub type HalfGames = Vec<(usize, u32)>;

/// The sum, over the half-games from index `i` on, of actual minus
/// expected score (both scaled by `SCALE`).
pub open spec fn delta_sum_from(rating: int, hgs: Seq<(usize, u32)>, elos: Seq<int>, i: int) -> int
    decreases hgs.len() - i,
{
    if i < 0 || i >= hgs.len() {
        0
    } else {
        (hgs[i].1 * 32768 - expected_spec(rating - elos[hgs[i].0 as int])) + delta_sum_from(
            rating,
            hgs,
            elos,
            i + 1,
        )
    }
}

/// The rating the batch update gives `player` for one period: its old
/// rating moved by `k` times the summed score surpluses of its
/// half-games, all computed against the previous period's ratings.
pub open spec fn new_elo_spec(player: int, hgs: Seq<(usize, u32)>, elos: Seq<int>, k: int) -> int {
    elos[player] + k * delta_sum_from(elos[player], hgs, elos, 0)
}

/// The score surplus of a run of half-games is bounded by one point each.
proof fn lemma_delta_sum_bound(rating: int, hgs: Seq<(usize, u32)>, elos: Seq<int>, i: int)
    requires
        0 <= i <= hgs.len(),
        forall|j: int| 0 <= j < hgs.len() ==> (#[trigger] hgs[j]).1 <= 2,
    ensures
        -65536 * (hgs.len() - i) <= delta_sum_from(rating, hgs, elos, i) <= 65536 * (hgs.len()
            - i),
        i >= hgs.len() ==> delta_sum_from(rating, hgs, elos, i) == 0,
    decreases hgs.len() - i,
{
    if 0 <= i < hgs.len() {
        lemma_delta_sum_bound(rating, hgs, elos, i + 1);
        lemma_expected_bounds(rating - elos[hgs[i].0 as int]);
    }
}

/// With every half-game drawn and every rating equal, the score surplus
/// vanishes: a draw yields exactly the expected half point.
proof fn lemma_delta_sum_draws(rating: int, hgs: Seq<(usize, u32)>, elos: Seq<int>, i: int)
    requires
        forall|j: int| 0 <= j < hgs.len() ==> (#[trigger] hgs[j]).1 == 1,
        forall|j: int| 0 <= j < hgs.len() ==> 0 <= (#[trigger] hgs[j]).0 < elos.len(),
        forall|j: int| 0 <= j < elos.len() ==> #[trigger] elos[j] == rating,
    ensures
        delta_sum_from(rating, hgs, elos, i) == 0,
    decreases hgs.len() - i,
{
    if 0 <= i < hgs.len() {
        lemma_delta_sum_draws(rating, hgs, elos, i + 1);
        lemma_expected_bounds(rating - elos[hgs[i].0 as int]);
    }
}

/// The batch rating update of `player` over its half-games, against the
/// previous round's ratings `elos`.
pub fn new_elo(player: usize, games: &HalfGames, elos: &Vec<i64>, k: u64) -> (r: i64)
    requires
        (player as int) < elos@.len(),
        k <= 256,
        games@.len() <= 200000,
        forall|j: int| 0 <= j < games@.len() ==> (#[trigger] games@[j]).1 <= 2,
        forall|j: int| 0 <= j < games@.len() ==> ((#[trigger] games@[j]).0 as int) < elos@.len(),
        forall|j: int| 0 <= j < elos@.len() ==> -0x40_0000_0000_0000 < #[trigger] elos@[j]
            < 0x40_0000_0000_0000,
    ensures
        r as int == new_elo_spec(
            player as int,
            games@,
            elos@.map_values(|x: i64| x as int),
            k as int,
        ),
{
    let ghost elos_int = elos@.map_values(|x: i64| x as int);
    let rating = elos[player];
    let mut acc: i64 = 0;
    let n = games.len();
    let mut i: usize = 0;
    while i < n
        invariant
            i <= n,
            rating == elos@[player as int],
            -65536 * (i as int) <= acc <= 65536 * (i as int),
            delta_sum_from(rating as int, games@, elos_int, 0) == acc + delta_sum_from(
                rating as int,
                games@,
                elos_int,
                i as int,
            ),
        decreases n - i,
    {
        let (opp, sc) = games[i];
        let e = expected_scaled(rating - elos[opp]);
        let term: i64 = (sc as i64) * 32768 - (e as i64);
        proof {
            lemma_expected_bounds((rating - elos[opp as int]) as int);
            assert(elos_int[opp as int] == elos@[opp as int]);
        }
        acc = acc + term;
        i += 1;
    }
    proof {
        lemma_delta_sum_bound(rating as int, games@, elos_int, n as int);
        assert(delta_sum_from(rating as int, games@, elos_int, 0) == acc);
        assert(-0x400_0000_0000 <= (k as i64) * acc <= 0x400_0000_0000) by (nonlinear_arith)
            requires
                k <= 256u64,
                -0x4_0000_0000 <= acc <= 0x4_0000_0000i64,
        ;
    }
    rating + (k as i64) * acc
}

/// The half-games of participant `p`: for every game `p` appears in, the
/// opponent and `p`'s half-point score (mirrored for the second seat).
pub open spec fn half_games_of(games: Seq<Game>, p: int) -> Seq<(usize, u32)>
    decreases games.len(),
{
    if games.len() == 0 {
        Seq::empty()
    } else {
        let g = games.last();
        half_games_of(games.drop_last(), p) + (if g.players.0 == p {
            seq![(g.players.1, g.score_half)]
        } else {
            Seq::empty()
        }) + (if g.players.1 == p {
            seq![(g.players.0, (2 - g.score_half) as u32)]
        } else {
            Seq::empty()
        })
    }
}

/// One rating period: every participant updated simultaneously from the
/// previous period's ratings.
pub open spec fn round_spec(elos: Seq<int>, games: Seq<Game>, k: int) -> Seq<int> {
    Seq::new(elos.len(), |p: int| new_elo_spec(p, half_games_of(games, p), elos, k))
}

/// The ratings after `rounds` periods, all starting from the baseline.
pub open spec fn iterate_spec(games: Seq<Game>, n_players: nat, k: int, rounds: nat) -> Seq<int>
    decreases rounds,
{
    if rounds == 0 {
        Seq::new(n_players, |p: int| BASELINE as int)
    } else {
        round_spec(iterate_spec(games, n_players, k, (rounds - 1) as nat), games, k)
    }
}

proof fn lemma_half_games_entries(games: Seq<Game>, p: int, n: int)
    requires
        forall|i: int|
            0 <= i < games.len() ==> (#[trigger] games[i]).players.0 < n && games[i].players.1 < n
                && games[i].score_half <= 2,
    ensures
        forall|j: int|
            0 <= j < half_games_of(games, p).len() ==> ((#[trigger] half_games_of(games, p)[j]).0
                as int) < n && half_games_of(games, p)[j].1 <= 2,
        half_games_of(games, p).len() <= 2 * games.len(),
    decreases games.len(),
{
    if games.len() > 0 {
        assert(games[games.len() - 1] == games.last());
        lemma_half_games_entries(games.drop_last(), p, n);
        let pre = half_games_of(games.drop_last(), p);
        let whole = half_games_of(games, p);
        assert forall|j: int|
            0 <= j < whole.len() implies ((#[trigger] whole[j]).0 as int) < n && whole[j].1
            <= 2 by {
            if j < pre.len() {
                assert(whole[j] == pre[j]);
            }
        }
    }
}

proof fn lemma_half_games_draws(games: Seq<Game>, p: int)
    requires
        forall|i: int| 0 <= i < games.len() ==> (#[trigger] games[i]).score_half == 1,
    ensures
        forall|j: int| 0 <= j < half_games_of(games, p).len() ==> (#[trigger] half_games_of(
            games,
            p,
        )[j]).1 == 1,
    decreases games.len(),
{
    if games.len() > 0 {
        assert(games[games.len() - 1] == games.last());
        lemma_half_games_draws(games.drop_last(), p);
        let pre = half_games_of(games.drop_last(), p);
        let whole = half_games_of(games, p);
        assert forall|j: int| 0 <= j < whole.len() implies (#[trigger] whole[j]).1 == 1 by {
            if j < pre.len() {
                assert(whole[j] == pre[j]);
            }
        }
    }
}


proof fn lemma_iterate_len(games: Seq<Game>, n_players: nat, k: int, rounds: nat)
    ensures
        iterate_spec(games, n_players, k, rounds).len() == n_players,
    decreases rounds,
{
    if rounds > 0 {
        lemma_iterate_len(games, n_players, k, (rounds - 1) as nat);
    }
}

/// With every game drawn, every rating stays exactly at the baseline in
/// every period: equally skilled participants keep equal ratings.
pub proof fn lemma_all_draws_stay_baseline(games: Seq<Game>, n_players: nat, k: int, rounds: nat)
    requires
        forall|i: int|
            0 <= i < games.len() ==> (#[trigger] games[i]).score_half == 1 && (games[i].players.0
                as int) < n_players && (games[i].players.1 as int) < n_players,
    ensures
        iterate_spec(games, n_players, k, rounds).len() == n_players,
        forall|p: int|
            0 <= p < n_players ==> #[trigger] iterate_spec(games, n_players, k, rounds)[p]
                == BASELINE as int,
    decreases rounds,
{
    lemma_iterate_len(games, n_players, k, rounds);
    if rounds > 0 {
        lemma_all_draws_stay_baseline(games, n_players, k, (rounds - 1) as nat);
        let prev = iterate_spec(games, n_players, k, (rounds - 1) as nat);
        lemma_iterate_len(games, n_players, k, (rounds - 1) as nat);
        assert forall|p: int|
            0 <= p < n_players implies #[trigger] iterate_spec(games, n_players, k, rounds)[p]
            == BASELINE as int by {
            let hgs = half_games_of(games, p);
            lemma_half_games_draws(games, p);
            lemma_half_games_entries(games, p, n_players as int);
            lemma_delta_sum_draws(prev[p], hgs, prev, 0);
            assert(k * 0 == 0) by (nonlinear_arith);
        }
    }
}

/// The rating map a single tournament's games produce: everybody starts
/// at the baseline, and `iterations` simultaneous batch updates with
/// factor `k` follow. Deterministic in its inputs.
pub fn from_single_tournament(
    games: &Vec<Game>,
    n_players: usize,
    iterations: usize,
    k: u64,
) -> (r: Vec<i64>)
    requires
        games@.len() <= 10000,
        iterations <= 1000,
        k <= 256,
        forall|i: int|
            0 <= i < games@.len() ==> ((#[trigger] games@[i]).players.0 as int) < n_players && (
            games@[i].players.1 as int) < n_players && games@[i].score_half <= 2,
    ensures
        r@.len() == n_players,
        forall|p: int|
            0 <= p < n_players ==> #[trigger] r@[p] as int == iterate_spec(
                games@,
                n_players as nat,
                k as int,
                iterations as nat,
            )[p],
{
    let mut by_player: Vec<HalfGames> = Vec::new();
    let mut p: usize = 0;
    while p < n_players
        invariant
            p <= n_players,
            by_player@.len() == p,
            forall|q: int| 0 <= q < p ==> (#[trigger] by_player@[q])@ == Seq::<(usize, u32)>::empty(),
        decreases n_players - p,
    {
        by_player.push(Vec::new());
        p += 1;
    }
    let n_games = games.len();
    let mut i: usize = 0;
    while i < n_games
        invariant
            i <= n_games,
            by_player@.len() == n_players,
            forall|q: int|
                0 <= q < n_players ==> (#[trigger] by_player@[q])@ == half_games_of(
                    games@.take(i as int),
                    q,
                ),
        decreases n_games - i,
    {
        let g = games[i];
        let (a, b) = g.players;
        let sc = g.score_half;
        by_player[a].push((b, sc));
        by_player[b].push((a, 2 - sc));
        proof {
            assert(games@.take(i as int + 1).drop_last() =~= games@.take(i as int));
            assert(games@.take(i as int + 1).last() == games@[i as int]);
            assert forall|q: int| 0 <= q < n_players implies (#[trigger] by_player@[q])@
                == half_games_of(games@.take(i as int + 1), q) by {
                let pre = half_games_of(games@.take(i as int), q);
                if q == a as int && q == b as int {
                    assert(by_player@[q]@ =~= pre + seq![(b, sc)] + seq![(a, (2 - sc) as u32)]);
                } else if q == a as int {
                    assert(by_player@[q]@ =~= pre + seq![(b, sc)] + Seq::<(usize, u32)>::empty());
                } else if q == b as int {
                    assert(by_player@[q]@ =~= pre + Seq::<(usize, u32)>::empty() + seq![
                        (a, (2 - sc) as u32),
                    ]);
                } else {
                    assert(by_player@[q]@ =~= pre + Seq::<(usize, u32)>::empty() + Seq::<(
                        usize,
                        u32,
                    )>::empty());
                }
            }
        }
        i += 1;
    }
    proof {
        assert(games@.take(n_games as int) =~= games@);
    }
    let mut elos: Vec<i64> = Vec::new();
    let mut p2: usize = 0;
    while p2 < n_players
        invariant
            p2 <= n_players,
            elos@.len() == p2,
            forall|q: int| 0 <= q < p2 ==> #[trigger] elos@[q] == BASELINE,
        decreases n_players - p2,
    {
        elos.push(BASELINE);
        p2 += 1;
    }
    proof {
        lemma_iterate_len(games@, n_players as nat, k as int, 0);
        assert forall|q: int|
            0 <= q < n_players implies #[trigger] elos@[q] as int == iterate_spec(
            games@,
            n_players as nat,
            k as int,
            0,
        )[q] by {}
    }
    let mut round: usize = 0;
    while round < iterations
        invariant
            round <= iterations,
            iterations <= 1000,
            k <= 256,
            games@.len() <= 10000,
            n_games == games@.len(),
            by_player@.len() == n_players,
            forall|q: int|
                0 <= q < n_players ==> (#[trigger] by_player@[q])@ == half_games_of(games@, q),
            elos@.len() == n_players,
            forall|q: int|
                0 <= q < n_players ==> #[trigger] elos@[q] as int == iterate_spec(
                    games@,
                    n_players as nat,
                    k as int,
                    round as nat,
                )[q],
            forall|q: int|
                0 <= q < n_players ==> -(BASELINE + round * 0x500_0000_0000)
                    <= #[trigger] elos@[q] <= BASELINE + round * 0x500_0000_0000,
        decreases iterations - round,
    {
        let ghost elos_int = elos@.map_values(|x: i64| x as int);
        let mut next: Vec<i64> = Vec::new();
        let mut q: usize = 0;
        while q < n_players
            invariant
                q <= n_players,
                next@.len() == q,
                by_player@.len() == n_players,
                elos@.len() == n_players,
                elos_int == elos@.map_values(|x: i64| x as int),
                games@.len() <= 10000,
                k <= 256,
                forall|j: int|
                    0 <= j < n_players ==> (#[trigger] by_player@[j])@ == half_games_of(games@, j),
                round < iterations <= 1000,
                forall|j: int|
                    0 <= j < n_players ==> -(BASELINE + round * 0x500_0000_0000)
                        <= #[trigger] elos@[j] <= BASELINE + round * 0x500_0000_0000,
                forall|j: int|
                    0 <= j < q ==> #[trigger] next@[j] as int == new_elo_spec(
                        j,
                        half_games_of(games@, j),
                        elos_int,
                        k as int,
                    ),
                forall|j: int|
                    0 <= j < q ==> -(BASELINE + (round + 1) * 0x500_0000_0000)
                        <= #[trigger] next@[j] <= BASELINE + (round + 1) * 0x500_0000_0000,
            decreases n_players - q,
        {
            proof {
                lemma_half_games_entries(games@, q as int, n_players as int);
                assert forall|j: int|
                    0 <= j < n_players implies -0x40_0000_0000_0000 < #[trigger] elos@[j]
                    < 0x40_0000_0000_0000 by {
                    assert(round * 0x500_0000_0000 <= 1000 * 0x500_0000_0000);
                }
            }
            let nr = new_elo(q, &by_player[q], &elos, k);
            proof {
                lemma_delta_sum_bound(
                    elos_int[q as int],
                    by_player@[q as int]@,
                    elos_int,
                    0,
                );
                let d = delta_sum_from(elos_int[q as int], by_player@[q as int]@, elos_int, 0);
                assert(-0x500_0000_0000 <= (k as int) * d <= 0x500_0000_0000)
                    by (nonlinear_arith)
                    requires
                        k <= 256u64,
                        -65536 * 20000 <= d <= 65536 * 20000,
                ;
            }
            next.push(nr);
            q += 1;
        }
        proof {
            assert forall|j: int|
                0 <= j < n_players implies #[trigger] next@[j] as int == iterate_spec(
                games@,
                n_players as nat,
                k as int,
                (round + 1) as nat,
            )[j] by {
                assert(elos_int.len() == n_players);
                lemma_iterate_len(games@, n_players as nat, k as int, round as nat);
                lemma_iterate_len(games@, n_players as nat, k as int, (round + 1) as nat);
                assert(iterate_spec(games@, n_players as nat, k as int, round as nat) =~= elos_int);
            }
        }
        elos = next;
        round += 1;
    }
    elos
}

} // verus!
