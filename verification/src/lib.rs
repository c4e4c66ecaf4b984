//! Orchestration of two-player board-game matches between external agent
//! programs: board rules, the agent request/response protocol, a per-match
//! state machine, an arena scheduler with bounded concurrency, and an
//! iterative rating engine.
#![verifier::loop_isolation(false)]

pub mod ai;
pub mod console;
pub mod elo;
pub mod arena;
pub mod game;
pub mod mixed_player;
pub mod othello;
pub mod text;
pub mod visual;

use vstd::prelude::*;

verus! {

/// True exactly when no string occurs twice in `items`.
pub open spec fn unique_spec(items: Seq<Seq<char>>) -> bool {
    forall|i: int, j: int| 0 <= i < j < items.len() ==> items[i] != items[j]
}

/// Reports whether all strings in `items` are pairwise distinct.
pub fn has_unique_elements(items: &Vec<String>) -> (r: bool)
    ensures
        r == unique_spec(items.deep_view()),
{
    let n = items.len();
    for i in 0..n
        invariant
            forall|a: int, b: int| 0 <= a < b < i ==> items.deep_view()[a] != items.deep_view()[b],
    {
        for j in 0..i
            invariant
                i < n,
                forall|a: int, b: int|
                    0 <= a < b < i ==> items.deep_view()[a] != items.deep_view()[b],
                forall|b: int| 0 <= b < j ==> items.deep_view()[b] != items.deep_view()[i as int],
        {
            if items[j].eq(&items[i]) {
                proof {
                    assert(items.deep_view()[j as int] == items.deep_view()[i as int]);
                }
                return false;
            }
        }
    }
    true
}

} // verus!
