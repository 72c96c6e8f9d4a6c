//! Match ratings from integer match statistics: how contested the cities
//! were, how buyouts were paced, and whether the safety lock held.

use vstd::prelude::*;
use crate::network::{BUYOUT_LOCK_TICKS, Owner};

verus! {

/// A city's holder changed from one team straight to another team (a
/// contested transition; gaining or losing a city to neutral is not one).
pub fn contested_switch(last: Owner, current: Owner) -> (b: bool)
    ensures
        b == (last != current && last != Owner::Neutral && current != Owner::Neutral),
{
    last != current && last != Owner::Neutral && current != Owner::Neutral
}

pub open spec fn spec_fun_score(switches: u64, eliminations: u64) -> int {
    let tension: int = if switches == 0 {
        -30
    } else if switches <= 2 {
        -10
    } else {
        0
    };
    let pacing: int = if eliminations == 0 {
        -15
    } else if eliminations >= 3 {
        -20
    } else {
        15
    };
    100 + tension + pacing
}

/// How engaging a match was, out of a base of 100: contested cities add
/// tension (none costs 30, one or two cost 10), and one or two buyouts pace
/// the match well (+15) where none (-15) or three or more (-20) do not.
pub fn fun_score(switches: u64, eliminations: u64) -> (score: i32)
    ensures
        score == spec_fun_score(switches, eliminations),
{
    let mut score: i32 = 100;
    if switches == 0 {
        score = score - 30;
    } else if switches <= 2 {
        score = score - 10;
    }
    if eliminations == 0 {
        score = score - 15;
    } else if eliminations >= 3 {
        score = score - 20;
    } else {
        score = score + 15;
    }
    score
}

pub open spec fn any_early(ticks: Seq<Option<u64>>) -> bool {
    exists|i: int| 0 <= i < ticks.len() && ((#[trigger] ticks[i]) matches Some(t) && t < BUYOUT_LOCK_TICKS)
}

/// Whether some team was bought out before the safety lock expired, given
/// the tick at which each team was bought out, if it was.
pub fn early_buyout(ticks: &Vec<Option<u64>>) -> (b: bool)
    ensures
        b == any_early(ticks@),
{
    let mut i: usize = 0;
    while i < ticks.len()
        invariant
            i <= ticks.len(),
            forall|j: int| 0 <= j < i ==> !((#[trigger] ticks@[j]) matches Some(t) && t < BUYOUT_LOCK_TICKS),
        decreases ticks.len() - i,
    {
        if let Some(t) = ticks[i] {
            if t < BUYOUT_LOCK_TICKS {
                assert(ticks@[i as int] matches Some(t) && t < BUYOUT_LOCK_TICKS);
                return true;
            }
        }
        i = i + 1;
    }
    false
}

/// The balance rating of a match, out of 100: an early buyout costs 40, one
/// team holding over three quarters of the cities costs 20, and a match
/// with no buyout at all costs 15.
pub fn balance_rating(early: bool, dominated: bool, eliminations: u64) -> (score: i32)
    ensures
        score == 100 - (if early { 40int } else { 0int }) - (if dominated { 20int } else { 0int }) - (if eliminations
            == 0 { 15int } else { 0int }),
{
    let mut score: i32 = 100;
    if early {
        score = score - 40;
    }
    if dominated {
        score = score - 20;
    }
    if eliminations == 0 {
        score = score - 15;
    }
    score
}

} // verus!
