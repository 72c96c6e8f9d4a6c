//! Bought-out teams: which teams are out, and handing their nodes back to
//! neutral.

use vstd::prelude::*;
use crate::network::{BUYOUT_LOCK_TICKS, NetworkNode, Owner};

verus! {

/// Which teams have been bought out.
#[derive(Debug, Clone, Copy, PartialEq, Eq, Structural)]
pub struct Eliminations {
    pub player: bool,
    pub ai1: bool,
    pub ai2: bool,
    pub ai3: bool,
}

pub open spec fn spec_is_eliminated(e: Eliminations, team: Owner) -> bool {
    match team {
        Owner::Player => e.player,
        Owner::AI1 => e.ai1,
        Owner::AI2 => e.ai2,
        Owner::AI3 => e.ai3,
        Owner::Neutral => false,
    }
}

/// A node after its team's buyout: neutral if its owner is out, as it was
/// otherwise.
pub open spec fn after_buyout(e: Eliminations, node: NetworkNode) -> NetworkNode {
    if spec_is_eliminated(e, node.owner) {
        NetworkNode { owner: Owner::Neutral, ..node }
    } else {
        node
    }
}

impl Eliminations {
    /// Nobody bought out yet.
    pub fn none() -> (e: Self)
        ensures
            !e.player && !e.ai1 && !e.ai2 && !e.ai3,
    {
        Eliminations { player: false, ai1: false, ai2: false, ai3: false }
    }

    /// Whether `team` has been bought out; never for neutral.
    pub fn is_eliminated(&self, team: Owner) -> (b: bool)
        ensures
            b == spec_is_eliminated(*self, team),
    {
        match team {
            Owner::Player => self.player,
            Owner::AI1 => self.ai1,
            Owner::AI2 => self.ai2,
            Owner::AI3 => self.ai3,
            Owner::Neutral => false,
        }
    }

    /// Marks `team` as bought out; marking neutral changes nothing.
    pub fn eliminate(&mut self, team: Owner)
        ensures
            forall|t: Owner|
                spec_is_eliminated(*final(self), t) == (spec_is_eliminated(*old(self), t) || (t == team
                    && t != Owner::Neutral)),
    {
        match team {
            Owner::Player => self.player = true,
            Owner::AI1 => self.ai1 = true,
            Owner::AI2 => self.ai2 = true,
            Owner::AI3 => self.ai3 = true,
            Owner::Neutral => {},
        }
    }
}

/// Whether a team may be bought out at `tick`: only once the safety lock
/// of `BUYOUT_LOCK_TICKS` ticks has expired.
pub fn buyout_allowed(tick: u64) -> (b: bool)
    ensures
        b == (tick >= BUYOUT_LOCK_TICKS),
{
    tick >= BUYOUT_LOCK_TICKS
}

/// Resets the ownership of every node of a bought-out team to neutral.
pub fn handle_eliminations(elims: Eliminations, nodes: &mut Vec<NetworkNode>)
    ensures
        final(nodes)@.len() == old(nodes)@.len(),
        forall|i: int|
            0 <= i < old(nodes)@.len() ==> #[trigger] final(nodes)@[i] == after_buyout(elims, old(nodes)@[i]),
{
    let ghost start = nodes@;
    let mut i: usize = 0;
    while i < nodes.len()
        invariant
            i <= nodes.len(),
            nodes@.len() == start.len(),
            forall|j: int| 0 <= j < i ==> #[trigger] nodes@[j] == after_buyout(elims, start[j]),
            forall|j: int| i <= j < nodes@.len() ==> #[trigger] nodes@[j] == start[j],
        decreases nodes.len() - i,
    {
        let node = nodes[i];
        if elims.is_eliminated(node.owner) {
            nodes.set(i, NetworkNode { owner: Owner::Neutral, ..node });
        }
        i = i + 1;
    }
}

/// After a buyout no node belongs to a team that is out, and nodes of
/// teams still in the game are untouched.
pub proof fn law_buyout_leaves_no_owner(e: Eliminations, node: NetworkNode)
    ensures
        !spec_is_eliminated(e, after_buyout(e, node).owner),
        !spec_is_eliminated(e, node.owner) ==> after_buyout(e, node) == node,
        after_buyout(e, node).ip == node.ip && after_buyout(e, node).coord == node.coord
            && after_buyout(e, node).node_type == node.node_type,
{
}

/// Handing nodes back a second time changes nothing.
pub proof fn law_buyout_idempotent(e: Eliminations, node: NetworkNode)
    ensures
        after_buyout(e, after_buyout(e, node)) == after_buyout(e, node),
{
}

} // verus!
