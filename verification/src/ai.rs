//! The computer opponents' decisions that need no arithmetic on bandwidth:
//! when to act, whom a buyout may target, which router to upgrade and which
//! nodes and cities could be wired together.

use vstd::prelude::*;
use crate::eliminations::{Eliminations, buyout_allowed, spec_is_eliminated};
use crate::network::{
    BUYOUT_LOCK_TICKS, NetworkLink, NetworkNode, NodeType, Owner, links_connect, spec_links_connect,
};
use crate::table::RoutingTable;

verus! {

/// Ticks between two decision rounds (about two seconds).
pub const AI_DECISION_PERIOD: u64 = 120;

/// Whether the opponents decide at this tick.
pub fn ai_decision_due(tick: u64) -> (due: bool)
    ensures
        due == (tick % 120 == 0),
{
    tick % AI_DECISION_PERIOD == 0
}

pub open spec fn spec_ai_main_ip(team: Owner) -> u32 {
    match team {
        Owner::AI1 => 100,
        Owner::AI2 => 200,
        Owner::AI3 => 300,
        _ => 0,
    }
}

/// The main data center address an opponent plays from; zero for any other
/// owner.
pub fn ai_main_ip(team: Owner) -> (ip: u32)
    ensures
        ip == spec_ai_main_ip(team),
{
    match team {
        Owner::AI1 => 100,
        Owner::AI2 => 200,
        Owner::AI3 => 300,
        _ => 0,
    }
}

pub open spec fn spec_connected_to_main(node: NetworkNode, table: RoutingTable, main_ip: u32) -> bool {
    table.costs().dom().contains(main_ip) || node.ip == main_ip
}

/// Whether a node is wired back to the main data center at `main_ip` (or
/// is that data center).
pub fn connected_to_main(node: &NetworkNode, table: &RoutingTable, main_ip: u32) -> (b: bool)
    ensures
        b == spec_connected_to_main(*node, *table, main_ip),
{
    table.cost_to(main_ip).is_some() || node.ip == main_ip
}

pub open spec fn target_if(current: Owner, e: Eliminations, t: Owner) -> Seq<Owner> {
    if t != current && !spec_is_eliminated(e, t) {
        seq![t]
    } else {
        Seq::empty()
    }
}

/// The teams still in the game other than `current`, in turn order.
pub open spec fn spec_buyout_targets(current: Owner, e: Eliminations) -> Seq<Owner> {
    target_if(current, e, Owner::Player) + target_if(current, e, Owner::AI1) + target_if(
        current,
        e,
        Owner::AI2,
    ) + target_if(current, e, Owner::AI3)
}

/// The teams that `current` could buy out: every other team still in the
/// game, player first.
pub fn buyout_targets(current: Owner, elims: Eliminations) -> (ts: Vec<Owner>)
    ensures
        ts@ == spec_buyout_targets(current, elims),
{
    let mut ts: Vec<Owner> = Vec::new();
    let order = [Owner::Player, Owner::AI1, Owner::AI2, Owner::AI3];
    let mut i: usize = 0;
    while i < 4
        invariant
            i <= 4,
            order@ == seq![Owner::Player, Owner::AI1, Owner::AI2, Owner::AI3],
            ts@ == (if i >= 1 { target_if(current, elims, Owner::Player) } else { Seq::empty() })
                + (if i >= 2 { target_if(current, elims, Owner::AI1) } else { Seq::empty() })
                + (if i >= 3 { target_if(current, elims, Owner::AI2) } else { Seq::empty() })
                + (if i >= 4 { target_if(current, elims, Owner::AI3) } else { Seq::empty() }),
        decreases 4 - i,
    {
        let t = order[i];
        let ghost before = ts@;
        if t != current && !elims.is_eliminated(t) {
            ts.push(t);
        }
        assert(ts@ =~= before + target_if(current, elims, t));
        i = i + 1;
    }
    assert(ts@ =~= spec_buyout_targets(current, elims));
    ts
}

/// The teams that `current` may buy out at `tick`: none while the safety
/// lock holds, afterwards every other team still in the game, player first.
pub fn buyout_options(tick: u64, current: Owner, elims: Eliminations) -> (ts: Vec<Owner>)
    ensures
        ts@ == (if tick >= BUYOUT_LOCK_TICKS {
            spec_buyout_targets(current, elims)
        } else {
            Seq::empty()
        }),
{
    if buyout_allowed(tick) {
        buyout_targets(current, elims)
    } else {
        Vec::new()
    }
}

/// Node `i` is a router of `team` wired back to its main data center.
pub open spec fn upgradable(
    team: Owner,
    main_ip: u32,
    nodes: Seq<NetworkNode>,
    tables: Seq<RoutingTable>,
    i: int,
) -> bool {
    &&& nodes[i].owner == team
    &&& nodes[i].node_type == NodeType::Router
    &&& spec_connected_to_main(nodes[i], tables[i], main_ip)
}

/// The first of `team`'s routers that is wired back to its main data
/// center, if any: the one an upgrade turns into a data center.
pub fn upgrade_candidate(
    team: Owner,
    main_ip: u32,
    nodes: &Vec<NetworkNode>,
    tables: &Vec<RoutingTable>,
) -> (r: Option<usize>)
    requires
        tables.len() == nodes.len(),
    ensures
        r is None ==> forall|j: int| 0 <= j < nodes.len() ==> !#[trigger] upgradable(team, main_ip, nodes@, tables@, j),
        r matches Some(i) ==> i < nodes.len() && upgradable(team, main_ip, nodes@, tables@, i as int) && forall|j: int|
            0 <= j < i ==> !#[trigger] upgradable(team, main_ip, nodes@, tables@, j),
{
    let mut i: usize = 0;
    while i < nodes.len()
        invariant
            i <= nodes.len(),
            tables.len() == nodes.len(),
            forall|j: int| 0 <= j < i ==> !#[trigger] upgradable(team, main_ip, nodes@, tables@, j),
        decreases nodes.len() - i,
    {
        let node = nodes[i];
        if node.owner == team && node.node_type == NodeType::Router && connected_to_main(&node, &tables[i], main_ip) {
            return Some(i);
        }
        i = i + 1;
    }
    None
}

/// A city that `team` does not own.
pub open spec fn is_target_city(team: Owner, n: NetworkNode) -> bool {
    n.owner != team && n.node_type == NodeType::City
}

/// The pairs `(a, c)` with `a < ka` a node of `team` and `c < kc` a city it
/// does not own, not yet joined by any link.
pub open spec fn pairs_from(team: Owner, nodes: Seq<NetworkNode>, links: Seq<NetworkLink>, a: int, kc: int) -> Seq<(usize, usize)>
    decreases kc,
{
    if kc <= 0 {
        Seq::empty()
    } else {
        let c = kc - 1;
        pairs_from(team, nodes, links, a, kc - 1) + (if is_target_city(team, nodes[c])
            && !spec_links_connect(links, a as usize, c as usize) {
            seq![(a as usize, c as usize)]
        } else {
            Seq::empty()
        })
    }
}

pub open spec fn pairs_upto(team: Owner, nodes: Seq<NetworkNode>, links: Seq<NetworkLink>, ka: int) -> Seq<(usize, usize)>
    decreases ka,
{
    if ka <= 0 {
        Seq::empty()
    } else {
        let a = ka - 1;
        pairs_upto(team, nodes, links, ka - 1) + (if nodes[a].owner == team {
            pairs_from(team, nodes, links, a, nodes.len() as int)
        } else {
            Seq::empty()
        })
    }
}

/// The candidate links for expansion: every node of `team` with every city
/// it does not own, where no link joins the two yet, node by node.
pub fn expansion_candidates(team: Owner, nodes: &Vec<NetworkNode>, links: &Vec<NetworkLink>) -> (ps: Vec<(usize, usize)>)
    ensures
        ps@ == pairs_upto(team, nodes@, links@, nodes.len() as int),
{
    let mut ps: Vec<(usize, usize)> = Vec::new();
    let mut a: usize = 0;
    while a < nodes.len()
        invariant
            a <= nodes.len(),
            ps@ == pairs_upto(team, nodes@, links@, a as int),
        decreases nodes.len() - a,
    {
        let ghost before = ps@;
        if nodes[a].owner == team {
            let mut c: usize = 0;
            while c < nodes.len()
                invariant
                    a < nodes.len(),
                    c <= nodes.len(),
                    nodes@[a as int].owner == team,
                    ps@ == before + pairs_from(team, nodes@, links@, a as int, c as int),
                decreases nodes.len() - c,
            {
                let ghost here = ps@;
                let cn = nodes[c];
                if cn.owner != team && cn.node_type == NodeType::City && !links_connect(links, a, c) {
                    ps.push((a, c));
                }
                assert(ps@ =~= before + pairs_from(team, nodes@, links@, a as int, c + 1));
                c = c + 1;
            }
        }
        assert(ps@ =~= pairs_upto(team, nodes@, links@, a + 1));
        a = a + 1;
    }
    ps
}

/// A buyout only ever targets another team still in the game, and every
/// such team is a target exactly once.
pub proof fn law_buyout_targets_valid(current: Owner, e: Eliminations)
    ensures
        forall|k: int|
            0 <= k < spec_buyout_targets(current, e).len() ==> {
                let t = #[trigger] spec_buyout_targets(current, e)[k];
                &&& t != current
                &&& t != Owner::Neutral
                &&& !spec_is_eliminated(e, t)
            },
        forall|t: Owner|
            t != current && t != Owner::Neutral && !spec_is_eliminated(e, t) ==> #[trigger] spec_buyout_targets(
                current,
                e,
            ).contains(t),
        spec_buyout_targets(current, e).no_duplicates(),
{
    let s = spec_buyout_targets(current, e);
    let s0 = target_if(current, e, Owner::Player);
    let s1 = target_if(current, e, Owner::AI1);
    let s2 = target_if(current, e, Owner::AI2);
    let s3 = target_if(current, e, Owner::AI3);
    assert(s == s0 + s1 + s2 + s3);
    assert forall|k: int| 0 <= k < s.len() implies {
        let t = #[trigger] s[k];
        &&& t != current
        &&& t != Owner::Neutral
        &&& !spec_is_eliminated(e, t)
    } by {
        if k < s0.len() {
            assert(s[k] == s0[k]);
        } else if k < s0.len() + s1.len() {
            assert(s[k] == s1[k - s0.len()]);
        } else if k < s0.len() + s1.len() + s2.len() {
            assert(s[k] == s2[k - s0.len() - s1.len()]);
        } else {
            assert(s[k] == s3[k - s0.len() - s1.len() - s2.len()]);
        }
    }
    assert forall|t: Owner| t != current && t != Owner::Neutral && !spec_is_eliminated(e, t) implies #[trigger] s.contains(t) by {
        match t {
            Owner::Player => assert(s[0] == t),
            Owner::AI1 => assert(s[s0.len() as int] == t),
            Owner::AI2 => assert(s[(s0.len() + s1.len()) as int] == t),
            Owner::AI3 => assert(s[(s0.len() + s1.len() + s2.len()) as int] == t),
            Owner::Neutral => {},
        }
    }
    assert forall|i: int, j: int| 0 <= i < s.len() && 0 <= j < s.len() && i != j implies s[i] != s[j] by {
        let b1 = s0.len() as int;
        let b2 = b1 + s1.len();
        let b3 = b2 + s2.len();
        assert(i < b1 ==> s[i] == Owner::Player);
        assert(b1 <= i < b2 ==> s[i] == Owner::AI1);
        assert(b2 <= i < b3 ==> s[i] == Owner::AI2);
        assert(b3 <= i ==> s[i] == Owner::AI3);
        assert(j < b1 ==> s[j] == Owner::Player);
        assert(b1 <= j < b2 ==> s[j] == Owner::AI1);
        assert(b2 <= j < b3 ==> s[j] == Owner::AI2);
        assert(b3 <= j ==> s[j] == Owner::AI3);
    }
}

/// A candidate link for expansion joins a node of `team` to a different
/// node, a city that `team` does not own, with no link between them yet.
pub open spec fn valid_expansion(team: Owner, nodes: Seq<NetworkNode>, links: Seq<NetworkLink>, pr: (usize, usize)) -> bool {
    &&& pr.0 < nodes.len()
    &&& pr.1 < nodes.len()
    &&& pr.0 != pr.1
    &&& nodes[pr.0 as int].owner == team
    &&& is_target_city(team, nodes[pr.1 as int])
    &&& !spec_links_connect(links, pr.0, pr.1)
}

proof fn lemma_pairs_from_valid(team: Owner, nodes: Seq<NetworkNode>, links: Seq<NetworkLink>, a: int, kc: int)
    requires
        0 <= a < nodes.len(),
        nodes[a].owner == team,
        kc <= nodes.len(),
        nodes.len() <= usize::MAX,
    ensures
        forall|k: int|
            0 <= k < pairs_from(team, nodes, links, a, kc).len() ==> valid_expansion(
                team,
                nodes,
                links,
                #[trigger] pairs_from(team, nodes, links, a, kc)[k],
            ),
    decreases kc,
{
    if kc > 0 {
        lemma_pairs_from_valid(team, nodes, links, a, kc - 1);
        let prev = pairs_from(team, nodes, links, a, kc - 1);
        let cur = pairs_from(team, nodes, links, a, kc);
        assert forall|k: int| 0 <= k < cur.len() implies valid_expansion(team, nodes, links, #[trigger] cur[k]) by {
            if k < prev.len() {
                assert(cur[k] == prev[k]);
            }
        }
    }
}

proof fn lemma_pairs_upto_valid(team: Owner, nodes: Seq<NetworkNode>, links: Seq<NetworkLink>, ka: int)
    requires
        ka <= nodes.len(),
        nodes.len() <= usize::MAX,
    ensures
        forall|k: int|
            0 <= k < pairs_upto(team, nodes, links, ka).len() ==> valid_expansion(
                team,
                nodes,
                links,
                #[trigger] pairs_upto(team, nodes, links, ka)[k],
            ),
    decreases ka,
{
    if ka > 0 {
        lemma_pairs_upto_valid(team, nodes, links, ka - 1);
        let a = ka - 1;
        let prev = pairs_upto(team, nodes, links, ka - 1);
        let cur = pairs_upto(team, nodes, links, ka);
        if nodes[a].owner == team {
            lemma_pairs_from_valid(team, nodes, links, a, nodes.len() as int);
            let more = pairs_from(team, nodes, links, a, nodes.len() as int);
            assert forall|k: int| 0 <= k < cur.len() implies valid_expansion(team, nodes, links, #[trigger] cur[k]) by {
                if k < prev.len() {
                    assert(cur[k] == prev[k]);
                } else {
                    assert(cur[k] == more[k - prev.len()]);
                }
            }
        } else {
            assert(cur =~= prev);
        }
    }
}

/// Every expansion candidate is a valid new link from `team`'s network to a
/// city it does not own.
pub proof fn law_expansion_candidates_valid(team: Owner, nodes: Seq<NetworkNode>, links: Seq<NetworkLink>)
    requires
        nodes.len() <= usize::MAX,
    ensures
        forall|k: int|
            0 <= k < pairs_upto(team, nodes, links, nodes.len() as int).len() ==> valid_expansion(
                team,
                nodes,
                links,
                #[trigger] pairs_upto(team, nodes, links, nodes.len() as int)[k],
            ),
{
    lemma_pairs_upto_valid(team, nodes, links, nodes.len() as int);
}

} // verus!
