//! Per-node routing tables, kept in the engine's hash maps (`bevy::utils`):
//! destination IP to next-hop node, and destination IP to path cost.

use vstd::prelude::*;
use bevy_utils::HashMap;

verus! {

/// Destination IP to the index of the next-hop node.
///
/// The map's type has an allocator parameter whose trait bound cannot be
/// named from outside its crate, so the map is held in a private field.
#[verifier::external_body]
pub struct RouteMap {
    map: HashMap<u32, usize>,
}

/// Destination IP to the total cost of the shortest path.
#[verifier::external_body]
pub struct CostMap {
    map: HashMap<u32, u32>,
}

/// What a `RouteMap` holds.
pub uninterp spec fn route_map_contents(m: RouteMap) -> Map<u32, usize>;

/// What a `CostMap` holds.
pub uninterp spec fn cost_map_contents(m: CostMap) -> Map<u32, u32>;

impl RouteMap {
    /// `HashMap::default`: a map with no entries.
    #[verifier::external_body]
    fn empty() -> (fresh: RouteMap)
        ensures
            route_map_contents(fresh).dom() == Set::<u32>::empty(),
    {
        RouteMap { map: HashMap::default() }
    }

    /// `HashMap::insert`: afterwards `ip` maps to `hop`, every other key is
    /// unchanged.
    #[verifier::external_body]
    fn put(&mut self, ip: u32, hop: usize)
        ensures
            route_map_contents(*final(self)) == route_map_contents(*old(self)).insert(ip, hop),
    {
        self.map.insert(ip, hop);
    }

    /// `HashMap::get`: the value stored for `ip`, if any.
    #[verifier::external_body]
    fn lookup(&self, ip: u32) -> (r: Option<usize>)
        ensures
            r == (if route_map_contents(*self).dom().contains(ip) {
                Some(route_map_contents(*self)[ip])
            } else {
                None
            }),
    {
        self.map.get(&ip).copied()
    }

    /// `HashMap::keys`: every key once, in the map's own order.
    #[verifier::external_body]
    fn key_list(&self) -> (ks: Vec<u32>)
        ensures
            ks@.no_duplicates(),
            ks@.to_set() == route_map_contents(*self).dom(),
    {
        self.map.keys().copied().collect()
    }
}

impl CostMap {
    /// `HashMap::default`: a map with no entries.
    #[verifier::external_body]
    fn empty() -> (fresh: CostMap)
        ensures
            cost_map_contents(fresh).dom() == Set::<u32>::empty(),
    {
        CostMap { map: HashMap::default() }
    }

    /// `HashMap::insert`: afterwards `ip` maps to `cost`, every other key is
    /// unchanged.
    #[verifier::external_body]
    fn put(&mut self, ip: u32, cost: u32)
        ensures
            cost_map_contents(*final(self)) == cost_map_contents(*old(self)).insert(ip, cost),
    {
        self.map.insert(ip, cost);
    }

    /// `HashMap::get`: the value stored for `ip`, if any.
    #[verifier::external_body]
    fn lookup(&self, ip: u32) -> (r: Option<u32>)
        ensures
            r == (if cost_map_contents(*self).dom().contains(ip) {
                Some(cost_map_contents(*self)[ip])
            } else {
                None
            }),
    {
        self.map.get(&ip).copied()
    }
}

/// The routes a node knows: next hop and path cost per destination IP.
pub struct RoutingTable {
    pub routes: RouteMap,
    pub route_costs: CostMap,
}

pub open spec fn opt_get<V>(m: Map<u32, V>, ip: u32) -> Option<V> {
    if m.dom().contains(ip) {
        Some(m[ip])
    } else {
        None
    }
}

impl RoutingTable {
    pub open spec fn hops(&self) -> Map<u32, usize> {
        route_map_contents(self.routes)
    }

    pub open spec fn costs(&self) -> Map<u32, u32> {
        cost_map_contents(self.route_costs)
    }

    /// A table with no routes.
    pub fn new() -> (t: Self)
        ensures
            t.hops() == Map::<u32, usize>::empty(),
            t.costs() == Map::<u32, u32>::empty(),
    {
        let t = RoutingTable { routes: RouteMap::empty(), route_costs: CostMap::empty() };
        assert(t.hops() =~= Map::<u32, usize>::empty());
        assert(t.costs() =~= Map::<u32, u32>::empty());
        t
    }

    /// Records the next hop towards `ip`.
    pub fn set_route(&mut self, ip: u32, hop: usize)
        ensures
            final(self).hops() == old(self).hops().insert(ip, hop),
            final(self).costs() == old(self).costs(),
    {
        self.routes.put(ip, hop);
    }

    /// Records the path cost towards `ip`.
    pub fn set_cost(&mut self, ip: u32, cost: u32)
        ensures
            final(self).costs() == old(self).costs().insert(ip, cost),
            final(self).hops() == old(self).hops(),
    {
        self.route_costs.put(ip, cost);
    }

    /// The next hop towards `ip`, if the table has a route to it.
    pub fn next_hop(&self, ip: u32) -> (r: Option<usize>)
        ensures
            r == opt_get(self.hops(), ip),
    {
        self.routes.lookup(ip)
    }

    /// The path cost towards `ip`, if the table knows it.
    pub fn cost_to(&self, ip: u32) -> (r: Option<u32>)
        ensures
            r == opt_get(self.costs(), ip),
    {
        self.route_costs.lookup(ip)
    }

    /// The destination IPs the table has a next hop for, each once.
    pub fn destinations(&self) -> (ks: Vec<u32>)
        ensures
            ks@.no_duplicates(),
            ks@.to_set() == self.hops().dom(),
    {
        self.routes.key_list()
    }
}

impl Default for RoutingTable {
    fn default() -> (t: Self)
        ensures
            t.hops() == Map::<u32, usize>::empty(),
            t.costs() == Map::<u32, u32>::empty(),
    {
        RoutingTable::new()
    }
}

} // verus!
