//! Hash maps of the model, kept in `hashbrown::HashMap`.
//!
//! `hashbrown` walks its entries in an order fixed by a per-process random
//! seed, so nothing here states the order in which entries come out.
use vstd::prelude::*;

use crate::types::{RaptorStopId, StreetNodeId, Time, Transfer};

verus! {

/// Street node to canonical stop, held in a `hashbrown::HashMap<u32, usize>`.
#[verifier::external_body]
pub struct NodeStopMap {
    map: hashbrown::HashMap<StreetNodeId, RaptorStopId>,
}

/// The entries of a [`NodeStopMap`].
pub uninterp spec fn node_stop_entries(m: NodeStopMap) -> Map<StreetNodeId, RaptorStopId>;

impl View for NodeStopMap {
    type V = Map<StreetNodeId, RaptorStopId>;

    open spec fn view(&self) -> Map<StreetNodeId, RaptorStopId> {
        node_stop_entries(*self)
    }
}

impl NodeStopMap {
    /// `hashbrown::HashMap::new`: an empty map.
    #[verifier::external_body]
    pub fn new() -> (created: NodeStopMap)
        ensures
            (node_stop_entries(created) == Map::<StreetNodeId, RaptorStopId>::empty()),
    {
        NodeStopMap { map: hashbrown::HashMap::new() }
    }

    /// `hashbrown::HashMap::insert`: the key now maps to the value; other
    /// entries are unchanged.
    #[verifier::external_body]
    pub fn insert(&mut self, node: StreetNodeId, stop: RaptorStopId)
        ensures
            node_stop_entries(*final(self)) == node_stop_entries(*old(self)).insert(node, stop),
    {
        self.map.insert(node, stop);
    }

    /// `hashbrown::HashMap::get`: the value stored under the key, if any.
    #[verifier::external_body]
    pub fn get(&self, node: StreetNodeId) -> (r: Option<RaptorStopId>)
        ensures
            r == (if node_stop_entries(*self).contains_key(node) { Some(node_stop_entries(*self)[node]) } else { None::<RaptorStopId> }),
    {
        self.map.get(&node).copied()
    }

    /// `hashbrown::HashMap::iter`, collected: every entry exactly once, in
    /// the map's own (seeded) order.
    #[verifier::external_body]
    pub fn entries(&self) -> (r: Vec<(StreetNodeId, RaptorStopId)>)
        ensures
            forall|i: int| 0 <= i < r@.len() ==> #[trigger] node_stop_entries(*self).contains_key(r@[i].0) && node_stop_entries(*self)[r@[i].0] == r@[i].1,
            forall|k: StreetNodeId| #[trigger] node_stop_entries(*self).contains_key(k) ==> exists|i: int| 0 <= i < r@.len() && #[trigger] r@[i].0 == k,
            forall|i: int, j: int| 0 <= i < r@.len() && 0 <= j < r@.len() && i != j ==> r@[i].0 != r@[j].0,
    {
        self.map.iter().map(|(k, v)| (*k, *v)).collect()
    }
}

/// Walking time from an origin to each reached street node, held in a
/// `hashbrown::HashMap<u32, u32>`.
#[verifier::external_body]
pub struct WalkingTimes {
    map: hashbrown::HashMap<StreetNodeId, Time>,
}

/// The entries of a [`WalkingTimes`].
pub uninterp spec fn walking_time_entries(m: WalkingTimes) -> Map<StreetNodeId, Time>;

impl View for WalkingTimes {
    type V = Map<StreetNodeId, Time>;

    open spec fn view(&self) -> Map<StreetNodeId, Time> {
        walking_time_entries(*self)
    }
}

impl WalkingTimes {
    /// `hashbrown::HashMap::new`: an empty map.
    #[verifier::external_body]
    pub fn new() -> (created: WalkingTimes)
        ensures
            (walking_time_entries(created) == Map::<StreetNodeId, Time>::empty()),
    {
        WalkingTimes { map: hashbrown::HashMap::new() }
    }

    /// `hashbrown::HashMap::insert`: the key now maps to the value; other
    /// entries are unchanged.
    #[verifier::external_body]
    pub fn insert(&mut self, node: StreetNodeId, time: Time)
        ensures
            walking_time_entries(*final(self)) == walking_time_entries(*old(self)).insert(node, time),
    {
        self.map.insert(node, time);
    }

    /// `hashbrown::HashMap::get`: the value stored under the key, if any.
    #[verifier::external_body]
    pub fn get(&self, node: StreetNodeId) -> (r: Option<Time>)
        ensures
            r == (if walking_time_entries(*self).contains_key(node) { Some(walking_time_entries(*self)[node]) } else { None::<Time> }),
    {
        self.map.get(&node).copied()
    }

    /// `hashbrown::HashMap::iter`, collected: every entry exactly once, in
    /// the map's own (seeded) order.
    #[verifier::external_body]
    pub fn entries(&self) -> (r: Vec<(StreetNodeId, Time)>)
        ensures
            forall|i: int| 0 <= i < r@.len() ==> #[trigger] walking_time_entries(*self).contains_key(r@[i].0) && walking_time_entries(*self)[r@[i].0] == r@[i].1,
            forall|k: StreetNodeId| #[trigger] walking_time_entries(*self).contains_key(k) ==> exists|i: int| 0 <= i < r@.len() && #[trigger] r@[i].0 == k,
            forall|i: int, j: int| 0 <= i < r@.len() && 0 <= j < r@.len() && i != j ==> r@[i].0 != r@[j].0,
    {
        self.map.iter().map(|(k, v)| (*k, *v)).collect()
    }
}

} // verus!

verus! {

/// Street node to the stops snapped to it, held in a
/// `hashbrown::HashMap<u32, Vec<usize>>`.
#[verifier::external_body]
pub struct StopsByNode {
    map: hashbrown::HashMap<StreetNodeId, Vec<RaptorStopId>>,
}

/// The entries of a [`StopsByNode`].
pub uninterp spec fn stops_by_node_entries(m: StopsByNode) -> Map<StreetNodeId, Seq<RaptorStopId>>;

impl View for StopsByNode {
    type V = Map<StreetNodeId, Seq<RaptorStopId>>;

    open spec fn view(&self) -> Map<StreetNodeId, Seq<RaptorStopId>> {
        stops_by_node_entries(*self)
    }
}

impl StopsByNode {
    /// `hashbrown::HashMap::new`: an empty map.
    #[verifier::external_body]
    pub fn new() -> (created: StopsByNode)
        ensures
            (stops_by_node_entries(created) == Map::<StreetNodeId, Seq<RaptorStopId>>::empty()),
    {
        StopsByNode { map: hashbrown::HashMap::new() }
    }

    /// `entry(node).or_default().push(stop)`: the stop is appended to the
    /// node's list, which starts empty.
    #[verifier::external_body]
    pub fn append(&mut self, node: StreetNodeId, stop: RaptorStopId)
        ensures
            stops_by_node_entries(*final(self)) == stops_by_node_entries(*old(self)).insert(
                node,
                (if stops_by_node_entries(*old(self)).contains_key(node) {
                    stops_by_node_entries(*old(self))[node]
                } else {
                    Seq::<RaptorStopId>::empty()
                }).push(stop),
            ),
    {
        self.map.entry(node).or_default().push(stop);
    }

    /// `hashbrown::HashMap::get`: the node's list, if any.
    #[verifier::external_body]
    pub fn get(&self, node: StreetNodeId) -> (r: Option<&Vec<RaptorStopId>>)
        ensures
            r is Some <==> stops_by_node_entries(*self).contains_key(node),
            r matches Some(v) ==> v@ == stops_by_node_entries(*self)[node],
    {
        self.map.get(&node)
    }

    /// `hashbrown::HashMap::iter`, collected with cloned lists: every entry
    /// exactly once, in the map's own (seeded) order.
    #[verifier::external_body]
    pub fn entries(&self) -> (r: Vec<(StreetNodeId, Vec<RaptorStopId>)>)
        ensures
            forall|i: int| 0 <= i < r@.len() ==> #[trigger] stops_by_node_entries(*self).contains_key(r@[i].0)
                && stops_by_node_entries(*self)[r@[i].0] == r@[i].1@,
            forall|k: StreetNodeId| #[trigger] stops_by_node_entries(*self).contains_key(k) ==> exists|i: int| 0 <= i < r@.len() && #[trigger] r@[i].0 == k,
            forall|i: int, j: int| 0 <= i < r@.len() && 0 <= j < r@.len() && i != j ==> r@[i].0 != r@[j].0,
    {
        self.map.iter().map(|(k, v)| (*k, v.clone())).collect()
    }
}

/// Stop to its transfers, held in a `hashbrown::HashMap<usize, Vec<Transfer>>`.
#[verifier::external_body]
pub struct TransfersByStop {
    map: hashbrown::HashMap<RaptorStopId, Vec<Transfer>>,
}

/// The entries of a [`TransfersByStop`].
pub uninterp spec fn transfers_by_stop_entries(m: TransfersByStop) -> Map<RaptorStopId, Seq<Transfer>>;

impl TransfersByStop {
    /// `hashbrown::HashMap::new`: an empty map.
    #[verifier::external_body]
    pub fn new() -> (created: TransfersByStop)
        ensures
            (transfers_by_stop_entries(created) == Map::<RaptorStopId, Seq<Transfer>>::empty()),
    {
        TransfersByStop { map: hashbrown::HashMap::new() }
    }

    /// `entry(stop).or_default().push(transfer)`: the transfer is appended to
    /// the stop's list, which starts empty.
    #[verifier::external_body]
    pub fn append(&mut self, stop: RaptorStopId, transfer: Transfer)
        ensures
            transfers_by_stop_entries(*final(self)) == transfers_by_stop_entries(*old(self)).insert(
                stop,
                (if transfers_by_stop_entries(*old(self)).contains_key(stop) {
                    transfers_by_stop_entries(*old(self))[stop]
                } else {
                    Seq::<Transfer>::empty()
                }).push(transfer),
            ),
    {
        self.map.entry(stop).or_default().push(transfer);
    }

    /// `entry(stop).or_default()`: the stop has an entry, empty if it had none.
    #[verifier::external_body]
    pub fn ensure_entry(&mut self, stop: RaptorStopId)
        ensures
            transfers_by_stop_entries(*final(self)) == (if transfers_by_stop_entries(*old(self)).contains_key(stop) {
                transfers_by_stop_entries(*old(self))
            } else {
                transfers_by_stop_entries(*old(self)).insert(stop, Seq::<Transfer>::empty())
            }),
    {
        self.map.entry(stop).or_default();
    }

    /// `hashbrown::HashMap::into_iter`, collected: every entry exactly once,
    /// in the map's own (seeded) order.
    #[verifier::external_body]
    pub fn into_entries(self) -> (r: Vec<(RaptorStopId, Vec<Transfer>)>)
        ensures
            forall|i: int| 0 <= i < r@.len() ==> #[trigger] transfers_by_stop_entries(self).contains_key(r@[i].0)
                && transfers_by_stop_entries(self)[r@[i].0] == r@[i].1@,
            forall|k: RaptorStopId| #[trigger] transfers_by_stop_entries(self).contains_key(k) ==> exists|i: int| 0 <= i < r@.len() && #[trigger] r@[i].0 == k,
            forall|i: int, j: int| 0 <= i < r@.len() && 0 <= j < r@.len() && i != j ==> r@[i].0 != r@[j].0,
    {
        self.map.into_iter().collect()
    }
}

/// Stop to target stop to transfer, held in a
/// `hashbrown::HashMap<usize, hashbrown::HashMap<usize, Transfer>>`.
#[verifier::external_body]
pub struct TransferTable {
    map: hashbrown::HashMap<RaptorStopId, hashbrown::HashMap<RaptorStopId, Transfer>>,
}

/// The entries of a [`TransferTable`].
pub uninterp spec fn transfer_table_entries(m: TransferTable) -> Map<RaptorStopId, Map<RaptorStopId, Transfer>>;

impl TransferTable {
    /// `hashbrown::HashMap::new`: an empty table.
    #[verifier::external_body]
    pub fn new() -> (created: TransferTable)
        ensures
            (transfer_table_entries(created) == Map::<RaptorStopId, Map<RaptorStopId, Transfer>>::empty()),
    {
        TransferTable { map: hashbrown::HashMap::new() }
    }

    /// `entry(from).or_default()`: the stop has an entry, empty if it had none.
    #[verifier::external_body]
    pub fn ensure_entry(&mut self, from: RaptorStopId)
        ensures
            transfer_table_entries(*final(self)) == (if transfer_table_entries(*old(self)).contains_key(from) {
                transfer_table_entries(*old(self))
            } else {
                transfer_table_entries(*old(self)).insert(from, Map::<RaptorStopId, Transfer>::empty())
            }),
    {
        self.map.entry(from).or_default();
    }

    /// `entry(from).or_default().insert(transfer.target_stop, transfer)`:
    /// the transfer replaces any earlier one between the same two stops.
    #[verifier::external_body]
    pub fn set(&mut self, from: RaptorStopId, transfer: Transfer)
        ensures
            transfer_table_entries(*final(self)) == transfer_table_entries(*old(self)).insert(
                from,
                (if transfer_table_entries(*old(self)).contains_key(from) {
                    transfer_table_entries(*old(self))[from]
                } else {
                    Map::<RaptorStopId, Transfer>::empty()
                }).insert(transfer.target_stop, transfer),
            ),
    {
        self.map.entry(from).or_default().insert(transfer.target_stop, transfer);
    }

    /// `hashbrown::HashMap::into_iter` on both levels, collected: every stop
    /// exactly once with every `(target, transfer)` entry of its inner map
    /// exactly once, in the maps' own (seeded) order.
    #[verifier::external_body]
    pub fn into_entries(self) -> (r: Vec<(RaptorStopId, Vec<(RaptorStopId, Transfer)>)>)
        ensures
            forall|i: int| 0 <= i < r@.len() ==> #[trigger] transfer_table_entries(self).contains_key(r@[i].0),
            forall|k: RaptorStopId| #[trigger] transfer_table_entries(self).contains_key(k) ==> exists|i: int| 0 <= i < r@.len() && #[trigger] r@[i].0 == k,
            forall|i: int, j: int| 0 <= i < r@.len() && 0 <= j < r@.len() && i != j ==> r@[i].0 != r@[j].0,
            forall|i: int, j: int| 0 <= i < r@.len() && 0 <= j < r@[i].1@.len() ==> #[trigger] transfer_table_entries(self)[r@[i].0].contains_key(r@[i].1@[j].0)
                && transfer_table_entries(self)[r@[i].0][r@[i].1@[j].0] == r@[i].1@[j].1,
            forall|i: int, t: RaptorStopId| 0 <= i < r@.len() && #[trigger] transfer_table_entries(self)[r@[i].0].contains_key(t) ==> exists|j: int| 0 <= j < r@[i].1@.len() && #[trigger] r@[i].1@[j].0 == t,
            forall|i: int, j: int, k: int| 0 <= i < r@.len() && 0 <= j < r@[i].1@.len() && 0 <= k < r@[i].1@.len() && j != k ==> #[trigger] r@[i].1@[j].0 != #[trigger] r@[i].1@[k].0,
    {
        self.map.into_iter().map(|(k, v)| (k, v.into_iter().collect())).collect()
    }
}

/// GTFS stop identifier to stop index, held in a
/// `hashbrown::HashMap<String, usize>`.
#[verifier::external_body]
pub struct StopIdMap {
    map: hashbrown::HashMap<String, RaptorStopId>,
}

/// The entries of a [`StopIdMap`], keyed by the identifiers' characters.
pub uninterp spec fn stop_id_entries(m: StopIdMap) -> Map<Seq<char>, RaptorStopId>;

impl StopIdMap {
    /// `hashbrown::HashMap::new`: an empty map.
    #[verifier::external_body]
    pub fn new() -> (created: StopIdMap)
        ensures
            (stop_id_entries(created) == Map::<Seq<char>, RaptorStopId>::empty()),
    {
        StopIdMap { map: hashbrown::HashMap::new() }
    }

    /// `hashbrown::HashMap::insert`: the identifier now maps to the index.
    #[verifier::external_body]
    pub fn insert(&mut self, id: String, stop: RaptorStopId)
        ensures
            stop_id_entries(*final(self)) == stop_id_entries(*old(self)).insert(id@, stop),
    {
        self.map.insert(id, stop);
    }

    /// `hashbrown::HashMap::get`: the index stored under the identifier, if any.
    #[verifier::external_body]
    pub fn get(&self, id: &str) -> (r: Option<RaptorStopId>)
        ensures
            r == (if stop_id_entries(*self).contains_key(id@) { Some(stop_id_entries(*self)[id@]) } else { None::<RaptorStopId> }),
    {
        self.map.get(id).copied()
    }
}

} // verus!

verus! {

/// Stop to the set of routes through it, held in a
/// `hashbrown::HashMap<usize, hashbrown::HashSet<usize>>`.
#[verifier::external_body]
pub struct RoutesByStop {
    map: hashbrown::HashMap<RaptorStopId, hashbrown::HashSet<usize>>,
}

/// The entries of a [`RoutesByStop`].
pub uninterp spec fn routes_by_stop_entries(m: RoutesByStop) -> Map<RaptorStopId, Set<usize>>;

impl RoutesByStop {
    /// `hashbrown::HashMap::with_capacity`: an empty map.
    #[verifier::external_body]
    pub fn with_capacity(capacity: usize) -> (created: RoutesByStop)
        ensures
            (routes_by_stop_entries(created) == Map::<RaptorStopId, Set<usize>>::empty()),
    {
        RoutesByStop { map: hashbrown::HashMap::with_capacity(capacity) }
    }

    /// `entry(stop).or_default().insert(route)`: the route joins the stop's
    /// set, which starts empty.
    #[verifier::external_body]
    pub fn insert(&mut self, stop: RaptorStopId, route: usize)
        ensures
            routes_by_stop_entries(*final(self)) == routes_by_stop_entries(*old(self)).insert(
                stop,
                (if routes_by_stop_entries(*old(self)).contains_key(stop) {
                    routes_by_stop_entries(*old(self))[stop]
                } else {
                    Set::<usize>::empty()
                }).insert(route),
            ),
    {
        self.map.entry(stop).or_default().insert(route);
    }

    /// `remove(&stop).unwrap_or_default()`, collected: the stop's routes,
    /// each once, in the set's own (seeded) order; the entry is gone.
    #[verifier::external_body]
    pub fn take(&mut self, stop: RaptorStopId) -> (r: Vec<usize>)
        ensures
            routes_by_stop_entries(*final(self)) == routes_by_stop_entries(*old(self)).remove(stop),
            r@.no_duplicates(),
            r@.to_set() == (if routes_by_stop_entries(*old(self)).contains_key(stop) {
                routes_by_stop_entries(*old(self))[stop]
            } else {
                Set::<usize>::empty()
            }),
    {
        self.map.remove(&stop).unwrap_or_default().into_iter().collect()
    }
}

/// A set of identifiers, held in a `hashbrown::HashSet<String>`.
#[verifier::external_body]
pub struct StringSet {
    set: hashbrown::HashSet<String>,
}

/// The identifiers in a [`StringSet`], by their characters.
pub uninterp spec fn string_set_contents(s: StringSet) -> Set<Seq<char>>;

impl StringSet {
    /// `hashbrown::HashSet::new`: an empty set.
    #[verifier::external_body]
    pub fn new() -> (created: StringSet)
        ensures
            (string_set_contents(created) == Set::<Seq<char>>::empty()),
    {
        StringSet { set: hashbrown::HashSet::new() }
    }

    /// `hashbrown::HashSet::insert`: the identifier is now in the set.
    #[verifier::external_body]
    pub fn insert(&mut self, id: String)
        ensures
            string_set_contents(*final(self)) == string_set_contents(*old(self)).insert(id@),
    {
        self.set.insert(id);
    }

    /// `hashbrown::HashSet::remove`: the identifier is no longer in the set.
    #[verifier::external_body]
    pub fn remove(&mut self, id: &str)
        ensures
            string_set_contents(*final(self)) == string_set_contents(*old(self)).remove(id@),
    {
        self.set.remove(id);
    }

    /// `hashbrown::HashSet::contains`.
    #[verifier::external_body]
    pub fn contains(&self, id: &str) -> (r: bool)
        ensures
            r == string_set_contents(*self).contains(id@),
    {
        self.set.contains(id)
    }
}

/// OSM node identifier to street graph index, held in a
/// `hashbrown::HashMap<i64, u32>`.
#[verifier::external_body]
pub struct NodeSlotMap {
    map: hashbrown::HashMap<i64, u32>,
}

/// The entries of a [`NodeSlotMap`].
pub uninterp spec fn node_slot_entries(m: NodeSlotMap) -> Map<i64, u32>;

impl NodeSlotMap {
    /// `hashbrown::HashMap::new`: an empty map.
    #[verifier::external_body]
    pub fn new() -> (created: NodeSlotMap)
        ensures
            (node_slot_entries(created) == Map::<i64, u32>::empty()),
    {
        NodeSlotMap { map: hashbrown::HashMap::new() }
    }

    /// `hashbrown::HashMap::insert`: the key now maps to the value; other
    /// entries are unchanged.
    #[verifier::external_body]
    pub fn insert(&mut self, id: i64, slot: u32)
        ensures
            node_slot_entries(*final(self)) == node_slot_entries(*old(self)).insert(id, slot),
    {
        self.map.insert(id, slot);
    }

    /// `hashbrown::HashMap::get`: the value stored under the key, if any.
    #[verifier::external_body]
    pub fn get(&self, id: i64) -> (r: Option<u32>)
        ensures
            r == (if node_slot_entries(*self).contains_key(id) { Some(node_slot_entries(*self)[id]) } else { None::<u32> }),
    {
        self.map.get(&id).copied()
    }
}

} // verus!
