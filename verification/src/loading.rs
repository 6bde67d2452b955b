//! Checks and decisions made while a transit model is built: the input
//! configuration and the pruning of the street network to its largest
//! connected component.
use vstd::prelude::*;

use crate::collections::{node_slot_entries, NodeSlotMap};
use crate::error::{DataIssue, Error, MissingInput};
use crate::types::Time;

verus! {

/// Checks the model inputs, given whether the OSM extract exists and, for
/// each configured GTFS directory in order, whether it exists. The OSM
/// extract is checked first, then that some GTFS directory is configured,
/// then each directory in order.
pub fn validate_config(osm_exists: bool, gtfs_dirs_exist: &Vec<bool>) -> (r: Result<(), Error>)
    ensures
        !osm_exists ==> r matches Err(Error::NotFound(MissingInput::OsmFile)),
        osm_exists && gtfs_dirs_exist@.len() == 0 ==> r matches Err(Error::InvalidData(DataIssue::NoGtfsDirectories)),
        osm_exists && gtfs_dirs_exist@.len() > 0 ==> match r {
            Ok(()) => forall|i: int| 0 <= i < gtfs_dirs_exist@.len() ==> #[trigger] gtfs_dirs_exist@[i],
            Err(Error::NotFound(MissingInput::GtfsDirectory(i))) => i < gtfs_dirs_exist@.len() && !gtfs_dirs_exist@[i as int]
                && forall|k: int| 0 <= k < i ==> #[trigger] gtfs_dirs_exist@[k],
            _ => false,
        },
{
    if !osm_exists {
        return Err(Error::NotFound(MissingInput::OsmFile));
    }
    if gtfs_dirs_exist.len() == 0 {
        return Err(Error::InvalidData(DataIssue::NoGtfsDirectories));
    }
    let mut i: usize = 0;
    while i < gtfs_dirs_exist.len()
        invariant
            osm_exists,
            i <= gtfs_dirs_exist@.len(),
            forall|k: int| 0 <= k < i ==> #[trigger] gtfs_dirs_exist@[k],
        decreases gtfs_dirs_exist@.len() - i,
    {
        if !gtfs_dirs_exist[i] {
            return Err(Error::NotFound(MissingInput::GtfsDirectory(i)));
        }
        i += 1;
    }
    Ok(())
}

/// The sets formed from `n` singletons by uniting, edge after edge, the set
/// of each edge's first end with the set of its second: whether `a` and `b`
/// end up in one set, that is, whether edges join them.
pub open spec fn joined(edges: Seq<(u32, u32)>, a: int, b: int) -> bool
    decreases edges.len(),
{
    if edges.len() == 0 {
        a == b
    } else {
        let p = edges.drop_last();
        let x = edges.last().0 as int;
        let y = edges.last().1 as int;
        ||| joined(p, a, b)
        ||| joined(p, a, x) && joined(p, y, b)
        ||| joined(p, a, y) && joined(p, x, b)
    }
}

/// A disjoint-set forest over the elements `0..n`, held in a
/// `petgraph::unionfind::UnionFind<u32>`.
#[verifier::external_body]
pub struct Components {
    uf: petgraph::unionfind::UnionFind<u32>,
}

/// The pairs of elements that share a set.
pub uninterp spec fn component_pairs(c: Components) -> Set<(u32, u32)>;

/// The number of elements.
pub uninterp spec fn component_size(c: Components) -> nat;

/// The representative of each element's set, as `into_labeling` returns it.
pub uninterp spec fn component_labeling(c: Components) -> Seq<u32>;

impl Components {
    /// `UnionFind::new`: `n` singleton sets.
    #[verifier::external_body]
    pub(crate) fn new(n: usize) -> (c: Components)
        requires
            n <= u32::MAX,
        ensures
            component_size(c) == n,
            forall|a: u32, b: u32| #[trigger] component_pairs(c).contains((a, b)) <==> (a == b && a < n),
    {
        Components { uf: petgraph::unionfind::UnionFind::new(n) }
    }

    /// `UnionFind::union`: unifies the sets containing `x` and `y` (both in
    /// range, else it panics); nothing changes when they already share one.
    #[verifier::external_body]
    pub(crate) fn union(&mut self, x: u32, y: u32)
        requires
            x < component_size(*old(self)),
            y < component_size(*old(self)),
        ensures
            component_size(*final(self)) == component_size(*old(self)),
            forall|a: u32, b: u32| #[trigger] component_pairs(*final(self)).contains((a, b)) <==> (component_pairs(*old(self)).contains((a, b))
                || (component_pairs(*old(self)).contains((a, x)) && component_pairs(*old(self)).contains((y, b))) || (component_pairs(
                *old(self),
            ).contains((a, y)) && component_pairs(*old(self)).contains((x, b)))),
    {
        self.uf.union(x, y);
    }

    /// `UnionFind::into_labeling`: maps each element to the representative
    /// of its set, itself an element; two elements carry the same label
    /// exactly when they share a set.
    #[verifier::external_body]
    pub(crate) fn into_labeling(self) -> (labels: Vec<u32>)
        ensures
            labels@ == component_labeling(self),
            labels@.len() == component_size(self),
            forall|i: int| 0 <= i < labels@.len() ==> #[trigger] labels@[i] < component_size(self),
            forall|a: int, b: int|
                0 <= a < labels@.len() && 0 <= b < labels@.len() ==> (#[trigger] labels@[a] == #[trigger] labels@[b]
                    <==> component_pairs(self).contains((a as u32, b as u32))),
    {
        self.uf.into_labeling()
    }
}

/// `labels` labels the elements `0..n` by the sets the edges join them into:
/// one label per element, below `n`, equal exactly for joined elements.
pub open spec fn labels_components(labels: Seq<u32>, n: int, edges: Seq<(u32, u32)>) -> bool {
    &&& labels.len() == n
    &&& forall|i: int| 0 <= i < n ==> #[trigger] labels[i] < n
    &&& forall|a: int, b: int| 0 <= a < n && 0 <= b < n ==> (#[trigger] labels[a] == #[trigger] labels[b] <==> joined(edges, a, b))
}

/// Labels the elements `0..n` by their set after uniting the ends of each
/// edge in turn.
fn component_labels(n: usize, edges: &Vec<(u32, u32)>) -> (labels: Vec<u32>)
    requires
        n <= u32::MAX,
        forall|k: int| 0 <= k < edges@.len() ==> (#[trigger] edges@[k]).0 < n && edges@[k].1 < n,
    ensures
        labels_components(labels@, n as int, edges@),
{
    let mut c = Components::new(n);
    let mut k: usize = 0;
    while k < edges.len()
        invariant
            k <= edges@.len(),
            n <= u32::MAX,
            forall|k: int| 0 <= k < edges@.len() ==> (#[trigger] edges@[k]).0 < n && edges@[k].1 < n,
            component_size(c) == n,
            forall|a: u32, b: u32| #[trigger] component_pairs(c).contains((a, b)) <==> (a < n && b < n && joined(
                edges@.take(k as int),
                a as int,
                b as int,
            )),
        decreases edges@.len() - k,
    {
        let (x, y) = edges[k];
        c.union(x, y);
        k += 1;
        proof {
            let t = edges@.take(k as int);
            assert(t.drop_last() =~= edges@.take(k - 1));
            assert(t.last() == (x, y));
        }
    }
    assert(edges@.take(k as int) =~= edges@);
    let labels = c.into_labeling();
    proof {
        assert forall|a: int, b: int| 0 <= a < n && 0 <= b < n implies (#[trigger] labels@[a] == #[trigger] labels@[b] <==> joined(
            edges@,
            a,
            b,
        )) by {
            assert(component_pairs(c).contains((a as u32, b as u32)) <==> joined(edges@, a as u32 as int, b as u32 as int));
        }
    }
    labels
}

/// Every element is joined to itself.
proof fn lemma_joined_reflexive(edges: Seq<(u32, u32)>, a: int)
    ensures
        joined(edges, a, a),
    decreases edges.len(),
{
    if edges.len() > 0 {
        lemma_joined_reflexive(edges.drop_last(), a);
    }
}

/// An element is counted among those joined to it.
proof fn lemma_joined_count_positive(edges: Seq<(u32, u32)>, a: int, k: int)
    requires
        0 <= a < k,
        joined(edges, a, a),
    ensures
        joined_count(edges, a, k) >= 1,
    decreases k,
{
    if k - 1 > a {
        lemma_joined_count_positive(edges, a, k - 1);
    }
}

/// A label with a positive count is some element's label.
proof fn lemma_label_present(labels: Seq<u32>, l: int)
    requires
        label_count(labels, l) > 0,
    ensures
        exists|i: int| 0 <= i < labels.len() && labels[i] == l,
    decreases labels.len(),
{
    if labels.last() != l {
        lemma_label_present(labels.drop_last(), l);
        let i = choose|i: int| 0 <= i < labels.drop_last().len() && labels.drop_last()[i] == l;
        assert(labels[i] == l);
    } else {
        assert(labels[labels.len() - 1] == l);
    }
}

/// How many of the elements `0..k` edges join to `a`.
pub open spec fn joined_count(edges: Seq<(u32, u32)>, a: int, k: int) -> nat
    decreases k,
{
    if k <= 0 {
        0
    } else {
        joined_count(edges, a, k - 1) + if joined(edges, a, k - 1) { 1nat } else { 0nat }
    }
}

/// With labels that tell exactly which elements are joined, the count of a
/// label is the size of the set it labels.
proof fn lemma_label_count_is_size(labels: Seq<u32>, edges: Seq<(u32, u32)>, n: int, a: int, k: int)
    requires
        labels.len() == n,
        0 <= a < n,
        0 <= k <= n,
        forall|x: int, y: int| 0 <= x < n && 0 <= y < n ==> (#[trigger] labels[x] == #[trigger] labels[y] <==> joined(edges, x, y)),
    ensures
        label_count(labels.take(k), labels[a] as int) == joined_count(edges, a, k),
    decreases k,
{
    if k > 0 {
        lemma_label_count_is_size(labels, edges, n, a, k - 1);
        assert(labels.take(k).drop_last() =~= labels.take(k - 1));
        assert(labels.take(k).last() == labels[k - 1]);
        assert(labels[a] == labels[k - 1] <==> joined(edges, a, k - 1));
    }
}

/// How many elements carry label `l`.
pub open spec fn label_count(labels: Seq<u32>, l: int) -> nat
    decreases labels.len(),
{
    if labels.len() == 0 {
        0
    } else {
        label_count(labels.drop_last(), l) + if labels.last() == l { 1nat } else { 0nat }
    }
}

/// `l` is the label with the most elements, the highest such label on a tie.
pub open spec fn is_largest_label(labels: Seq<u32>, n: int, l: int) -> bool {
    &&& 0 <= l < n
    &&& forall|m: int| 0 <= m < n ==> #[trigger] label_count(labels, m) <= label_count(labels, l)
    &&& forall|m: int| l < m < n ==> #[trigger] label_count(labels, m) < label_count(labels, l)
}

/// Which street nodes survive: those in the component with the most nodes
/// (the last such component in label order on a tie), given each node's
/// component label.
pub open spec fn largest_component_keep(labels: Seq<u32>, n: int) -> Seq<bool> {
    let l = choose|l: int| is_largest_label(labels, n, l);
    Seq::new(labels.len(), |i: int| labels[i] == l)
}

/// A label count never exceeds the number of elements.
proof fn lemma_label_count_bound(labels: Seq<u32>, l: int)
    ensures
        label_count(labels, l) <= labels.len(),
    decreases labels.len(),
{
    if labels.len() > 0 {
        lemma_label_count_bound(labels.drop_last(), l);
    }
}

/// Keeping the nodes of a largest label keeps a whole component, non-empty,
/// that no other component outnumbers.
proof fn lemma_kept_component(ls: Seq<u32>, edges: Seq<(u32, u32)>, n: int, largest: int, keep: Seq<bool>)
    requires
        labels_components(ls, n, edges),
        n > 0,
        0 <= largest < n,
        forall|m: int| 0 <= m < n ==> #[trigger] label_count(ls, m) <= label_count(ls, largest),
        keep.len() == n,
        forall|x: int| 0 <= x < n ==> #[trigger] keep[x] == (ls[x] == largest),
    ensures
        keeps_largest_component(keep, n, edges),
{
    assert forall|a: int, b: int| 0 <= a < n && 0 <= b < n && #[trigger] keep[a] implies (#[trigger] keep[b] <==> joined(edges, a, b)) by {
        assert(ls[a] == ls[b] <==> joined(edges, a, b));
    }
    assert forall|a: int, b: int| 0 <= a < n && 0 <= b < n && #[trigger] keep[b] implies #[trigger] joined_count(edges, a, n) <= joined_count(
        edges,
        b,
        n,
    ) by {
        lemma_label_count_is_size(ls, edges, n, a, n);
        lemma_label_count_is_size(ls, edges, n, b, n);
        assert(ls.take(n) =~= ls);
        assert(ls[a] < n);
        assert(label_count(ls, ls[a] as int) <= label_count(ls, largest));
    }
    assert(label_count(ls, largest) > 0) by {
        assert(ls[0] < n);
        assert(label_count(ls, ls[0] as int) <= label_count(ls, largest));
        lemma_label_count_is_size(ls, edges, n, 0, n);
        assert(ls.take(n) =~= ls);
        lemma_joined_reflexive(edges, 0);
        lemma_joined_count_positive(edges, 0, n);
    }
    lemma_label_present(ls, largest);
    let w = choose|w: int| 0 <= w < ls.len() && ls[w] == largest;
    assert(keep[w]);
}

/// `keep` marks exactly the nodes of one component that no other component
/// outnumbers: some node is kept, a kept node's component is kept whole and
/// nothing else is, and every component has at most as many nodes.
pub open spec fn keeps_largest_component(keep: Seq<bool>, n: int, edges: Seq<(u32, u32)>) -> bool {
    &&& keep.len() == n
    &&& exists|a: int| 0 <= a < n && #[trigger] keep[a]
    &&& forall|a: int, b: int| 0 <= a < n && 0 <= b < n && #[trigger] keep[a] ==> (#[trigger] keep[b] <==> joined(edges, a, b))
    &&& forall|a: int, b: int| 0 <= a < n && 0 <= b < n && #[trigger] keep[b] ==> #[trigger] joined_count(edges, a, n) <= joined_count(edges, b, n)
}

/// Decides which nodes of a street network of `node_count` nodes, joined by
/// `edges` (pairs of node indices), survive pruning to the largest connected
/// component: the labels of a union-find over the edges are counted and the
/// label with the most nodes (the last on a tie) is kept. Fails when there
/// is no node at all.
#[verifier::spinoff_prover]
pub fn keep_largest_component(node_count: usize, edges: &Vec<(u32, u32)>) -> (r: Result<Vec<bool>, Error>)
    requires
        node_count <= u32::MAX,
        forall|k: int| 0 <= k < edges@.len() ==> (#[trigger] edges@[k]).0 < node_count && edges@[k].1 < node_count,
    ensures
        node_count == 0 ==> r matches Err(Error::InvalidData(DataIssue::NoConnectedComponents)),
        node_count > 0 ==> (r matches Ok(keep) && exists|labels: Seq<u32>|
            #[trigger] labels_components(labels, node_count as int, edges@) && keep@ == largest_component_keep(labels, node_count as int)),
        r matches Ok(keep) ==> keeps_largest_component(keep@, node_count as int, edges@),
{
    let labels = component_labels(node_count, edges);
    let ghost ls = labels@;
    assert(ls.len() == node_count);
    assert(forall|i: int| 0 <= i < node_count ==> #[trigger] ls[i] < node_count);
    assert(forall|a: int, b: int|
        0 <= a < node_count && 0 <= b < node_count ==> (#[trigger] ls[a] == #[trigger] ls[b] <==> joined(edges@, a, b)));
    let mut sizes: Vec<u32> = Vec::new();
    let mut s: usize = 0;
    while s < node_count
        invariant
            s <= node_count,
            sizes@.len() == s,
            forall|m: int| 0 <= m < s ==> #[trigger] sizes@[m] == 0,
        decreases node_count - s,
    {
        sizes.push(0);
        s += 1;
    }
    let mut i: usize = 0;
    while i < node_count
        invariant
            i <= node_count,
            node_count <= u32::MAX,
            ls == labels@,
            ls.len() == node_count,
            forall|j: int| 0 <= j < ls.len() ==> #[trigger] ls[j] < node_count,
            sizes@.len() == node_count,
            forall|m: int| 0 <= m < node_count ==> #[trigger] sizes@[m] == label_count(ls.take(i as int), m),
        decreases node_count - i,
    {
        let label = labels[i] as usize;
        proof {
            assert(ls.take(i + 1).drop_last() =~= ls.take(i as int));
            lemma_label_count_bound(ls.take(i as int), label as int);
        }
        let c = sizes[label];
        sizes.set(label, c + 1);
        i += 1;
    }
    assert(ls.take(node_count as int) =~= ls);
    if node_count == 0 {
        return Err(Error::InvalidData(DataIssue::NoConnectedComponents));
    }
    let mut largest: usize = 0;
    let mut m: usize = 1;
    while m < node_count
        invariant
            1 <= m <= node_count,
            largest < m,
            sizes@.len() == node_count,
            forall|x: int| 0 <= x < node_count ==> #[trigger] sizes@[x] == label_count(ls, x),
            forall|x: int| 0 <= x < m ==> #[trigger] label_count(ls, x) <= label_count(ls, largest as int),
            forall|x: int| largest < x < m ==> #[trigger] label_count(ls, x) < label_count(ls, largest as int),
        decreases node_count - m,
    {
        if sizes[m] >= sizes[largest] {
            largest = m;
        }
        m += 1;
    }
    let mut keep: Vec<bool> = Vec::new();
    let mut j: usize = 0;
    while j < node_count
        invariant
            j <= node_count,
            ls == labels@,
            ls.len() == node_count,
            keep@.len() == j,
            forall|x: int| 0 <= x < j ==> #[trigger] keep@[x] == (ls[x] == largest),
        decreases node_count - j,
    {
        keep.push(labels[j] as usize == largest);
        j += 1;
    }
    proof {
        assert(is_largest_label(ls, node_count as int, largest as int));
        let l = choose|l: int| is_largest_label(ls, node_count as int, l);
        if l != largest as int {
            if l < largest {
                assert(label_count(ls, largest as int) <= label_count(ls, l));
                assert(label_count(ls, largest as int) < label_count(ls, l));
                assert(label_count(ls, l) <= label_count(ls, largest as int));
            } else {
                assert(label_count(ls, l) < label_count(ls, largest as int));
                assert(label_count(ls, largest as int) <= label_count(ls, l));
            }
        }
        assert(keep@ =~= largest_component_keep(ls, node_count as int));
        assert(labels_components(ls, node_count as int, edges@));
        lemma_kept_component(ls, edges@, node_count as int, largest as int, keep@);
    }
    Ok(keep)
}

/// Positions of the first occurrence of each distinct OSM node identifier,
/// in order: the street graph's nodes.
pub open spec fn kept_nodes(ids: Seq<i64>) -> Seq<usize>
    decreases ids.len(),
{
    if ids.len() == 0 {
        Seq::empty()
    } else if ids.drop_last().contains(ids.last()) {
        kept_nodes(ids.drop_last())
    } else {
        kept_nodes(ids.drop_last()).push((ids.len() - 1) as usize)
    }
}

/// The graph index of each distinct OSM node identifier: its rank among
/// the first occurrences.
pub open spec fn node_slots(ids: Seq<i64>) -> Map<i64, u32>
    decreases ids.len(),
{
    if ids.len() == 0 {
        Map::empty()
    } else if ids.drop_last().contains(ids.last()) {
        node_slots(ids.drop_last())
    } else {
        node_slots(ids.drop_last()).insert(ids.last(), kept_nodes(ids.drop_last()).len() as u32)
    }
}

/// The graph's edges: each walkable way whose ends differ, in order, as the
/// graph indices of its ends and its walking time; or the issue of the
/// first such way with an end that is not a read node.
pub open spec fn street_edges(ways: Seq<(i64, i64, Time, bool)>, slots: Map<i64, u32>) -> Result<Seq<(u32, u32, Time)>, DataIssue>
    decreases ways.len(),
{
    if ways.len() == 0 {
        Ok(Seq::empty())
    } else {
        match street_edges(ways.drop_last(), slots) {
            Err(issue) => Err(issue),
            Ok(edges) => {
                let w = ways.last();
                if !w.3 || w.0 == w.1 {
                    Ok(edges)
                } else if !slots.contains_key(w.0) {
                    Err(DataIssue::MissingSourceNode { node: w.0 })
                } else if !slots.contains_key(w.1) {
                    Err(DataIssue::MissingTargetNode { node: w.1 })
                } else {
                    Ok(edges.push((slots[w.0], slots[w.1], w.2)))
                }
            },
        }
    }
}

/// The distinct nodes stay few enough to number.
proof fn lemma_kept_nodes_len(ids: Seq<i64>)
    ensures
        kept_nodes(ids).len() <= ids.len(),
        forall|j: int| 0 <= j < kept_nodes(ids).len() ==> #[trigger] kept_nodes(ids)[j] < ids.len(),
    decreases ids.len(),
{
    if ids.len() > 0 {
        lemma_kept_nodes_len(ids.drop_last());
        let p = kept_nodes(ids.drop_last());
        if !ids.drop_last().contains(ids.last()) {
            assert forall|j: int| 0 <= j < kept_nodes(ids).len() implies #[trigger] kept_nodes(ids)[j] < ids.len() by {
                if j < p.len() {
                    assert(kept_nodes(ids)[j] == p[j]);
                }
            }
        }
    }
}

/// A node is numbered exactly when it has been read.
proof fn lemma_node_slots_domain(ids: Seq<i64>, id: i64)
    ensures
        node_slots(ids).contains_key(id) <==> ids.contains(id),
    decreases ids.len(),
{
    if ids.len() > 0 {
        lemma_node_slots_domain(ids.drop_last(), id);
        if ids.drop_last().contains(id) {
            let j = choose|j: int| 0 <= j < ids.drop_last().len() && ids.drop_last()[j] == id;
            assert(ids[j] == id);
        }
        if ids.contains(id) && id != ids.last() {
            let j = choose|j: int| 0 <= j < ids.len() && ids[j] == id;
            assert(ids.drop_last()[j] == id);
        }
        if id == ids.last() {
            assert(ids[ids.len() - 1] == id);
        }
    }
}

/// Assembles the street graph from the nodes and ways read from OSM:
/// `node_ids[i]` is the identifier of the `i`-th node read (repeats ignored,
/// the first kept), `ways[k]` is a way's source, target, walking time and
/// whether pedestrians may use it. Returns, for the graph's nodes, the
/// position of each in `node_ids`, and the graph's edges; fails on the first
/// walkable way with an end that was not read.
pub fn assemble_street_graph(node_ids: &Vec<i64>, ways: &Vec<(i64, i64, Time, bool)>) -> (r: Result<(Vec<usize>, Vec<(u32, u32, Time)>), Error>)
    requires
        node_ids@.len() <= u32::MAX,
    ensures
        match street_edges(ways@, node_slots(node_ids@)) {
            Ok(edges) => (r matches Ok(graph) && graph.0@ == kept_nodes(node_ids@) && graph.1@ == edges),
            Err(issue) => (r matches Err(Error::InvalidData(i)) && i == issue),
        },
{
    let mut slots = NodeSlotMap::new();
    let mut kept: Vec<usize> = Vec::new();
    let mut i: usize = 0;
    while i < node_ids.len()
        invariant
            i <= node_ids@.len(),
            node_ids@.len() <= u32::MAX,
            node_slot_entries(slots) == node_slots(node_ids@.take(i as int)),
            kept@ == kept_nodes(node_ids@.take(i as int)),
        decreases node_ids@.len() - i,
    {
        let id = node_ids[i];
        let ghost t = node_ids@.take(i as int);
        proof {
            assert(node_ids@.take(i + 1).drop_last() =~= t);
            assert(node_ids@.take(i + 1).last() == id);
            lemma_node_slots_domain(t, id);
            lemma_kept_nodes_len(t);
        }
        if slots.get(id).is_none() {
            let slot = kept.len() as u32;
            slots.insert(id, slot);
            kept.push(i);
        }
        i += 1;
    }
    assert(node_ids@.take(i as int) =~= node_ids@);
    let ghost s = node_slot_entries(slots);
    let mut edges: Vec<(u32, u32, Time)> = Vec::new();
    let mut k: usize = 0;
    while k < ways.len()
        invariant
            k <= ways@.len(),
            s == node_slot_entries(slots),
            s == node_slots(node_ids@),
            street_edges(ways@.take(k as int), s) == Ok::<Seq<(u32, u32, Time)>, DataIssue>(edges@),
        decreases ways@.len() - k,
    {
        let (source, target, weight, walkable) = ways[k];
        proof {
            assert(ways@.take(k + 1).drop_last() =~= ways@.take(k as int));
            assert(ways@.take(k + 1).last() == ways@[k as int]);
        }
        if walkable && source != target {
            let a = match slots.get(source) {
                Some(a) => a,
                None => {
                    proof {
                        assert(street_edges(ways@.take(k + 1), s) == Err::<Seq<(u32, u32, Time)>, DataIssue>(
                            DataIssue::MissingSourceNode { node: source },
                        ));
                        lemma_street_edges_stop(ways@, k as int + 1, s);
                    }
                    return Err(Error::InvalidData(DataIssue::MissingSourceNode { node: source }));
                },
            };
            let b = match slots.get(target) {
                Some(b) => b,
                None => {
                    proof {
                        assert(street_edges(ways@.take(k + 1), s) == Err::<Seq<(u32, u32, Time)>, DataIssue>(
                            DataIssue::MissingTargetNode { node: target },
                        ));
                        lemma_street_edges_stop(ways@, k as int + 1, s);
                    }
                    return Err(Error::InvalidData(DataIssue::MissingTargetNode { node: target }));
                },
            };
            edges.push((a, b, weight));
        }
        k += 1;
    }
    assert(ways@.take(k as int) =~= ways@);
    Ok((kept, edges))
}

/// Once the ways up to `k` fail, all of them fail the same way.
proof fn lemma_street_edges_stop(ways: Seq<(i64, i64, Time, bool)>, k: int, slots: Map<i64, u32>)
    requires
        0 <= k <= ways.len(),
        street_edges(ways.take(k), slots) is Err,
    ensures
        street_edges(ways, slots) == street_edges(ways.take(k), slots),
    decreases ways.len() - k,
{
    if k < ways.len() {
        assert(ways.take(k + 1).drop_last() =~= ways.take(k));
        lemma_street_edges_stop(ways, k + 1, slots);
    } else {
        assert(ways.take(k) =~= ways);
    }
}

} // verus!
