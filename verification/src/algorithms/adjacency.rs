//! The nodes of a graph that is held as compressed rows, under numbers from
//! zero.

use std::collections::BTreeMap;

use vstd::prelude::*;

use crate::index::csr_graph::{self, CsrEdge, MmapCsrGraph, MultiSegmentCsrGraph};

verus! {

broadcast use vstd::std_specs::btree::group_btree_axioms;

// ---------------------------------------------------------------------------
// Nodes and edges
// ---------------------------------------------------------------------------

/// The nodes of a segment, in their order.
pub open spec fn segment_nodes(g: MmapCsrGraph) -> Seq<u64> {
    csr_graph::numbers_in(g.dict@).take(g.num_nodes as int)
}

/// The nodes of segments, one segment behind the other.
pub open spec fn listed_nodes(segments: Seq<MmapCsrGraph>) -> Seq<u64>
    decreases segments.len(),
{
    if segments.len() == 0 {
        Seq::empty()
    } else {
        listed_nodes(segments.drop_last()) + segment_nodes(segments.last())
    }
}

/// The items of a list, each where it occurs first.
pub open spec fn distinct<T>(list: Seq<T>) -> Seq<T>
    decreases list.len(),
{
    if list.len() == 0 {
        Seq::empty()
    } else {
        let before = distinct(list.drop_last());
        if before.contains(list.last()) {
            before
        } else {
            before.push(list.last())
        }
    }
}

/// The edges of the first nodes of a segment.
pub open spec fn segment_edges(g: MmapCsrGraph, n: int) -> Seq<(u64, u64)>
    decreases n,
{
    if n <= 0 {
        Seq::empty()
    } else {
        segment_edges(g, n - 1) + node_edges(g, n - 1)
    }
}

/// The edges of the node at a place of a segment.
pub open spec fn node_edges(g: MmapCsrGraph, place: int) -> Seq<(u64, u64)> {
    let dict = csr_graph::numbers_in(g.dict@);
    g.edges_of(place).map_values(|e: CsrEdge| (dict[place], dict[e.dst_id as int]))
}

/// The edges of segments.
pub open spec fn listed_edges(segments: Seq<MmapCsrGraph>) -> Seq<(u64, u64)>
    decreases segments.len(),
{
    if segments.len() == 0 {
        Seq::empty()
    } else {
        listed_edges(segments.drop_last()) + segment_edges(
            segments.last(),
            segments.last().num_nodes as int,
        )
    }
}

/// How many edges lead to a node that is known.
pub open spec fn count_known(edges: Seq<(u64, u64)>, nodes: Seq<u64>) -> nat
    decreases edges.len(),
{
    if edges.len() == 0 {
        0
    } else {
        count_known(edges.drop_last(), nodes) + if nodes.contains(edges.last().1) {
            1nat
        } else {
            0
        }
    }
}

/// How many edges to known nodes a node has: those from it and, where edges
/// count at both ends, those to it.
pub open spec fn degree_of(
    edges: Seq<(u64, u64)>,
    nodes: Seq<u64>,
    both_ends: bool,
    node: u64,
) -> nat
    decreases edges.len(),
{
    if edges.len() == 0 {
        0
    } else {
        let e = edges.last();
        let known = nodes.contains(e.1);
        degree_of(edges.drop_last(), nodes, both_ends, node) + (if known && e.0 == node {
            1nat
        } else {
            0
        }) + (if known && both_ends && e.1 == node {
            1nat
        } else {
            0
        })
    }
}

pub(crate) proof fn lemma_distinct<T>(list: Seq<T>)
    ensures
        distinct(list).no_duplicates(),
        distinct(list).len() <= list.len(),
        forall|x: T| #[trigger] distinct(list).contains(x) <==> list.contains(x),
    decreases list.len(),
{
    if list.len() > 0 {
        lemma_distinct(list.drop_last());
        let before = distinct(list.drop_last());
        assert forall|x: T| #[trigger] distinct(list).contains(x) <==> list.contains(x) by {
            if list.contains(x) {
                let i = choose|i: int| 0 <= i < list.len() && list[i] == x;
                if i < list.len() - 1 {
                    assert(list.drop_last()[i] == x);
                    assert(before.contains(x));
                    let j = choose|j: int| 0 <= j < before.len() && before[j] == x;
                    assert(distinct(list)[j] == x);
                } else if !before.contains(x) {
                    assert(distinct(list)[before.len() as int] == x);
                }
            }
            if distinct(list).contains(x) {
                let j = choose|j: int| 0 <= j < distinct(list).len() && distinct(list)[j] == x;
                if j < before.len() {
                    assert(before[j] == x);
                    assert(before.contains(x));
                    assert(list.drop_last().contains(x));
                    let i = choose|i: int|
                        0 <= i < list.drop_last().len() && list.drop_last()[i] == x;
                    assert(list[i] == x);
                } else {
                    assert(list[list.len() - 1] == x);
                }
            }
        }
    }
}

proof fn lemma_listed(segments: Seq<MmapCsrGraph>, s: int, d: int)
    requires
        0 <= s < segments.len(),
        0 <= d < segments[s].num_nodes <= csr_graph::numbers_in(segments[s].dict@).len(),
    ensures
        listed_nodes(segments).contains(csr_graph::numbers_in(segments[s].dict@)[d]),
    decreases segments.len(),
{
    let id = csr_graph::numbers_in(segments[s].dict@)[d];
    let before = listed_nodes(segments.drop_last());
    if s < segments.len() - 1 {
        lemma_listed(segments.drop_last(), s, d);
        let i = choose|i: int| 0 <= i < before.len() && before[i] == id;
        assert(listed_nodes(segments)[i] == id);
    } else {
        assert(listed_nodes(segments)[before.len() + d] == id);
    }
}

proof fn lemma_counts(edges: Seq<(u64, u64)>, nodes: Seq<u64>, both_ends: bool, node: u64)
    ensures
        count_known(edges, nodes) <= edges.len(),
        degree_of(edges, nodes, both_ends, node) <= 2 * edges.len(),
    decreases edges.len(),
{
    if edges.len() > 0 {
        lemma_counts(edges.drop_last(), nodes, both_ends, node);
    }
}

proof fn lemma_segment_edges_grow(g: MmapCsrGraph, n: int, m: int)
    requires
        0 <= n <= m,
    ensures
        segment_edges(g, n).len() <= segment_edges(g, m).len(),
    decreases m - n,
{
    if n < m {
        lemma_segment_edges_grow(g, n, m - 1);
    }
}

proof fn lemma_listed_edges_grow(segments: Seq<MmapCsrGraph>, n: int)
    requires
        0 <= n <= segments.len(),
    ensures
        listed_edges(segments.take(n)).len() <= listed_edges(segments).len(),
    decreases segments.len(),
{
    if n < segments.len() {
        assert(segments.drop_last().take(n) =~= segments.take(n));
        lemma_listed_edges_grow(segments.drop_last(), n);
    } else {
        assert(segments.take(n) =~= segments);
    }
}

// ---------------------------------------------------------------------------
// Adjacency
// ---------------------------------------------------------------------------

/// The nodes of a graph under numbers from zero, and how many edges each has.
#[derive(Debug)]
pub struct CsrAdj<'a, 'b> {
    pub forward: &'a MultiSegmentCsrGraph<'b>,
    pub reverse: Option<&'a MultiSegmentCsrGraph<'b>>,
    pub node_map: BTreeMap<u64, usize>,
    pub originals: Vec<u64>,
    pub degree: Vec<u64>,
    pub total_weight: u64,
}

/// The numbers of those nodes that are known.
pub open spec fn numbers_of(list: Seq<u64>, nodes: Seq<u64>) -> Seq<usize>
    decreases list.len(),
{
    if list.len() == 0 {
        Seq::empty()
    } else {
        let before = numbers_of(list.drop_last(), nodes);
        if nodes.contains(list.last()) {
            before.push(nodes.index_of(list.last()) as usize)
        } else {
            before
        }
    }
}

pub(crate) proof fn lemma_numbers_in_range(list: Seq<u64>, nodes: Seq<u64>)
    requires
        nodes.len() <= usize::MAX,
    ensures
        forall|i: int|
            0 <= i < numbers_of(list, nodes).len() ==> (#[trigger] numbers_of(list, nodes)[i])
                < nodes.len(),
    decreases list.len(),
{
    if list.len() > 0 {
        lemma_numbers_in_range(list.drop_last(), nodes);
        let before = numbers_of(list.drop_last(), nodes);
        let all = numbers_of(list, nodes);
        assert forall|i: int| 0 <= i < all.len() implies (#[trigger] all[i]) < nodes.len() by {
            if i < before.len() {
                assert(all[i] == before[i]);
            } else {
                let at = nodes.index_of(list.last());
                assert(0 <= at < nodes.len());
            }
        }
    }
}

/// Every segment has a name for each of its nodes.
pub open spec fn names_nodes(g: MultiSegmentCsrGraph) -> bool {
    &&& g.wf()
    &&& forall|i: int|
        0 <= i < g.segments@.len() ==> (#[trigger] g.segments@[i]).num_nodes
            <= csr_graph::numbers_in(g.segments@[i].dict@).len()
}

/// The numbers of items are their places.
pub open spec fn numbers_places<K>(map: Map<K, usize>, nodes: Seq<K>) -> bool {
    &&& nodes.no_duplicates()
    &&& forall|x: K| #[trigger] map.dom().contains(x) <==> nodes.contains(x)
    &&& forall|i: int| 0 <= i < nodes.len() ==> map[#[trigger] nodes[i]] == i
}

impl<'a, 'b> CsrAdj<'a, 'b> {
    /// The graphs are well formed, and the numbers of the nodes are their places.
    pub open spec fn wf(self) -> bool {
        &&& self.forward.wf()
        &&& match self.reverse {
            Some(g) => g.wf(),
            None => true,
        }
        &&& numbers_places(self.node_map@, self.originals@)
        &&& self.degree@.len() == self.originals@.len()
    }

    /// How many nodes there are.
    pub open spec fn nodes(self) -> nat {
        self.originals@.len()
    }

    /// The neighbours of the node with a number: those that edges lead to, then
    /// those that edges come from, where these are known.
    pub open spec fn adjacent(self, u: int) -> Seq<usize> {
        let id = self.originals@[u];
        numbers_of(csr_graph::neighbors_in(self.forward.segments@, id), self.originals@) + (
        match self.reverse {
            Some(g) => numbers_of(
                csr_graph::neighbors_in(g.segments@, id),
                self.originals@,
            ),
            None => Seq::empty(),
        })
    }

    /// How many nodes there are.
    pub fn num_nodes(&self) -> (r: usize)
        ensures
            r == self.nodes(),
    {
        self.originals.len()
    }

    /// Numbers the nodes of a graph in the order in which they come, and counts
    /// their edges: at both ends where the edges are also given the other way
    /// round.
    pub fn build(
        forward: &'a MultiSegmentCsrGraph<'b>,
        reverse: Option<&'a MultiSegmentCsrGraph<'b>>,
    ) -> (r: Self)
        requires
            names_nodes(*forward),
            match reverse {
                Some(g) => g.wf(),
                None => true,
            },
            2 * listed_edges(forward.segments@).len() <= u64::MAX,
        ensures
            r.wf(),
            r.forward == forward,
            r.reverse == reverse,
            r.originals@ == distinct(listed_nodes(forward.segments@)),
            forall|u: int|
                0 <= u < r.nodes() ==> #[trigger] r.degree@[u] == degree_of(
                    listed_edges(forward.segments@),
                    r.originals@,
                    reverse is Some,
                    r.originals@[u],
                ),
            r.total_weight == count_known(listed_edges(forward.segments@), r.originals@),
    {
        let (node_map, originals) = number_nodes(forward);
        let (degree, total_weight) = count_edges(forward, &node_map, &originals, reverse.is_some());
        CsrAdj { forward, reverse, node_map, originals, degree, total_weight }
    }

    /// The neighbours of the node with a number.
    pub fn neighbors(&self, u: usize) -> (r: Vec<usize>)
        requires
            self.wf(),
            u < self.nodes(),
        ensures
            r@ == self.adjacent(u as int),
            forall|i: int| 0 <= i < r.len() ==> (#[trigger] r@[i]) < self.nodes(),
    {
        let id: u64 = self.originals[u];
        let mut out: Vec<usize> = known_numbers(
            &self.forward.get_neighbors(id),
            &self.node_map,
            &self.originals,
        );
        match self.reverse {
            Some(g) => {
                let mut more: Vec<usize> = known_numbers(
                    &g.get_neighbors(id),
                    &self.node_map,
                    &self.originals,
                );
                out.append(&mut more);
            },
            None => {
                assert(out@ =~= out@ + Seq::<usize>::empty());
            },
        }
        out
    }
}

fn known_numbers(list: &Vec<u64>, map: &BTreeMap<u64, usize>, originals: &Vec<u64>) -> (r: Vec<
    usize,
>)
    requires
        numbers_places(map@, originals@),
    ensures
        r@ == numbers_of(list@, originals@),
        forall|i: int| 0 <= i < r.len() ==> (#[trigger] r@[i]) < originals.len(),
{
    let mut out: Vec<usize> = Vec::new();
    let mut i: usize = 0;
    assert(list@.take(0) =~= Seq::<u64>::empty());
    while i < list.len()
        invariant
            i <= list.len(),
            numbers_places(map@, originals@),
            out@ == numbers_of(list@.take(i as int), originals@),
        decreases list.len() - i,
    {
        let ghost id = list@[i as int];
        assert(list@.take(i + 1).drop_last() =~= list@.take(i as int));
        match map.get(&list[i]) {
            Some(number) => {
                proof {
                    assert(originals@.contains(id));
                    let at = originals@.index_of(id);
                    assert(originals@[at] == id);
                    assert(map@[originals@[at]] == at);
                }
                out.push(*number);
            },
            None => {
                assert(!map@.dom().contains(id));
            },
        }
        i = i + 1;
    }
    assert(list@.take(i as int) =~= list@);
    assert(originals.len() <= usize::MAX);
    proof {
        lemma_numbers_in_range(list@, originals@);
    }
    out
}

pub(crate) proof fn lemma_numbered<K>(map: Map<K, usize>, nodes: Seq<K>, id: K, number: usize)
    requires
        numbers_places(map, nodes),
        !nodes.contains(id),
        number == nodes.len(),
    ensures
        numbers_places(map.insert(id, number), nodes.push(id)),
{
    let after = nodes.push(id);
    let map2 = map.insert(id, number);
    assert forall|x: K| #[trigger] map2.dom().contains(x) <==> after.contains(x) by {
        if nodes.contains(x) {
            let k = choose|k: int| 0 <= k < nodes.len() && nodes[k] == x;
            assert(after[k] == x);
        }
        if x == id {
            assert(after[nodes.len() as int] == x);
        }
        if after.contains(x) && x != id {
            let k = choose|k: int| 0 <= k < after.len() && after[k] == x;
            assert(nodes[k] == x);
        }
    }
    assert forall|k: int| 0 <= k < after.len() implies map2[#[trigger] after[k]] == k by {
        if k < nodes.len() {
            assert(after[k] == nodes[k]);
            assert(nodes.contains(nodes[k]));
            assert(map[nodes[k]] == k);
        }
    }
}

fn number_nodes(forward: &MultiSegmentCsrGraph) -> (r: (BTreeMap<u64, usize>, Vec<u64>))
    requires
        names_nodes(*forward),
    ensures
        r.1@ == distinct(listed_nodes(forward.segments@)),
        numbers_places(r.0@, r.1@),
{
    let ghost segments = forward.segments@;
    let mut map: BTreeMap<u64, usize> = BTreeMap::new();
    let mut originals: Vec<u64> = Vec::new();
    let mut s: usize = 0;
    assert(segments.take(0) =~= Seq::<MmapCsrGraph>::empty());
    while s < forward.segments.len()
        invariant
            segments == forward.segments@,
            names_nodes(*forward),
            s <= segments.len(),
            originals@ == distinct(listed_nodes(segments.take(s as int))),
            numbers_places(map@, originals@),
        decreases forward.segments.len() - s,
    {
        let ghost before = listed_nodes(segments.take(s as int));
        let ghost dict = csr_graph::numbers_in(segments[s as int].dict@);
        let nodes: usize = forward.segments[s].num_nodes;
        assert(nodes <= dict.len());
        let mut d: usize = 0;
        assert(before + dict.take(0) =~= before);
        while d < nodes
            invariant
                segments == forward.segments@,
                s < segments.len(),
                dict == csr_graph::numbers_in(segments[s as int].dict@),
                d <= nodes <= dict.len(),
                originals@ == distinct(before + dict.take(d as int)),
                numbers_places(map@, originals@),
            decreases nodes - d,
        {
            let id: u64 = forward.segments[s].to_original(d);
            let ghost list = before + dict.take(d as int);
            proof {
                assert((before + dict.take(d + 1)).drop_last() =~= list);
                assert((before + dict.take(d + 1)).last() == id);
            }
            let known: bool = map.contains_key(&id);
            if !known {
                let number: usize = originals.len();
                let ghost old_nodes = originals@;
                let ghost old_map = map@;
                map.insert(id, number);
                originals.push(id);
                proof {
                    lemma_numbered(old_map, old_nodes, id, number);
                }
            }
            d = d + 1;
        }
        proof {
            assert(segments.take(s + 1).drop_last() =~= segments.take(s as int));
            assert(segments.take(s + 1).last() == segments[s as int]);
        }
        s = s + 1;
    }
    assert(segments.take(s as int) =~= segments);
    (map, originals)
}

fn count_edges(
    forward: &MultiSegmentCsrGraph,
    map: &BTreeMap<u64, usize>,
    originals: &Vec<u64>,
    both_ends: bool,
) -> (r: (Vec<u64>, u64))
    requires
        names_nodes(*forward),
        numbers_places(map@, originals@),
        originals@ == distinct(listed_nodes(forward.segments@)),
        2 * listed_edges(forward.segments@).len() <= u64::MAX,
    ensures
        r.0@.len() == originals@.len(),
        forall|u: int|
            0 <= u < originals@.len() ==> #[trigger] r.0@[u] == degree_of(
                listed_edges(forward.segments@),
                originals@,
                both_ends,
                originals@[u],
            ),
        r.1 == count_known(listed_edges(forward.segments@), originals@),
{
    let ghost segments = forward.segments@;
    let ghost nodes = originals@;
    let mut degree: Vec<u64> = Vec::new();
    let mut i: usize = 0;
    while i < originals.len()
        invariant
            i <= originals.len(),
            degree.len() == i,
            forall|u: int| 0 <= u < i ==> #[trigger] degree@[u] == 0,
        decreases originals.len() - i,
    {
        degree.push(0);
        i = i + 1;
    }
    let mut total: u64 = 0;
    let mut s: usize = 0;
    assert(segments.take(0) =~= Seq::<MmapCsrGraph>::empty());
    while s < forward.segments.len()
        invariant
            segments == forward.segments@,
            nodes == originals@,
            names_nodes(*forward),
            numbers_places(map@, nodes),
            nodes == distinct(listed_nodes(segments)),
            2 * listed_edges(segments).len() <= u64::MAX,
            s <= segments.len(),
            degree.len() == nodes.len(),
            counted(degree@, listed_edges(segments.take(s as int)), nodes, both_ends),
            total == count_known(listed_edges(segments.take(s as int)), nodes),
        decreases forward.segments.len() - s,
    {
        let ghost before = listed_edges(segments.take(s as int));
        let ghost g = segments[s as int];
        let count: usize = forward.segments[s].num_nodes;
        proof {
            assert(segments.take(s + 1).drop_last() =~= segments.take(s as int));
            assert(segments.take(s + 1).last() == g);
            lemma_listed_edges_grow(segments, s + 1);
            assert(before + segment_edges(g, 0) =~= before);
        }
        let mut d: usize = 0;
        while d < count
            invariant
                segments == forward.segments@,
                nodes == originals@,
                names_nodes(*forward),
                numbers_places(map@, nodes),
                nodes == distinct(listed_nodes(segments)),
                s < segments.len(),
                g == segments[s as int],
                d <= count,
                count == g.num_nodes,
                2 * (before.len() + segment_edges(g, count as int).len()) <= u64::MAX,
                degree.len() == nodes.len(),
                counted(degree@, before + segment_edges(g, d as int), nodes, both_ends),
                total == count_known(before + segment_edges(g, d as int), nodes),
            decreases count - d,
        {
            proof {
                lemma_segment_edges_grow(g, d + 1, count as int);
                lemma_listed(segments, s as int, d as int);
                lemma_distinct(listed_nodes(segments));
            }
            total = count_node(
                &forward.segments[s],
                d,
                map,
                originals,
                both_ends,
                &mut degree,
                total,
                Ghost(before + segment_edges(g, d as int)),
            );
            assert(before + segment_edges(g, d as int) + node_edges(g, d as int) =~= before
                + segment_edges(g, d + 1));
            d = d + 1;
        }
        s = s + 1;
    }
    assert(segments.take(s as int) =~= segments);
    (degree, total)
}

/// The degrees of nodes after some edges.
spec fn counted(
    degree: Seq<u64>,
    edges: Seq<(u64, u64)>,
    nodes: Seq<u64>,
    both_ends: bool,
) -> bool {
    forall|u: int|
        0 <= u < nodes.len() ==> #[trigger] degree[u] == degree_of(
            edges,
            nodes,
            both_ends,
            nodes[u],
        )
}

/// Counts the edges of one node.
fn count_node(
    g: &MmapCsrGraph,
    d: usize,
    map: &BTreeMap<u64, usize>,
    originals: &Vec<u64>,
    both_ends: bool,
    degree: &mut Vec<u64>,
    total: u64,
    Ghost(before): Ghost<Seq<(u64, u64)>>,
) -> (r: u64)
    requires
        g.wf(),
        d < g.num_nodes <= csr_graph::numbers_in(g.dict@).len(),
        numbers_places(map@, originals@),
        originals@.contains(csr_graph::numbers_in(g.dict@)[d as int]),
        2 * (before.len() + node_edges(*g, d as int).len()) <= u64::MAX,
        old(degree)@.len() == originals@.len(),
        counted(old(degree)@, before, originals@, both_ends),
        total == count_known(before, originals@),
    ensures
        final(degree)@.len() == originals@.len(),
        counted(final(degree)@, before + node_edges(*g, d as int), originals@, both_ends),
        r == count_known(before + node_edges(*g, d as int), originals@),
{
    let ghost nodes = originals@;
    let ghost dict = csr_graph::numbers_in(g.dict@);
    let ghost own = node_edges(*g, d as int);
    let mut total: u64 = total;
    let id: u64 = g.to_original(d);
    let edges: Vec<CsrEdge> = g.get_neighbors_raw(d);
    proof {
        let all = csr_graph::edges_in(g.edges@);
        let offsets = csr_graph::numbers_in(g.offsets@);
        assert(offsets[d as int + 1] <= offsets[g.num_nodes as int]);
        assert forall|k: int| 0 <= k < edges.len() implies (#[trigger] edges@[k]).dst_id
            < dict.len() by {
            assert(edges@[k] == all[offsets[d as int] as int + k]);
        }
        assert(before + own.take(0) =~= before);
    }
    let dict_file: usize = g.dict.len();
    let mut k: usize = 0;
    while k < edges.len()
        invariant
            k <= edges.len(),
            nodes == originals@,
            dict == csr_graph::numbers_in(g.dict@),
            dict.len() <= dict_file,
            own == node_edges(*g, d as int),
            edges@ == g.edges_of(d as int),
            forall|k: int| 0 <= k < edges.len() ==> (#[trigger] edges@[k]).dst_id < dict.len(),
            id == dict[d as int],
            nodes.contains(id),
            numbers_places(map@, nodes),
            2 * (before.len() + own.len()) <= u64::MAX,
            degree@.len() == nodes.len(),
            counted(degree@, before + own.take(k as int), nodes, both_ends),
            total == count_known(before + own.take(k as int), nodes),
        decreases edges.len() - k,
    {
        assert(edges@[k as int].dst_id < dict.len());
        let to: u64 = g.to_original(edges[k].dst_id as usize);
        let ghost list = before + own.take(k as int);
        let ghost next = before + own.take(k + 1);
        let ghost old_degree = degree@;
        proof {
            assert(own.len() == edges.len());
            assert(own[k as int] == (id, to));
            assert(next.drop_last() =~= list);
            assert(next.last() == (id, to));
            lemma_counts(list, nodes, both_ends, id);
        }
        match map.get(&to) {
            Some(v) => {
                let v: usize = *v;
                proof {
                    assert(nodes.contains(to));
                    let at = nodes.index_of(to);
                    assert(nodes[at] == to);
                    assert(map@[nodes[at]] == at);
                    lemma_counts(list, nodes, both_ends, to);
                }
                match map.get(&id) {
                    Some(u) => {
                        let u: usize = *u;
                        proof {
                            assert(nodes.contains(id));
                            let at = nodes.index_of(id);
                            assert(nodes[at] == id);
                            assert(map@[nodes[at]] == at);
                        }
                        let from_u: u64 = degree[u];
                        assert(from_u == degree_of(list, nodes, both_ends, id));
                        degree.set(u, from_u + 1);
                        if both_ends {
                            let from_v: u64 = degree[v];
                            proof {
                                assert(old_degree[v as int]
                                    == degree_of(list, nodes, both_ends, to));
                            }
                            degree.set(v, from_v + 1);
                        }
                        proof {
                            assert forall|x: int| 0 <= x < nodes.len() implies #[trigger] degree@[x]
                                == degree_of(next, nodes, both_ends, nodes[x]) by {
                                assert(old_degree[x]
                                    == degree_of(list, nodes, both_ends, nodes[x]));
                            }
                        }
                    },
                    None => {
                        assert(!map@.dom().contains(id));
                    },
                }
                total = total + 1;
            },
            None => {
                proof {
                    assert(!nodes.contains(to));
                    assert forall|x: int| 0 <= x < nodes.len() implies #[trigger] degree@[x]
                        == degree_of(next, nodes, both_ends, nodes[x]) by {
                        assert(old_degree[x] == degree_of(list, nodes, both_ends, nodes[x]));
                    }
                }
            },
        }
        k = k + 1;
    }
    assert(own.take(k as int) =~= own);
    total
}

/// Nodes are numbered once each, in the order in which they come first, and none is left out.
pub proof fn law_nodes_are_numbered_once<T>(list: Seq<T>, x: T)
    ensures
        distinct(list).contains(x) <==> list.contains(x),
        distinct(list).no_duplicates(),
        list.contains(x) ==> distinct(list.push(x)) == distinct(list),
        !list.contains(x) ==> distinct(list.push(x)) == distinct(list).push(x),
        list.no_duplicates() ==> distinct(list) == list,
    decreases list.len(),
{
    assert(list.push(x).drop_last() =~= list);
    if list.len() > 0 {
        let front = list.drop_last();
        let last = list.last();
        law_nodes_are_numbered_once(front, x);
        law_nodes_are_numbered_once(front, last);
        let before = distinct(front);
        let all = distinct(list);
        assert(list =~= front.push(last));
        assert(list.contains(x) <==> front.contains(x) || x == last) by {
            if list.contains(x) {
                let k = choose|k: int| 0 <= k < list.len() && list[k] == x;
                if k < front.len() {
                    assert(front[k] == x);
                }
            }
            if front.contains(x) {
                let k = choose|k: int| 0 <= k < front.len() && front[k] == x;
                assert(list[k] == x);
            }
            assert(list[list.len() - 1] == last);
        }
        if !before.contains(last) {
            assert(all.contains(x) <==> before.contains(x) || x == last) by {
                if all.contains(x) {
                    let k = choose|k: int| 0 <= k < all.len() && all[k] == x;
                    if k < before.len() {
                        assert(before[k] == x);
                    }
                }
                if before.contains(x) {
                    let k = choose|k: int| 0 <= k < before.len() && before[k] == x;
                    assert(all[k] == x);
                }
                assert(all[all.len() - 1] == last);
            }
            assert forall|i: int, j: int| 0 <= i < j < all.len() implies all[i] != all[j] by {
                if j == before.len() {
                    assert(before.contains(before[i]));
                }
            }
        }
        if list.no_duplicates() {
            assert(front.no_duplicates());
            assert(!front.contains(last)) by {
                if front.contains(last) {
                    let k = choose|k: int| 0 <= k < front.len() && front[k] == last;
                    assert(list[k] == list[list.len() - 1]);
                }
            }
        }
    } else {
        assert(list =~= Seq::<T>::empty());
    }
}

/// The nodes and the edges of several segments are those of each, side by side.
pub proof fn law_segments_add_their_nodes_and_edges(
    a: Seq<MmapCsrGraph>,
    b: Seq<MmapCsrGraph>,
)
    ensures
        listed_nodes(a + b) == listed_nodes(a) + listed_nodes(b),
        listed_edges(a + b) == listed_edges(a) + listed_edges(b),
        forall|g: MmapCsrGraph| #[trigger]
            listed_edges(seq![g]) == segment_edges(g, g.num_nodes as int),
        forall|g: MmapCsrGraph| #[trigger] listed_nodes(seq![g]) == segment_nodes(g),
    decreases b.len(),
{
    assert forall|g: MmapCsrGraph| #[trigger]
        listed_edges(seq![g]) == segment_edges(g, g.num_nodes as int) by {
        assert(seq![g].drop_last() =~= Seq::<MmapCsrGraph>::empty());
        assert(listed_edges(Seq::<MmapCsrGraph>::empty()) =~= Seq::<(u64, u64)>::empty());
        assert(Seq::<(u64, u64)>::empty() + segment_edges(g, g.num_nodes as int) =~= segment_edges(
            g,
            g.num_nodes as int,
        ));
    }
    assert forall|g: MmapCsrGraph| #[trigger] listed_nodes(seq![g]) == segment_nodes(g) by {
        assert(seq![g].drop_last() =~= Seq::<MmapCsrGraph>::empty());
        assert(listed_nodes(Seq::<MmapCsrGraph>::empty()) =~= Seq::<u64>::empty());
        assert(Seq::<u64>::empty() + segment_nodes(g) =~= segment_nodes(g));
    }
    if b.len() == 0 {
        assert(a + b =~= a);
        assert(listed_nodes(a) + listed_nodes(b) =~= listed_nodes(a));
        assert(listed_edges(a) + listed_edges(b) =~= listed_edges(a));
    } else {
        law_segments_add_their_nodes_and_edges(a, b.drop_last());
        assert((a + b).drop_last() =~= a + b.drop_last());
        assert(listed_nodes(a + b) =~= listed_nodes(a) + listed_nodes(b));
        assert(listed_edges(a + b) =~= listed_edges(a) + listed_edges(b));
    }
}

/// The edges of a segment are the pairs of its nodes and their neighbours, each as often as
/// the node lists it.
pub proof fn law_segment_edges_start_at_their_nodes(g: MmapCsrGraph, n: int, place: int)
    requires
        0 <= place < n,
    ensures
        forall|k: int|
            0 <= k < g.edges_of(place).len() ==> segment_edges(g, n).contains(
                (
                    csr_graph::numbers_in(g.dict@)[place],
                    csr_graph::numbers_in(g.dict@)[(#[trigger] g.edges_of(place)[k]).dst_id as int],
                ),
            ),
        segment_edges(g, n).len() == segment_edges(g, n - 1).len() + g.edges_of(n - 1).len(),
    decreases n,
{
    let dict = csr_graph::numbers_in(g.dict@);
    let all = segment_edges(g, n);
    let before = segment_edges(g, n - 1);
    if place < n - 1 {
        law_segment_edges_start_at_their_nodes(g, n - 1, place);
        assert forall|k: int| 0 <= k < g.edges_of(place).len() implies all.contains(
            (dict[place], dict[(#[trigger] g.edges_of(place)[k]).dst_id as int]),
        ) by {
            let e = (dict[place], dict[g.edges_of(place)[k].dst_id as int]);
            let i = choose|i: int| 0 <= i < before.len() && before[i] == e;
            assert(all[i] == e);
        }
    } else {
        assert forall|k: int| 0 <= k < g.edges_of(place).len() implies all.contains(
            (dict[place], dict[(#[trigger] g.edges_of(place)[k]).dst_id as int]),
        ) by {
            let e = (dict[place], dict[g.edges_of(place)[k].dst_id as int]);
            assert(all[before.len() + k] == e);
        }
    }
}

/// A degree counts the edges of a node: one for an edge that leaves it and, where both ends
/// count, one for an edge that reaches it. An edge to a node that is not known counts nowhere.
/// The degrees of lists side by side add up, and so do the numbers of edges.
pub proof fn law_degrees_count_edges(
    a: Seq<(u64, u64)>,
    b: Seq<(u64, u64)>,
    nodes: Seq<u64>,
    both: bool,
    node: u64,
    e: (u64, u64),
)
    ensures
        degree_of(a + b, nodes, both, node) == degree_of(a, nodes, both, node) + degree_of(
            b,
            nodes,
            both,
            node,
        ),
        count_known(a + b, nodes) == count_known(a, nodes) + count_known(b, nodes),
        !nodes.contains(e.1) ==> degree_of(seq![e], nodes, both, node) == 0 && count_known(
            seq![e],
            nodes,
        ) == 0,
        nodes.contains(e.1) ==> count_known(seq![e], nodes) == 1,
        nodes.contains(e.1) && e.0 == node && e.1 != node ==> degree_of(seq![e], nodes, both, node)
            == 1,
        nodes.contains(e.1) && e.0 != node && e.1 == node ==> degree_of(seq![e], nodes, both, node)
            == if both {
            1nat
        } else {
            0
        },
        nodes.contains(e.1) && e.0 == node && e.1 == node ==> degree_of(seq![e], nodes, both, node)
            == if both {
            2nat
        } else {
            1
        },
        e.0 != node && e.1 != node ==> degree_of(seq![e], nodes, both, node) == 0,
    decreases b.len(),
{
    let empty = Seq::<(u64, u64)>::empty();
    assert(seq![e].drop_last() =~= empty);
    assert(degree_of(empty, nodes, both, node) == 0);
    assert(count_known(empty, nodes) == 0);
    if b.len() == 0 {
        assert(a + b =~= a);
    } else {
        law_degrees_count_edges(a, b.drop_last(), nodes, both, node, e);
        assert((a + b).drop_last() =~= a + b.drop_last());
    }
}

/// Neighbours are known by their numbers, in their order; one that has no number is left out.
pub proof fn law_neighbours_keep_their_order(list: Seq<u64>, nodes: Seq<u64>, x: u64)
    requires
        nodes.len() <= usize::MAX,
    ensures
        nodes.contains(x) ==> numbers_of(list.push(x), nodes).len() == numbers_of(list, nodes).len()
            + 1 && nodes[numbers_of(list.push(x), nodes).last() as int] == x,
        !nodes.contains(x) ==> numbers_of(list.push(x), nodes) == numbers_of(list, nodes),
        numbers_of(list, nodes).is_prefix_of(numbers_of(list.push(x), nodes)),
        numbers_of(Seq::empty(), nodes).len() == 0,
{
    assert(list.push(x).drop_last() =~= list);
    if nodes.contains(x) {
        nodes.index_of_first_ensures(x);
        assert(nodes[nodes.index_of(x)] == x);
    }
}

} // verus!
