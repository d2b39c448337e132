//! Communities of a graph that is held as compressed rows.
//!
//! Nodes move between communities one at a time; which move is best is decided
//! outside, from the numbers of edges that are given here.

use std::collections::BTreeMap;

use vstd::prelude::*;
use vstd::std_specs::iter::IteratorSpec;

use crate::algorithms::adjacency::{self, CsrAdj};
use crate::algorithms::refinement;
use crate::index::csr_graph::{self, MultiSegmentCsrGraph};
use crate::order;

verus! {

broadcast use vstd::std_specs::btree::group_btree_axioms;

// ---------------------------------------------------------------------------
// Where a partition starts
// ---------------------------------------------------------------------------

/// The number behind a community's, or the last one.
pub open spec fn number_behind(c: u32) -> nat {
    if c < u32::MAX {
        c as nat + 1
    } else {
        c as nat
    }
}

/// The first number behind all communities from before.
pub open spec fn is_first_free(seed: Map<u64, u32>, n: nat) -> bool {
    &&& forall|k: u64| #[trigger] seed.dom().contains(k) ==> number_behind(seed[k]) <= n
    &&& n > 0 ==> exists|k: u64| #[trigger]
        seed.dom().contains(k) && number_behind(seed[k]) == n
}

/// The first number behind all communities from before.
pub open spec fn first_free(seed: Map<u64, u32>) -> nat {
    choose|n: nat| is_first_free(seed, n)
}

proof fn lemma_one_first_free(seed: Map<u64, u32>, a: nat, b: nat)
    requires
        is_first_free(seed, a),
        is_first_free(seed, b),
    ensures
        a == b,
{
}

proof fn lemma_first_free(seed: Map<u64, u32>)
    requires
        seed.dom().finite(),
    ensures
        is_first_free(seed, first_free(seed)),
    decreases seed.dom().len(),
{
    if seed.dom().len() == 0 {
        assert(forall|k: u64| !(#[trigger] seed.dom().contains(k)));
        assert(is_first_free(seed, 0));
    } else {
        let k = seed.dom().choose();
        let rest = seed.remove(k);
        assert(rest.dom() =~= seed.dom().remove(k));
        lemma_first_free(rest);
        let before = first_free(rest);
        let n = if number_behind(seed[k]) > before {
            number_behind(seed[k])
        } else {
            before
        };
        assert forall|j: u64| #[trigger] seed.dom().contains(j) implies number_behind(seed[j])
            <= n by {
            if j != k {
                assert(rest.dom().contains(j));
            }
        }
        if n > 0 {
            if n == number_behind(seed[k]) {
                assert(seed.dom().contains(k));
            } else {
                let j = choose|j: u64| #[trigger]
                    rest.dom().contains(j) && number_behind(rest[j]) == before;
                assert(seed.dom().contains(j));
            }
        }
        assert(is_first_free(seed, n));
    }
}

/// The communities of the first nodes, and the first number that is free, where
/// some nodes have a community from before: those keep it, and the others get
/// numbers behind all communities from before.
pub open spec fn seeded_start(nodes: Seq<u64>, seed: Map<u64, u32>) -> (Seq<u32>, nat)
    decreases nodes.len(),
{
    if nodes.len() == 0 {
        (Seq::empty(), first_free(seed))
    } else {
        let (before, next) = seeded_start(nodes.drop_last(), seed);
        if seed.dom().contains(nodes.last()) {
            (before.push(seed[nodes.last()]), next)
        } else {
            (before.push(next as u32), next + 1)
        }
    }
}

/// The communities that a partition starts from, and the first number that is
/// free: those from before where there are some, else one for each node.
pub open spec fn start_of(nodes: Seq<u64>, seed: Option<Map<u64, u32>>) -> (Seq<u32>, nat) {
    match seed {
        Some(seed) => seeded_start(nodes, seed),
        None => (Seq::new(nodes.len(), |u: int| u as u32), nodes.len()),
    }
}

proof fn lemma_seeded_start(nodes: Seq<u64>, seed: Map<u64, u32>, k: int)
    requires
        0 <= k <= nodes.len(),
        seed.dom().finite(),
    ensures
        seeded_start(nodes, seed).0.len() == nodes.len(),
        first_free(seed) <= seeded_start(nodes.take(k), seed).1 <= seeded_start(nodes, seed).1,
        seeded_start(nodes, seed).1 < u32::MAX ==> forall|u: int|
            0 <= u < nodes.len() ==> #[trigger] seeded_start(nodes, seed).0[u] < seeded_start(
                nodes,
                seed,
            ).1,
    decreases nodes.len(),
{
    lemma_first_free(seed);
    if nodes.len() > 0 {
        if k < nodes.len() {
            assert(nodes.drop_last().take(k) =~= nodes.take(k));
            lemma_seeded_start(nodes.drop_last(), seed, k);
        } else {
            assert(nodes.take(k) =~= nodes);
            lemma_seeded_start(nodes.drop_last(), seed, k - 1);
        }
        if seed.dom().contains(nodes.last()) {
            assert(number_behind(seed[nodes.last()]) <= first_free(seed));
        }
    } else {
        assert(nodes.take(k) =~= nodes);
    }
}

/// The view of communities from before.
pub open spec fn seed_view(seed: Option<&BTreeMap<u64, u32>>) -> Option<Map<u64, u32>> {
    match seed {
        Some(m) => Some(m@),
        None => None,
    }
}

/// Finds the first number behind all communities from before.
fn find_first_free(seed: &BTreeMap<u64, u32>) -> (r: u32)
    ensures
        r == first_free(seed@),
        seed@.dom().finite(),
{
    broadcast use vstd::std_specs::btree::group_btree_axioms;

    let mut n: u32 = 0;
    for c in it: seed.values()
        invariant
            it.seq().unref().to_set() == seed@.values(),
            forall|i: int|
                0 <= i < it.index() ==> number_behind(*(#[trigger] it.seq()[i])) <= n,
            n > 0 ==> exists|i: int|
                0 <= i < it.index() && number_behind(*(#[trigger] it.seq()[i])) == n,
    {
        let above: u32 = c.saturating_add(1);
        if above > n {
            n = above;
        }
    }
    proof {
        let listed = seed.values().remaining();
        assert(listed.unref().to_set() == seed@.values());
        assert forall|k: u64| #[trigger] seed@.dom().contains(k) implies number_behind(seed@[k])
            <= n by {
            assert(seed@.values().contains(seed@[k]));
            assert(listed.unref().contains(seed@[k]));
            let i = choose|i: int| 0 <= i < listed.len() && listed.unref()[i] == seed@[k];
            assert(*listed[i] == seed@[k]);
        }
        if n > 0 {
            let i = choose|i: int|
                0 <= i < listed.len() && number_behind(*(#[trigger] listed[i])) == n;
            assert(listed.unref()[i] == *listed[i]);
            assert(listed.unref().to_set().contains(*listed[i]));
            let k = choose|k: u64| #[trigger] seed@.dom().contains(k) && seed@[k] == *listed[i];
            assert(seed@.dom().contains(k));
        }
        lemma_first_free(seed@);
        lemma_one_first_free(seed@, n as nat, first_free(seed@));
    }
    n
}

/// Where a partition starts.
pub fn start_partition(originals: &Vec<u64>, seed: Option<&BTreeMap<u64, u32>>) -> (r: (
    Vec<u32>,
    u32,
))
    requires
        start_of(originals@, seed_view(seed)).1 <= u32::MAX,
    ensures
        r.0@ == start_of(originals@, seed_view(seed)).0,
        r.1 == start_of(originals@, seed_view(seed)).1,
{
    let ghost nodes = originals@;
    let mut community: Vec<u32> = Vec::new();
    let mut next: u32 = 0;
    match seed {
        Some(seed) => {
            next = find_first_free(seed);
            let mut u: usize = 0;
            assert(nodes.take(0) =~= Seq::<u64>::empty());
            while u < originals.len()
                invariant
                    nodes == originals@,
                    u <= nodes.len(),
                    seed@.dom().finite(),
                    seeded_start(nodes, seed@).1 <= u32::MAX,
                    community@ == seeded_start(nodes.take(u as int), seed@).0,
                    next == seeded_start(nodes.take(u as int), seed@).1,
                decreases originals.len() - u,
            {
                proof {
                    assert(nodes.take(u + 1).drop_last() =~= nodes.take(u as int));
                    lemma_seeded_start(nodes, seed@, u + 1);
                }
                match seed.get(&originals[u]) {
                    Some(c) => {
                        community.push(*c);
                    },
                    None => {
                        community.push(next);
                        next = next + 1;
                    },
                }
                u = u + 1;
            }
            assert(nodes.take(u as int) =~= nodes);
        },
        None => {
            let n: usize = originals.len();
            let mut u: usize = 0;
            while u < n
                invariant
                    n == nodes.len(),
                    n <= u32::MAX,
                    u <= n,
                    community.len() == u,
                    forall|k: int| 0 <= k < u ==> #[trigger] community@[k] == k as u32,
                decreases n - u,
            {
                community.push(u as u32);
                u = u + 1;
            }
            assert(community@ =~= start_of(nodes, seed_view(seed)).0);
            next = n as u32;
        },
    }
    (community, next)
}

/// A partition that starts from communities from before keeps the number of
/// every node that has one.
pub proof fn law_seeded_nodes_keep_their_number(nodes: Seq<u64>, seed: Map<u64, u32>, u: int)
    requires
        0 <= u < nodes.len(),
        seed.dom().contains(nodes[u]),
    ensures
        start_of(nodes, Some(seed)).0.len() == nodes.len(),
        start_of(nodes, Some(seed)).0[u] == seed[nodes[u]],
    decreases nodes.len(),
{
    lemma_start_len(nodes, seed);
    lemma_start_len(nodes.drop_last(), seed);
    if u < nodes.len() - 1 {
        law_seeded_nodes_keep_their_number(nodes.drop_last(), seed, u);
    }
}

proof fn lemma_start_len(nodes: Seq<u64>, seed: Map<u64, u32>)
    ensures
        seeded_start(nodes, seed).0.len() == nodes.len(),
    decreases nodes.len(),
{
    if nodes.len() > 0 {
        lemma_start_len(nodes.drop_last(), seed);
    }
}

/// A node without a community from before starts in one of its own: its number is
/// none of those from before, and no other node has it.
pub proof fn law_new_nodes_have_new_numbers(
    nodes: Seq<u64>,
    seed: Map<u64, u32>,
    u: int,
    v: int,
)
    requires
        seed.dom().finite(),
        seeded_start(nodes, seed).1 <= u32::MAX,
        0 <= u < nodes.len(),
        !seed.dom().contains(nodes[u]),
        0 <= v < nodes.len(),
        v != u,
    ensures
        forall|k: u64| #[trigger] seed.dom().contains(k) ==> start_of(nodes, Some(seed)).0[u]
            != seed[k],
        start_of(nodes, Some(seed)).0[u] != start_of(nodes, Some(seed)).0[v],
    decreases nodes.len(),
{
    let front = nodes.drop_last();
    let last = nodes.len() - 1;
    lemma_first_free(seed);
    lemma_start_len(front, seed);
    lemma_seeded_start(front, seed, 0);
    lemma_seeded_start(nodes, seed, last);
    assert(nodes.take(last) =~= front);
    let next = seeded_start(front, seed).1;
    if u == last {
        assert forall|k: u64| #[trigger] seed.dom().contains(k) implies next as u32 != seed[k] by {
            assert(number_behind(seed[k]) <= first_free(seed));
        }
        assert(seeded_start(front, seed).0[v] < next);
    } else {
        assert(front[u] == nodes[u]);
        if v == last {
            lemma_new_number(front, seed, u);
            if seed.dom().contains(nodes[v]) {
                assert(number_behind(seed[nodes[v]]) <= first_free(seed));
            }
        } else {
            law_new_nodes_have_new_numbers(front, seed, u, v);
        }
    }
}

/// The number of a new node lies behind those from before.
proof fn lemma_new_number(nodes: Seq<u64>, seed: Map<u64, u32>, u: int)
    requires
        seed.dom().finite(),
        seeded_start(nodes, seed).1 <= u32::MAX,
        0 <= u < nodes.len(),
        !seed.dom().contains(nodes[u]),
    ensures
        first_free(seed) <= seeded_start(nodes, seed).0[u] < seeded_start(nodes, seed).1,
        forall|k: u64| #[trigger] seed.dom().contains(k) ==> seeded_start(nodes, seed).0[u]
            != seed[k],
    decreases nodes.len(),
{
    let front = nodes.drop_last();
    lemma_first_free(seed);
    lemma_start_len(front, seed);
    lemma_seeded_start(front, seed, 0);
    lemma_seeded_start(nodes, seed, nodes.len() - 1);
    assert(nodes.take(nodes.len() - 1) =~= front);
    if u < nodes.len() - 1 {
        assert(front[u] == nodes[u]);
        lemma_new_number(front, seed, u);
    } else {
        assert forall|k: u64| #[trigger] seed.dom().contains(k) implies seeded_start(
            nodes,
            seed,
        ).0[u] != seed[k] by {
            assert(number_behind(seed[k]) <= first_free(seed));
        }
    }
}

// ---------------------------------------------------------------------------
// Moves
// ---------------------------------------------------------------------------

/// A community that a node can be in: how many edges it has to that community,
/// and how many the other nodes there have in all.
#[derive(Debug, Clone, Copy, PartialEq, Eq, Structural)]
pub struct Place {
    pub community: u32,
    pub edges: u64,
    pub total: u128,
}

/// What a move of a node is decided by: how many edges there are and how many it
/// has, the community it is in, and the communities of its neighbours.
#[derive(Debug)]
pub struct Moves {
    pub weight: u64,
    pub degree: u64,
    pub own: Place,
    pub others: Vec<Place>,
}

/// What a move is decided by.
pub ghost struct MovesView {
    pub weight: u64,
    pub degree: u64,
    pub own: Place,
    pub others: Seq<Place>,
}

impl View for Moves {
    type V = MovesView;

    open spec fn view(&self) -> MovesView {
        MovesView {
            weight: self.weight,
            degree: self.degree,
            own: self.own,
            others: self.others@,
        }
    }
}

/// How many edges the nodes of a community have in all.
pub open spec fn total_of(community: Seq<u32>, degree: Seq<u64>, c: u32) -> nat
    decreases community.len(),
{
    if community.len() == 0 {
        0
    } else {
        total_of(community.drop_last(), degree, c) + if community.last() == c {
            degree[community.len() - 1] as nat
        } else {
            0
        }
    }
}

/// The communities of the neighbours of a node, itself left out.
pub open spec fn labels_around(adjacent: Seq<usize>, community: Seq<u32>, u: int) -> Seq<u32>
    decreases adjacent.len(),
{
    if adjacent.len() == 0 {
        Seq::empty()
    } else {
        let before = labels_around(adjacent.drop_last(), community, u);
        if adjacent.last() != u {
            before.push(community[adjacent.last() as int])
        } else {
            before
        }
    }
}

/// How often an item occurs in a list.
pub open spec fn occurrences(list: Seq<u32>, c: u32) -> nat
    decreases list.len(),
{
    if list.len() == 0 {
        0
    } else {
        occurrences(list.drop_last(), c) + if list.last() == c {
            1nat
        } else {
            0
        }
    }
}

/// A community as a place for a node: the other nodes there, and its own edges to
/// them.
pub open spec fn place_at(adj: CsrAdj, community: Seq<u32>, u: int, c: u32) -> Place {
    Place {
        community: c,
        edges: occurrences(labels_around(adj.adjacent(u), community, u), c) as u64,
        total: (total_of(community, adj.degree@, c) - if community[u] == c {
            adj.degree@[u] as int
        } else {
            0
        }) as u128,
    }
}

/// What the move of a node is decided by.
pub open spec fn moves_at(adj: CsrAdj, community: Seq<u32>, u: int) -> MovesView {
    MovesView {
        weight: adj.total_weight,
        degree: adj.degree@[u],
        own: place_at(adj, community, u, community[u]),
        others: adjacency::distinct(labels_around(adj.adjacent(u), community, u)).map_values(
            |c: u32| place_at(adj, community, u, c),
        ),
    }
}

proof fn lemma_total_bound(community: Seq<u32>, degree: Seq<u64>, c: u32)
    ensures
        total_of(community, degree, c) <= community.len() * u64::MAX,
    decreases community.len(),
{
    if community.len() > 0 {
        lemma_total_bound(community.drop_last(), degree, c);
        let n = community.len();
        assert((n - 1) * u64::MAX + u64::MAX == n * u64::MAX) by (nonlinear_arith);
    }
}

proof fn lemma_total_has(community: Seq<u32>, degree: Seq<u64>, u: int)
    requires
        0 <= u < community.len(),
    ensures
        degree[u] <= total_of(community, degree, community[u]),
    decreases community.len(),
{
    if u < community.len() - 1 {
        lemma_total_has(community.drop_last(), degree, u);
    }
}

proof fn lemma_total_moves(community: Seq<u32>, degree: Seq<u64>, u: int, to: u32, c: u32)
    requires
        0 <= u < community.len(),
    ensures
        total_of(community.update(u, to), degree, c) == total_of(community, degree, c) - (
        if community[u] == c {
            degree[u] as int
        } else {
            0
        }) + (if to == c {
            degree[u] as int
        } else {
            0
        }),
    decreases community.len(),
{
    if u == community.len() - 1 {
        assert(community.update(u, to).drop_last() =~= community.drop_last());
    } else {
        assert(community.update(u, to).drop_last() =~= community.drop_last().update(u, to));
        lemma_total_moves(community.drop_last(), degree, u, to, c);
    }
}

proof fn lemma_occurrences(list: Seq<u32>, c: u32)
    ensures
        occurrences(list, c) <= list.len(),
        !list.contains(c) ==> occurrences(list, c) == 0,
    decreases list.len(),
{
    if list.len() > 0 {
        lemma_occurrences(list.drop_last(), c);
        if !list.contains(c) {
            assert(list[list.len() - 1] != c);
            if list.drop_last().contains(c) {
                let i = choose|i: int| 0 <= i < list.drop_last().len() && list.drop_last()[i] == c;
                assert(list[i] == c);
            }
        }
    }
}

proof fn lemma_labels_around(adjacent: Seq<usize>, community: Seq<u32>, u: int)
    requires
        forall|i: int| 0 <= i < adjacent.len() ==> (#[trigger] adjacent[i]) < community.len(),
    ensures
        labels_around(adjacent, community, u).len() <= adjacent.len(),
        forall|i: int|
            0 <= i < labels_around(adjacent, community, u).len() ==> community.contains(
                #[trigger] labels_around(adjacent, community, u)[i],
            ),
    decreases adjacent.len(),
{
    if adjacent.len() > 0 {
        let init = adjacent.drop_last();
        assert forall|i: int| 0 <= i < init.len() implies (#[trigger] init[i])
            < community.len() by {
            assert(init[i] == adjacent[i]);
        }
        lemma_labels_around(init, community, u);
        let before = labels_around(init, community, u);
        let all = labels_around(adjacent, community, u);
        assert forall|i: int| 0 <= i < all.len() implies community.contains(#[trigger] all[i]) by {
            if i < before.len() {
                assert(all[i] == before[i]);
            } else {
                assert(adjacent[adjacent.len() - 1] < community.len());
                assert(community[adjacent.last() as int] == all[i]);
            }
        }
    }
}

/// The totals of communities; one that is not listed has none.
spec fn holds_totals(totals: Map<u32, u128>, community: Seq<u32>, degree: Seq<u64>) -> bool {
    forall|c: u32|
        #![trigger total_of(community, degree, c)]
        total_of(community, degree, c) == if totals.dom().contains(c) {
            totals[c] as nat
        } else {
            0
        }
}

fn total_in(totals: &BTreeMap<u32, u128>, c: u32) -> (r: u128)
    ensures
        r == if totals@.dom().contains(c) {
            totals@[c]
        } else {
            0
        },
{
    match totals.get(&c) {
        Some(t) => *t,
        None => 0,
    }
}

fn sum_totals(community: &Vec<u32>, degree: &Vec<u64>) -> (r: BTreeMap<u32, u128>)
    requires
        community@.len() == degree@.len(),
    ensures
        holds_totals(r@, community@, degree@),
{
    let mut totals: BTreeMap<u32, u128> = BTreeMap::new();
    let n: usize = community.len();
    let mut u: usize = 0;
    assert(community@.take(0) =~= Seq::<u32>::empty());
    while u < n
        invariant
            n == community@.len(),
            community@.len() == degree@.len(),
            u <= n,
            holds_totals(totals@, community@.take(u as int), degree@),
        decreases n - u,
    {
        let c: u32 = community[u];
        let ghost before = community@.take(u as int);
        let ghost after = community@.take(u + 1);
        let ghost old_totals = totals@;
        let t: u128 = total_in(&totals, c);
        proof {
            assert(after.drop_last() =~= before);
            assert(total_of(before, degree@, c) == t);
            lemma_total_bound(after, degree@, c);
            assert((u + 1) * u64::MAX <= u128::MAX) by (nonlinear_arith)
                requires
                    u + 1 <= u64::MAX,
            ;
            assert(after.len() == u + 1);
        }
        totals.insert(c, t + degree[u] as u128);
        proof {
            assert forall|d: u32|
                #![trigger total_of(after, degree@, d)]
                total_of(after, degree@, d) == if totals@.dom().contains(d) {
                    totals@[d] as nat
                } else {
                    0
                } by {
                assert(total_of(before, degree@, d) == if old_totals.dom().contains(d) {
                    old_totals[d] as nat
                } else {
                    0
                });
            }
        }
        u = u + 1;
    }
    assert(community@.take(u as int) =~= community@);
    totals
}

/// The communities of neighbours, how often each occurs, and where it stands.
struct Around {
    ids: Vec<u32>,
    counts: Vec<u64>,
    places: BTreeMap<u32, usize>,
}

impl Around {
    spec fn counts_labels(self, labels: Seq<u32>) -> bool {
        &&& self.ids@ == adjacency::distinct(labels)
        &&& self.counts@.len() == self.ids@.len()
        &&& adjacency::numbers_places(self.places@, self.ids@)
        &&& forall|k: int|
            0 <= k < self.ids@.len() ==> #[trigger] self.counts@[k] == occurrences(
                labels,
                self.ids@[k],
            )
    }
}

/// Counts the communities of the neighbours of a node.
fn count_around(found: &Vec<usize>, community: &Vec<u32>, u: usize) -> (r: Around)
    requires
        forall|i: int| 0 <= i < found@.len() ==> (#[trigger] found@[i]) < community@.len(),
    ensures
        r.counts_labels(labels_around(found@, community@, u as int)),
{
    let mut ids: Vec<u32> = Vec::new();
    let mut counts: Vec<u64> = Vec::new();
    let mut places: BTreeMap<u32, usize> = BTreeMap::new();
    let n: usize = found.len();
    let mut i: usize = 0;
    assert(found@.take(0) =~= Seq::<usize>::empty());
    while i < n
        invariant
            n == found@.len(),
            forall|i: int| 0 <= i < found@.len() ==> (#[trigger] found@[i]) < community@.len(),
            i <= n,
            ids@ == adjacency::distinct(labels_around(found@.take(i as int), community@, u as int)),
            counts@.len() == ids@.len(),
            adjacency::numbers_places(places@, ids@),
            labels_around(found@.take(i as int), community@, u as int).len() <= i,
            forall|k: int|
                0 <= k < ids@.len() ==> #[trigger] counts@[k] == occurrences(
                    labels_around(found@.take(i as int), community@, u as int),
                    ids@[k],
                ),
        decreases n - i,
    {
        let ghost before = labels_around(found@.take(i as int), community@, u as int);
        let ghost after = labels_around(found@.take(i + 1), community@, u as int);
        assert(found@.take(i + 1).drop_last() =~= found@.take(i as int));
        assert(found@[i as int] < community@.len());
        if found[i] != u {
            let c: u32 = community[found[i]];
            let ghost old_ids = ids@;
            let ghost old_counts = counts@;
            assert(after.drop_last() =~= before);
            match places.get(&c) {
                Some(k) => {
                    let k: usize = *k;
                    proof {
                        assert(ids@.contains(c));
                        let at = ids@.index_of(c);
                        assert(ids@[at] == c);
                        assert(places@[ids@[at]] == at);
                        lemma_occurrences(before, c);
                        assert(old_counts[k as int] == occurrences(before, c));
                    }
                    let count: u64 = counts[k];
                    counts.set(k, count + 1);
                    proof {
                        assert forall|j: int| 0 <= j < ids@.len() implies #[trigger] counts@[j]
                            == occurrences(after, ids@[j]) by {
                            assert(old_counts[j] == occurrences(before, ids@[j]));
                            if j != k {
                                assert(ids@[j] != ids@[k as int]);
                            }
                        }
                    }
                },
                None => {
                    let number: usize = ids.len();
                    let ghost old_places = places@;
                    proof {
                        assert(!old_places.dom().contains(c));
                        adjacency::lemma_numbered(places@, ids@, c, number);
                        adjacency::lemma_distinct(before);
                        lemma_occurrences(before, c);
                    }
                    places.insert(c, number);
                    ids.push(c);
                    counts.push(1);
                    proof {
                        assert forall|j: int| 0 <= j < ids@.len() implies #[trigger] counts@[j]
                            == occurrences(after, ids@[j]) by {
                            if j < old_ids.len() {
                                assert(old_counts[j] == occurrences(before, old_ids[j]));
                                assert(old_ids.contains(old_ids[j]));
                            }
                        }
                    }
                },
            }
        } else {
            assert(after =~= before);
        }
        i = i + 1;
    }
    assert(found@.take(i as int) =~= found@);
    Around { ids, counts, places }
}

/// What the move of a node is decided by.
fn look_around(adj: &CsrAdj, community: &Vec<u32>, totals: &BTreeMap<u32, u128>, u: usize) -> (r:
    Moves)
    requires
        adj.wf(),
        community@.len() == adj.nodes(),
        holds_totals(totals@, community@, adj.degree@),
        u < community@.len(),
    ensures
        r@ == moves_at(*adj, community@, u as int),
{
    let ghost labels = labels_around(adj.adjacent(u as int), community@, u as int);
    let found: Vec<usize> = adj.neighbors(u);
    let around: Around = count_around(&found, community, u);
    let degree: u64 = adj.degree[u];
    let c: u32 = community[u];
    proof {
        lemma_total_has(community@, adj.degree@, u as int);
        assert(total_of(community@, adj.degree@, c) == if totals@.dom().contains(c) {
            totals@[c] as nat
        } else {
            0
        });
        adjacency::lemma_distinct(labels);
        lemma_occurrences(labels, c);
    }
    let own_edges: u64 = match around.places.get(&c) {
        Some(k) => {
            proof {
                assert(around.ids@.contains(c));
                let at = around.ids@.index_of(c);
                assert(around.ids@[at] == c);
                assert(around.places@[around.ids@[at]] == at);
                assert(around.counts@[at] == occurrences(labels, c));
            }
            around.counts[*k]
        },
        None => {
            assert(!around.places@.dom().contains(c));
            0
        },
    };
    assert(own_edges == occurrences(labels, c));
    let own = Place { community: c, edges: own_edges, total: total_in(totals, c) - degree as u128 };
    let mut others: Vec<Place> = Vec::new();
    let mut k: usize = 0;
    while k < around.ids.len()
        invariant
            adj.wf(),
            community@.len() == adj.nodes(),
            u < community@.len(),
            c == community@[u as int],
            degree == adj.degree@[u as int],
            degree <= total_of(community@, adj.degree@, c),
            holds_totals(totals@, community@, adj.degree@),
            labels == labels_around(adj.adjacent(u as int), community@, u as int),
            around.counts_labels(labels),
            k <= around.ids@.len(),
            others.len() == k,
            forall|j: int|
                0 <= j < k ==> #[trigger] others@[j] == place_at(
                    *adj,
                    community@,
                    u as int,
                    around.ids@[j],
                ),
        decreases around.ids.len() - k,
    {
        let d: u32 = around.ids[k];
        proof {
            assert(total_of(community@, adj.degree@, d) == if totals@.dom().contains(d) {
                totals@[d] as nat
            } else {
                0
            });
            assert(around.counts@[k as int] == occurrences(labels, d));
        }
        let total: u128 = if d == c {
            total_in(totals, d) - degree as u128
        } else {
            total_in(totals, d)
        };
        others.push(Place { community: d, edges: around.counts[k], total });
        k = k + 1;
    }
    assert(others@ =~= moves_at(*adj, community@, u as int).others);
    Moves { weight: adj.total_weight, degree, own, others }
}

/// A choice among moves: the place of a community, any other number to stay.
pub open spec fn chooses<F: Fn(&Moves) -> usize>(choose_move: F, moves: MovesView, r: usize) -> bool {
    exists|m: Moves| #[trigger] m@ == moves && call_ensures(choose_move, (&m,), r)
}

/// Where a node is after a choice.
pub open spec fn moved_to(moves: MovesView, r: usize) -> u32 {
    if r < moves.others.len() {
        moves.others[r as int].community
    } else {
        moves.own.community
    }
}

/// A node moves as is chosen.
pub open spec fn is_move<F: Fn(&Moves) -> usize>(
    adj: CsrAdj,
    choose_move: F,
    before: Seq<u32>,
    after: Seq<u32>,
    u: int,
) -> bool {
    exists|r: usize| #[trigger]
        chooses(choose_move, moves_at(adj, before, u), r) && after == before.update(
            u,
            moved_to(moves_at(adj, before, u), r),
        )
}

/// Every node moves once, in the order of their numbers.
pub open spec fn is_pass<F: Fn(&Moves) -> usize>(
    adj: CsrAdj,
    choose_move: F,
    before: Seq<u32>,
    after: Seq<u32>,
) -> bool {
    exists|trace: Seq<Seq<u32>>| #[trigger] is_trace(adj, choose_move, before, after, trace, before.len() as int)
}

/// The communities before and after each of the first moves.
pub open spec fn is_trace<F: Fn(&Moves) -> usize>(
    adj: CsrAdj,
    choose_move: F,
    before: Seq<u32>,
    after: Seq<u32>,
    trace: Seq<Seq<u32>>,
    n: int,
) -> bool {
    &&& trace.len() == n + 1
    &&& trace[0] == before
    &&& trace[n] == after
    &&& forall|u: int| 0 <= u < n ==> #[trigger] moves_in(adj, choose_move, trace, u)
}

/// The move of one node in a trace.
pub open spec fn moves_in<F: Fn(&Moves) -> usize>(
    adj: CsrAdj,
    choose_move: F,
    trace: Seq<Seq<u32>>,
    u: int,
) -> bool {
    is_move(adj, choose_move, trace[u], trace[u + 1], u)
}

/// One pass in a run.
pub open spec fn passes_in<F: Fn(&Moves) -> usize>(
    adj: CsrAdj,
    choose_move: F,
    run: Seq<Seq<u32>>,
    i: int,
) -> bool {
    is_pass(adj, choose_move, run[i], run[i + 1])
}

/// A pass that moves nothing.
pub open spec fn rests_at(run: Seq<Seq<u32>>, i: int) -> bool {
    run[i] == run[i + 1]
}

/// At most how many passes there are.
pub const MAX_PASSES: usize = 15;

/// Passes until one moves nothing, but not too many.
pub open spec fn is_run<F: Fn(&Moves) -> usize>(
    adj: CsrAdj,
    choose_move: F,
    run: Seq<Seq<u32>>,
) -> bool {
    &&& 1 < run.len() <= MAX_PASSES + 1
    &&& forall|i: int| 0 <= i < run.len() - 1 ==> #[trigger] passes_in(adj, choose_move, run, i)
    &&& forall|i: int| 0 <= i < run.len() - 2 ==> !#[trigger] rests_at(run, i)
    &&& run.len() == MAX_PASSES + 1 || rests_at(run, run.len() - 2)
}

/// Moves one node.
fn move_node<F: Fn(&Moves) -> usize>(
    adj: &CsrAdj,
    community: &mut Vec<u32>,
    totals: &mut BTreeMap<u32, u128>,
    u: usize,
    choose_move: &F,
) -> (r: bool)
    requires
        adj.wf(),
        old(community)@.len() == adj.nodes(),
        holds_totals(old(totals)@, old(community)@, adj.degree@),
        u < old(community)@.len(),
        forall|m: &Moves| #[trigger] call_requires(*choose_move, (m,)),
    ensures
        is_move(*adj, *choose_move, old(community)@, final(community)@, u as int),
        final(community)@.len() == old(community)@.len(),
        holds_totals(final(totals)@, final(community)@, adj.degree@),
        r == (final(community)@[u as int] != old(community)@[u as int]),
        old(community)@.contains(final(community)@[u as int]),
{
    let ghost before = community@;
    let ghost degrees = adj.degree@;
    let nodes: usize = community.len();
    let moves: Moves = look_around(adj, community, totals, u);
    let at: usize = choose_move(&moves);
    let from: u32 = community[u];
    let degree: u64 = adj.degree[u];
    let to: u32 = if at < moves.others.len() {
        moves.others[at].community
    } else {
        from
    };
    proof {
        assert(chooses(*choose_move, moves_at(*adj, before, u as int), at));
        assert(to == moved_to(moves_at(*adj, before, u as int), at));
        lemma_move_stays(*adj, before, u as int, at);
    }
    if to != from {
        let own: u128 = total_in(totals, from);
        let other: u128 = total_in(totals, to);
        proof {
            lemma_total_has(before, degrees, u as int);
            assert(total_of(before, degrees, from) == own);
            assert(total_of(before, degrees, to) == other);
            lemma_total_moves(before, degrees, u as int, to, to);
            lemma_total_bound(before.update(u as int, to), degrees, to);
            let n = nodes as nat;
            assert(n * u64::MAX <= u128::MAX) by (nonlinear_arith)
                requires
                    n <= u64::MAX,
            ;
        }
        let ghost old_totals = totals@;
        totals.insert(from, own - degree as u128);
        totals.insert(to, other + degree as u128);
        community.set(u, to);
        proof {
            let after = before.update(u as int, to);
            assert forall|c: u32|
                #![trigger total_of(after, degrees, c)]
                total_of(after, degrees, c) == if totals@.dom().contains(c) {
                    totals@[c] as nat
                } else {
                    0
                } by {
                assert(total_of(before, degrees, c) == if old_totals.dom().contains(c) {
                    old_totals[c] as nat
                } else {
                    0
                });
                lemma_total_moves(before, degrees, u as int, to, c);
            }
        }
    } else {
        assert(community@ =~= before.update(u as int, to));
    }
    to != from
}

proof fn lemma_move_stays(adj: CsrAdj, community: Seq<u32>, u: int, r: usize)
    requires
        adj.wf(),
        community.len() == adj.nodes(),
        adj.nodes() <= usize::MAX,
        0 <= u < community.len(),
    ensures
        community.contains(moved_to(moves_at(adj, community, u), r)),
{
    let moves = moves_at(adj, community, u);
    if r < moves.others.len() {
        let labels = labels_around(adj.adjacent(u), community, u);
        adjacency::lemma_distinct(labels);
        lemma_adjacent_in_range(adj, u);
        lemma_labels_around(adj.adjacent(u), community, u);
        let c = adjacency::distinct(labels)[r as int];
        assert(adjacency::distinct(labels).contains(c));
        assert(labels.contains(c));
        let i = choose|i: int| 0 <= i < labels.len() && labels[i] == c;
        assert(community.contains(labels[i]));
    } else {
        assert(community[u] == moved_to(moves, r));
    }
}

proof fn lemma_adjacent_in_range(adj: CsrAdj, u: int)
    requires
        adj.wf(),
        adj.nodes() <= usize::MAX,
    ensures
        forall|i: int|
            0 <= i < adj.adjacent(u).len() ==> (#[trigger] adj.adjacent(u)[i]) < adj.nodes(),
{
    let id = adj.originals@[u];
    adjacency::lemma_numbers_in_range(csr_graph::neighbors_in(adj.forward.segments@, id), adj.originals@);
    match adj.reverse {
        Some(g) => {
            adjacency::lemma_numbers_in_range(csr_graph::neighbors_in(g.segments@, id), adj.originals@);
        },
        None => {},
    }
}

/// Moves every node once. Whether one moved.
fn move_all<F: Fn(&Moves) -> usize>(
    adj: &CsrAdj,
    community: &mut Vec<u32>,
    totals: &mut BTreeMap<u32, u128>,
    choose_move: &F,
    Ghost(bound): Ghost<int>,
) -> (r: bool)
    requires
        adj.wf(),
        old(community)@.len() == adj.nodes(),
        holds_totals(old(totals)@, old(community)@, adj.degree@),
        forall|m: &Moves| #[trigger] call_requires(*choose_move, (m,)),
        all_below(old(community)@, bound),
    ensures
        is_pass(*adj, *choose_move, old(community)@, final(community)@),
        final(community)@.len() == old(community)@.len(),
        holds_totals(final(totals)@, final(community)@, adj.degree@),
        r == (final(community)@ != old(community)@),
        all_below(final(community)@, bound),
{
    let ghost before = community@;
    let ghost mut trace: Seq<Seq<u32>> = seq![before];
    let n: usize = community.len();
    let mut moved: bool = false;
    let mut u: usize = 0;
    while u < n
        invariant
            adj.wf(),
            n == before.len(),
            community@.len() == n,
            n == adj.nodes(),
            u <= n,
            holds_totals(totals@, community@, adj.degree@),
            forall|m: &Moves| #[trigger] call_requires(*choose_move, (m,)),
            all_below(community@, bound),
            is_trace(*adj, *choose_move, before, community@, trace, u as int),
            forall|k: int| u <= k < n ==> #[trigger] community@[k] == before[k],
            moved == (community@ != before),
        decreases n - u,
    {
        let ghost was = community@;
        let ghost old_trace = trace;
        let step: bool = move_node(adj, community, totals, u, choose_move);
        proof {
            trace = trace.push(community@);
            assert(community@ =~= was.update(u as int, community@[u as int]));
            assert forall|k: int| 0 <= k < u + 1 implies #[trigger] moves_in(
                *adj,
                *choose_move,
                trace,
                k,
            ) by {
                if k < u {
                    assert(moves_in(*adj, *choose_move, old_trace, k));
                    assert(trace[k] == old_trace[k] && trace[k + 1] == old_trace[k + 1]);
                }
            }
            let i = choose|i: int| 0 <= i < was.len() && was[i] == community@[u as int];
            assert(was[i] < bound);
            if step {
                assert(community@[u as int] != before[u as int]);
            } else {
                assert(community@ =~= was);
            }
        }
        if step {
            moved = true;
        }
        u = u + 1;
    }
    moved
}

/// Every number is below a bound.
pub open spec fn all_below(list: Seq<u32>, bound: int) -> bool {
    forall|i: int| 0 <= i < list.len() ==> #[trigger] list[i] < bound
}

/// Moves nodes in passes, until a pass moves none or there were enough.
fn move_until_rest<F: Fn(&Moves) -> usize>(
    adj: &CsrAdj,
    community: &mut Vec<u32>,
    choose_move: &F,
    Ghost(bound): Ghost<int>,
)
    requires
        adj.wf(),
        old(community)@.len() == adj.nodes(),
        forall|m: &Moves| #[trigger] call_requires(*choose_move, (m,)),
        all_below(old(community)@, bound),
    ensures
        final(community)@.len() == old(community)@.len(),
        ends_run(*adj, *choose_move, old(community)@, final(community)@),
        all_below(final(community)@, bound),
{
    let ghost before = community@;
    let mut totals: BTreeMap<u32, u128> = sum_totals(community, &adj.degree);
    let ghost mut run: Seq<Seq<u32>> = seq![before];
    let mut pass: usize = 0;
    let mut moving: bool = true;
    while pass < MAX_PASSES && moving
        invariant
            adj.wf(),
            community@.len() == before.len(),
            before.len() == adj.nodes(),
            holds_totals(totals@, community@, adj.degree@),
            forall|m: &Moves| #[trigger] call_requires(*choose_move, (m,)),
            all_below(community@, bound),
            pass <= MAX_PASSES,
            run.len() == pass + 1,
            run[0] == before,
            run[pass as int] == community@,
            forall|i: int| 0 <= i < pass ==> #[trigger] passes_in(*adj, *choose_move, run, i),
            forall|i: int| 0 <= i < pass - 1 ==> !#[trigger] rests_at(run, i),
            moving ==> (pass > 0 ==> !rests_at(run, pass - 1)),
            !moving ==> pass > 0 && rests_at(run, pass - 1),
        decreases MAX_PASSES - pass,
    {
        let ghost old_run = run;
        moving = move_all(adj, community, &mut totals, choose_move, Ghost(bound));
        proof {
            run = run.push(community@);
            assert forall|i: int| 0 <= i < pass + 1 implies #[trigger] passes_in(
                *adj,
                *choose_move,
                run,
                i,
            ) by {
                if i < pass {
                    assert(passes_in(*adj, *choose_move, old_run, i));
                    assert(run[i] == old_run[i] && run[i + 1] == old_run[i + 1]);
                }
            }
            assert forall|i: int| 0 <= i < pass implies !#[trigger] rests_at(run, i) by {
                assert(run[i] == old_run[i] && run[i + 1] == old_run[i + 1]);
                assert(!rests_at(old_run, i));
            }
        }
        pass = pass + 1;
    }
    assert(is_run(*adj, *choose_move, run));
}

/// The communities at the end of a run.
pub open spec fn ends_run<F: Fn(&Moves) -> usize>(
    adj: CsrAdj,
    choose_move: F,
    start: Seq<u32>,
    end: Seq<u32>,
) -> bool {
    exists|run: Seq<Seq<u32>>| #[trigger]
        is_run(adj, choose_move, run) && run[0] == start && run.last() == end
}

// ---------------------------------------------------------------------------
// Communities
// ---------------------------------------------------------------------------

/// A community: its number and its nodes.
pub type Community = (u32, Vec<u64>);

/// The nodes ascend.
pub open spec fn ascends(list: Seq<u64>) -> bool {
    forall|i: int, j: int|
        #![trigger list[i], list[j]]
        0 <= i < j < list.len() ==> list[i] < list[j]
}

/// A list of communities holds a node under a number.
pub open spec fn holds_node(groups: Seq<Community>, c: u32, node: u64) -> bool {
    exists|i: int|
        0 <= i < groups.len() && (#[trigger] groups[i]).0 == c && groups[i].1@.contains(node)
}

/// The communities in the order of their numbers, each with its nodes in
/// ascending order.
pub open spec fn lists_communities(
    groups: Seq<Community>,
    community: Seq<u32>,
    nodes: Seq<u64>,
) -> bool {
    &&& forall|i: int, j: int|
        #![trigger groups[i], groups[j]]
        0 <= i < j < groups.len() ==> groups[i].0 < groups[j].0
    &&& forall|i: int|
        0 <= i < groups.len() ==> (#[trigger] groups[i]).1@.len() > 0 && ascends(groups[i].1@)
    &&& forall|u: int|
        0 <= u < nodes.len() ==> holds_node(groups, community[u], #[trigger] nodes[u])
    &&& forall|i: int, k: int|
        0 <= i < groups.len() && 0 <= k < groups[i].1@.len() ==> is_in(
            community,
            nodes,
            groups[i].0,
            #[trigger] groups[i].1@[k],
        )
}

/// A node is in a community.
pub open spec fn is_in(community: Seq<u32>, nodes: Seq<u64>, c: u32, node: u64) -> bool {
    exists|u: int| 0 <= u < nodes.len() && #[trigger] nodes[u] == node && community[u] == c
}

/// A node under the number of its community.
struct GroupKey {
    community: u32,
    node: u64,
}

impl order::Ranked for GroupKey {
    closed spec fn less(self, other: Self) -> bool {
        self.community < other.community || self.community == other.community && self.node
            < other.node
    }

    proof fn less_is_weak_order() {
    }

    fn is_less(&self, other: &Self) -> (r: bool) {
        self.community < other.community || (self.community == other.community && self.node
            < other.node)
    }
}

/// Lists the communities of nodes.
pub fn group_communities(community: &Vec<u32>, originals: &Vec<u64>) -> (r: Vec<Community>)
    requires
        community@.len() == originals@.len(),
        originals@.no_duplicates(),
    ensures
        lists_communities(r@, community@, originals@),
{
    let n: usize = community.len();
    let mut keys: Vec<GroupKey> = Vec::new();
    let mut i: usize = 0;
    while i < n
        invariant
            n == community@.len(),
            n == originals@.len(),
            i <= n,
            keys.len() == i,
            forall|k: int|
                0 <= k < i ==> #[trigger] keys@[k] == (GroupKey {
                    community: community@[k],
                    node: originals@[k],
                }),
        decreases n - i,
    {
        keys.push(GroupKey { community: community[i], node: originals[i] });
        i = i + 1;
    }
    let sorted: Vec<usize> = order::sorted_order(&keys);
    let ghost all = sorted@;
    proof {
        lemma_keys_ascend(keys@, all, originals@);
    }
    let mut groups: Vec<Community> = Vec::new();
    let mut p: usize = 0;
    while p < sorted.len()
        invariant
            n == community@.len(),
            n == originals@.len(),
            all == sorted@,
            keys@.len() == n,
            order::lists_range(all, 0, n as int),
            keys_ascend(keys@, all),
            forall|k: int|
                0 <= k < n ==> #[trigger] keys@[k] == (GroupKey {
                    community: community@[k],
                    node: originals@[k],
                }),
            p <= all.len(),
            p > 0 <==> groups@.len() > 0,
            groups_upto(groups@, keys@, all, p as int),
        decreases sorted.len() - p,
    {
        let u: usize = sorted[p];
        assert(all[p as int] < n);
        let c: u32 = community[u];
        let node: u64 = originals[u];
        let ghost before = groups@;
        let last: usize = groups.len();
        if last > 0 && groups[last - 1].0 == c {
            match groups.pop() {
                Some(g) => {
                    let (number, nodes) = g;
                    let ghost old_nodes = nodes@;
                    let mut nodes = nodes;
                    nodes.push(node);
                    groups.push((number, nodes));
                    proof {
                        assert(groups@ =~= before.update(last - 1, groups@[last - 1]));
                        lemma_group_grows(before, groups@, keys@, all, p as int);
                    }
                },
                None => {},
            }
        } else {
            let mut nodes: Vec<u64> = Vec::new();
            nodes.push(node);
            groups.push((c, nodes));
            proof {
                assert(groups@.drop_last() =~= before);
                lemma_group_starts(before, groups@, keys@, all, p as int);
            }
        }
        p = p + 1;
    }
    proof {
        lemma_groups_done(groups@, keys@, all, community@, originals@);
    }
    groups
}

/// The keys come in strictly ascending order.
spec fn keys_ascend(keys: Seq<GroupKey>, all: Seq<usize>) -> bool {
    forall|p: int, q: int|
        #![trigger all[p], all[q]]
        0 <= p < q < all.len() ==> {
            let a = keys[all[p] as int];
            let b = keys[all[q] as int];
            a.community < b.community || a.community == b.community && a.node < b.node
        }
}

/// The communities of the first nodes in order.
spec fn groups_upto(
    groups: Seq<Community>,
    keys: Seq<GroupKey>,
    all: Seq<usize>,
    p: int,
) -> bool {
    &&& forall|i: int, j: int|
        #![trigger groups[i], groups[j]]
        0 <= i < j < groups.len() ==> groups[i].0 < groups[j].0
    &&& forall|i: int|
        0 <= i < groups.len() ==> (#[trigger] groups[i]).1@.len() > 0 && ascends(groups[i].1@)
    &&& forall|q: int|
        0 <= q < p ==> holds_node(
            groups,
            keys[#[trigger] all[q] as int].community,
            keys[all[q] as int].node,
        )
    &&& forall|i: int, k: int|
        0 <= i < groups.len() && 0 <= k < groups[i].1@.len() ==> is_key(
            keys,
            all,
            p,
            groups[i].0,
            #[trigger] groups[i].1@[k],
        )
    &&& p > 0 ==> groups.len() > 0 && groups.last().0 == keys[all[p - 1] as int].community
}

/// One of the first keys.
spec fn is_key(keys: Seq<GroupKey>, all: Seq<usize>, p: int, c: u32, node: u64) -> bool {
    exists|q: int|
        0 <= q < p && keys[#[trigger] all[q] as int].community == c && keys[all[q] as int].node
            == node
}

proof fn lemma_keys_ascend(keys: Seq<GroupKey>, all: Seq<usize>, nodes: Seq<u64>)
    requires
        order::is_sorted_order(keys, all),
        keys.len() == nodes.len(),
        nodes.no_duplicates(),
        forall|k: int| 0 <= k < keys.len() ==> (#[trigger] keys[k]).node == nodes[k],
    ensures
        keys_ascend(keys, all),
{
    assert forall|p: int, q: int|
        #![trigger all[p], all[q]]
        0 <= p < q < all.len() implies {
        let a = keys[all[p] as int];
        let b = keys[all[q] as int];
        a.community < b.community || a.community == b.community && a.node < b.node
    } by {
        let x = all[p] as int;
        let y = all[q] as int;
        assert(order::comes_before(keys, x, y));
        assert(keys[x].node == nodes[x]);
        assert(keys[y].node == nodes[y]);
        if !order::Ranked::less(keys[x], keys[y]) {
            assert(x < y);
            assert(nodes[x] != nodes[y]);
        }
    }
}

proof fn lemma_held_stays(
    before: Seq<Community>,
    after: Seq<Community>,
    keys: Seq<GroupKey>,
    all: Seq<usize>,
    p: int,
)
    requires
        groups_upto(before, keys, all, p),
        after.len() >= before.len(),
        forall|i: int|
            0 <= i < before.len() ==> (#[trigger] after[i]).0 == before[i].0 && forall|x: u64|
                before[i].1@.contains(x) ==> #[trigger] after[i].1@.contains(x),
    ensures
        forall|q: int|
            0 <= q < p ==> holds_node(
                after,
                keys[#[trigger] all[q] as int].community,
                keys[all[q] as int].node,
            ),
{
    assert forall|q: int| 0 <= q < p implies holds_node(
        after,
        keys[#[trigger] all[q] as int].community,
        keys[all[q] as int].node,
    ) by {
        let c = keys[all[q] as int].community;
        let node = keys[all[q] as int].node;
        assert(holds_node(before, c, node));
        let i = choose|i: int|
            0 <= i < before.len() && (#[trigger] before[i]).0 == c && before[i].1@.contains(node);
        assert(after[i].0 == c && after[i].1@.contains(node));
    }
}

proof fn lemma_key_later(keys: Seq<GroupKey>, all: Seq<usize>, p: int, c: u32, node: u64)
    requires
        is_key(keys, all, p, c, node),
    ensures
        is_key(keys, all, p + 1, c, node),
{
    let q = choose|q: int|
        0 <= q < p && keys[#[trigger] all[q] as int].community == c && keys[all[q] as int].node
            == node;
    assert(0 <= q < p + 1 && keys[all[q] as int].community == c);
}

proof fn lemma_group_starts(
    before: Seq<Community>,
    after: Seq<Community>,
    keys: Seq<GroupKey>,
    all: Seq<usize>,
    p: int,
)
    requires
        groups_upto(before, keys, all, p),
        keys_ascend(keys, all),
        0 <= p < all.len(),
        p > 0 <==> before.len() > 0,
        after.len() == before.len() + 1,
        after.drop_last() == before,
        after.last().0 == keys[all[p] as int].community,
        after.last().1@ == seq![keys[all[p] as int].node],
        before.len() > 0 ==> before.last().0 != after.last().0,
    ensures
        groups_upto(after, keys, all, p + 1),
{
    let c = keys[all[p] as int].community;
    let node = keys[all[p] as int].node;
    let last = before.len() as int;
    assert forall|i: int| 0 <= i < before.len() implies #[trigger] after[i] == before[i] by {
        assert(after.drop_last()[i] == before[i]);
    }
    if p > 0 {
        assert(before.last() == before[last - 1]);
        assert(keys[all[p - 1] as int].community <= c);
    }
    assert(after[last] == after.last());
    assert(after[last].1@[0] == node);
    assert(holds_node(after, c, node));
    lemma_held_stays(before, after, keys, all, p);
    assert forall|i: int, k: int|
        0 <= i < after.len() && 0 <= k < after[i].1@.len() implies is_key(
        keys,
        all,
        p + 1,
        after[i].0,
        #[trigger] after[i].1@[k],
    ) by {
        if i < last {
            assert(after[i] == before[i]);
            assert(is_key(keys, all, p, before[i].0, before[i].1@[k]));
            lemma_key_later(keys, all, p, before[i].0, before[i].1@[k]);
        } else {
            assert(0 <= p < p + 1 && keys[all[p] as int].community == c);
        }
    }
    assert forall|i: int, j: int|
        #![trigger after[i], after[j]]
        0 <= i < j < after.len() implies after[i].0 < after[j].0 by {
        assert(after[i] == before[i]);
        if j < last {
            assert(after[j] == before[j]);
        } else if i < last - 1 {
            assert(before[i].0 < before[last - 1].0);
        }
    }
    assert forall|i: int| 0 <= i < after.len() implies (#[trigger] after[i]).1@.len() > 0
        && ascends(after[i].1@) by {
        if i < last {
            assert(after[i] == before[i]);
        }
    }
}

proof fn lemma_group_grows(
    before: Seq<Community>,
    after: Seq<Community>,
    keys: Seq<GroupKey>,
    all: Seq<usize>,
    p: int,
)
    requires
        groups_upto(before, keys, all, p),
        keys_ascend(keys, all),
        0 < p < all.len(),
        before.len() > 0,
        after.len() == before.len(),
        after == before.update(before.len() - 1, after.last()),
        before.last().0 == keys[all[p] as int].community,
        after.last().0 == before.last().0,
        after.last().1@ == before.last().1@.push(keys[all[p] as int].node),
    ensures
        groups_upto(after, keys, all, p + 1),
{
    let c = keys[all[p] as int].community;
    let node = keys[all[p] as int].node;
    let last = before.len() - 1;
    let grown = after[last].1@;
    assert(before.last() == before[last]);
    assert(after.last() == after[last]);
    assert forall|i: int|
        0 <= i < before.len() implies (#[trigger] after[i]).0 == before[i].0 && forall|x: u64|
        before[i].1@.contains(x) ==> #[trigger] after[i].1@.contains(x) by {
        assert forall|x: u64| before[i].1@.contains(x) implies #[trigger] after[i].1@.contains(x) by {
            let k = choose|k: int| 0 <= k < before[i].1@.len() && before[i].1@[k] == x;
            assert(after[i].1@[k] == x);
        }
    }
    lemma_held_stays(before, after, keys, all, p);
    assert(grown[grown.len() - 1] == node);
    assert(holds_node(after, c, node));
    assert forall|i: int, k: int|
        0 <= i < after.len() && 0 <= k < after[i].1@.len() implies is_key(
        keys,
        all,
        p + 1,
        after[i].0,
        #[trigger] after[i].1@[k],
    ) by {
        if i < last || k < before[last].1@.len() {
            assert(after[i].1@[k] == before[i].1@[k]);
            assert(is_key(keys, all, p, before[i].0, before[i].1@[k]));
            lemma_key_later(keys, all, p, before[i].0, before[i].1@[k]);
        } else {
            assert(0 <= p < p + 1 && keys[all[p] as int].community == c);
        }
    }
    assert forall|i: int| 0 <= i < after.len() implies (#[trigger] after[i]).1@.len() > 0
        && ascends(after[i].1@) by {
        assert(ascends(before[i].1@));
        if i == last {
            assert forall|a: int, b: int|
                #![trigger grown[a], grown[b]]
                0 <= a < b < grown.len() implies grown[a] < grown[b] by {
                let old_nodes = before[last].1@;
                assert(grown[a] == old_nodes[a]);
                if b < old_nodes.len() {
                    assert(grown[b] == old_nodes[b]);
                } else {
                    assert(is_key(keys, all, p, before[last].0, before[last].1@[a]));
                    let q = choose|q: int|
                        0 <= q < p && keys[#[trigger] all[q] as int].community == c
                            && keys[all[q] as int].node == old_nodes[a];
                    assert(keys[all[q] as int].node < keys[all[p] as int].node);
                }
            }
        }
    }
}

proof fn lemma_groups_done(
    groups: Seq<Community>,
    keys: Seq<GroupKey>,
    all: Seq<usize>,
    community: Seq<u32>,
    nodes: Seq<u64>,
)
    requires
        groups_upto(groups, keys, all, all.len() as int),
        keys.len() == nodes.len(),
        community.len() == nodes.len(),
        nodes.len() <= usize::MAX,
        order::lists_range(all, 0, nodes.len() as int),
        forall|k: int|
            0 <= k < keys.len() ==> #[trigger] keys[k] == (GroupKey {
                community: community[k],
                node: nodes[k],
            }),
    ensures
        lists_communities(groups, community, nodes),
{
    assert forall|u: int| 0 <= u < nodes.len() implies holds_node(
        groups,
        community[u],
        #[trigger] nodes[u],
    ) by {
        assert(all.contains(u as usize));
        let q = choose|q: int| 0 <= q < all.len() && all[q] == u as usize;
        assert(keys[all[q] as int] == (GroupKey { community: community[u], node: nodes[u] }));
    }
    assert forall|i: int, k: int|
        0 <= i < groups.len() && 0 <= k < groups[i].1@.len() implies is_in(
        community,
        nodes,
        groups[i].0,
        #[trigger] groups[i].1@[k],
    ) by {
        assert(is_key(keys, all, all.len() as int, groups[i].0, groups[i].1@[k]));
        let q = choose|q: int|
            0 <= q < all.len() && keys[#[trigger] all[q] as int].community == groups[i].0
                && keys[all[q] as int].node == groups[i].1@[k];
        let u = all[q] as int;
        assert(keys[u] == (GroupKey { community: community[u], node: nodes[u] }));
    }
}

/// Numbers are left for the communities of a graph: where it starts, and for
/// every node a new one where communities are refined.
pub open spec fn numbers_suffice(
    nodes: Seq<u64>,
    seed: Option<Map<u64, u32>>,
    refine: bool,
) -> bool {
    if refine {
        start_of(nodes, seed).1 + nodes.len() <= u32::MAX
    } else {
        start_of(nodes, seed).1 <= u32::MAX
    }
}

/// The communities at the end of moves and, where it is asked for, a refinement.
pub open spec fn ends_partition<F: Fn(&Moves) -> usize>(
    adj: CsrAdj,
    refine: bool,
    seed: Option<Map<u64, u32>>,
    choose_move: F,
    end: Seq<u32>,
) -> bool {
    let start = start_of(adj.originals@, seed);
    if refine {
        exists|rest: Seq<u32>, new: u32|
            #![trigger refinement::refines(adj, rest, end, start.1 as u32, new)]
            ends_run(adj, choose_move, start.0, rest) && refinement::refines(
                adj,
                rest,
                end,
                start.1 as u32,
                new,
            )
    } else {
        ends_run(adj, choose_move, start.0, end)
    }
}

proof fn lemma_start_below(nodes: Seq<u64>, seed: Option<Map<u64, u32>>)
    requires
        seed matches Some(m) ==> m.dom().finite(),
    ensures
        start_of(nodes, seed).0.len() == nodes.len(),
        start_of(nodes, seed).1 < u32::MAX ==> all_below(
            start_of(nodes, seed).0,
            start_of(nodes, seed).1 as int,
        ),
{
    match seed {
        Some(m) => {
            lemma_seeded_start(nodes, m, 0);
        },
        None => {},
    }
}

/// The communities of a graph; one without nodes has none.
pub open spec fn lists_partition<F: Fn(&Moves) -> usize>(
    groups: Seq<Community>,
    adj: CsrAdj,
    refine: bool,
    seed: Option<Map<u64, u32>>,
    choose_move: F,
) -> bool {
    if adj.nodes() == 0 {
        groups.len() == 0
    } else {
        exists|end: Seq<u32>| #[trigger]
            ends_partition(adj, refine, seed, choose_move, end) && lists_communities(
                groups,
                end,
                adj.originals@,
            )
    }
}

/// Splits the nodes of a graph into communities: from a start, nodes move as is
/// chosen until they rest, and where it is asked for, each community is split
/// into parts that hang together.
pub fn partition<F: Fn(&Moves) -> usize>(
    adj: &CsrAdj,
    refine: bool,
    seed: Option<&BTreeMap<u64, u32>>,
    choose_move: &F,
) -> (r: Vec<Community>)
    requires
        adj.wf(),
        numbers_suffice(adj.originals@, seed_view(seed), refine),
        forall|m: &Moves| #[trigger] call_requires(*choose_move, (m,)),
    ensures
        lists_partition(r@, *adj, refine, seed_view(seed), *choose_move),
{
    if adj.num_nodes() == 0 {
        return Vec::new();
    }
    let ghost seeds = seed_view(seed);
    let (start, next) = start_partition(&adj.originals, seed);
    let ghost begin = start@;
    let mut community: Vec<u32> = start;
    proof {
        lemma_start_below(adj.originals@, seeds);
    }
    if refine {
        move_until_rest(adj, &mut community, choose_move, Ghost(next as int));
        let ghost rest = community@;
        let mut next: u32 = next;
        let refined: Vec<u32> = refinement::refine_communities(adj, &community, &mut next);
        assert(ends_run(*adj, *choose_move, begin, rest));
        assert(refinement::refines(*adj, rest, refined@, start_of(adj.originals@, seeds).1 as u32, next));
        assert(ends_partition(*adj, refine, seeds, *choose_move, refined@));
        group_communities(&refined, &adj.originals)
    } else {
        move_until_rest(adj, &mut community, choose_move, Ghost(u32::MAX + 1));
        assert(ends_run(*adj, *choose_move, begin, community@));
        assert(ends_partition(*adj, refine, seeds, *choose_move, community@));
        group_communities(&community, &adj.originals)
    }
}

/// After a refinement every community hangs together: from its first node, edges
/// within it lead to each of its nodes.
pub proof fn law_refined_communities_hang_together<F: Fn(&Moves) -> usize>(
    adj: CsrAdj,
    seed: Option<Map<u64, u32>>,
    choose_move: F,
    end: Seq<u32>,
    u: int,
)
    requires
        ends_partition(adj, true, seed, choose_move, end),
        0 <= u < end.len(),
    ensures
        refinement::hangs_on(adj, end, u),
{
}

/// Nodes that nothing moves stay in the communities that they start from.
pub proof fn law_unmoved_nodes_keep_their_community<F: Fn(&Moves) -> usize>(
    adj: CsrAdj,
    choose_move: F,
    run: Seq<Seq<u32>>,
)
    requires
        is_run(adj, choose_move, run),
        rests_at(run, 0),
    ensures
        run.last() == run[0],
        ends_run(adj, choose_move, run[0], run[0]),
{
    assert(run.len() == 2) by {
        if run.len() > 2 {
            assert(!rests_at(run, 0));
        }
    }
    assert(run.last() == run[1]);
}

/// A node has a community from before.
pub open spec fn is_seeded(nodes: Seq<u64>, seed: Map<u64, u32>, c: u32, u: int) -> bool {
    0 <= u < nodes.len() && seed.dom().contains(nodes[u]) && seed[nodes[u]] == c
}

/// A community from before that nothing changes keeps its number: where its nodes do
/// not move and no other node joins them, and a refinement does not split it, it has
/// its number in the end, and no other node has that.
pub proof fn law_unchanged_communities_keep_their_number(
    adj: CsrAdj,
    seed: Map<u64, u32>,
    rest: Seq<u32>,
    end: Seq<u32>,
    new: u32,
    c: u32,
    u: int,
)
    requires
        seed.dom().finite(),
        exists|k: u64| #[trigger] seed.dom().contains(k) && seed[k] == c,
        numbers_suffice(adj.originals@, Some(seed), true),
        rest.len() == adj.originals@.len(),
        end == rest || refinement::refines(
            adj,
            rest,
            end,
            start_of(adj.originals@, Some(seed)).1 as u32,
            new,
        ),
        forall|v: int|
            0 <= v < rest.len() ==> (#[trigger] rest[v] == c <==> is_seeded(
                adj.originals@,
                seed,
                c,
                v,
            )),
        forall|v: int, w: int|
            #![trigger end[v], end[w]]
            0 <= v < rest.len() && 0 <= w < rest.len() && rest[v] == c && rest[w] == c ==> end[v]
                == end[w],
        0 <= u < rest.len(),
    ensures
        end[u] == c <==> is_seeded(adj.originals@, seed, c, u),
{
    let nodes = adj.originals@;
    lemma_first_free(seed);
    lemma_seeded_start(nodes, seed, 0);
    if end != rest {
        if rest[u] == c {
            let first = lemma_first_member(rest, u);
            assert(end[first] == c);
            assert(end[u] == end[first]);
        } else if end[u] == c && end[u] != rest[u] {
            // A new number, which lies behind those from before.
            assert(start_of(nodes, Some(seed)).1 <= c);
            let k = choose|k: u64| #[trigger] seed.dom().contains(k) && seed[k] == c;
            assert(number_behind(seed[k]) <= first_free(seed));
        }
    }
}

/// The first node of the community of a node.
proof fn lemma_first_member(community: Seq<u32>, u: int) -> (first: int)
    requires
        0 <= u < community.len(),
    ensures
        0 <= first <= u,
        community[first] == community[u],
        refinement::is_first(community, first),
    decreases u,
{
    if refinement::is_first(community, u) {
        u
    } else {
        let v = choose|v: int| 0 <= v < u && community[v] == community[u];
        lemma_first_member(community, v)
    }
}

/// What the graphs of a partition have to be like.
pub open spec fn can_partition(
    forward: MultiSegmentCsrGraph,
    reverse: Option<&MultiSegmentCsrGraph>,
    seed: Option<Map<u64, u32>>,
    refine: bool,
) -> bool {
    &&& adjacency::names_nodes(forward)
    &&& match reverse {
        Some(g) => g.wf(),
        None => true,
    }
    &&& 2 * adjacency::listed_edges(forward.segments@).len() <= u64::MAX
    &&& numbers_suffice(adjacency::distinct(adjacency::listed_nodes(forward.segments@)), seed, refine)
}

/// The nodes and edges of a graph, by what it was built from.
pub open spec fn is_built(
    adj: CsrAdj,
    forward: MultiSegmentCsrGraph,
    reverse: Option<&MultiSegmentCsrGraph>,
) -> bool {
    &&& adj.wf()
    &&& *adj.forward == forward
    &&& adj.reverse == reverse
    &&& adj.originals@ == adjacency::distinct(adjacency::listed_nodes(forward.segments@))
    &&& forall|u: int|
        0 <= u < adj.nodes() ==> #[trigger] adj.degree@[u] == adjacency::degree_of(
            adjacency::listed_edges(forward.segments@),
            adj.originals@,
            reverse is Some,
            adj.originals@[u],
        )
    &&& adj.total_weight
        == adjacency::count_known(adjacency::listed_edges(forward.segments@), adj.originals@)
}

/// The communities of a graph.
pub open spec fn are_communities<F: Fn(&Moves) -> usize>(
    groups: Seq<Community>,
    forward: MultiSegmentCsrGraph,
    reverse: Option<&MultiSegmentCsrGraph>,
    seed: Option<Map<u64, u32>>,
    refine: bool,
    choose_move: F,
) -> bool {
    exists|adj: CsrAdj| #[trigger]
        is_built(adj, forward, reverse) && lists_partition(groups, adj, refine, seed, choose_move)
}

fn communities<F: Fn(&Moves) -> usize>(
    forward: &MultiSegmentCsrGraph,
    reverse: Option<&MultiSegmentCsrGraph>,
    seed: Option<&BTreeMap<u64, u32>>,
    refine: bool,
    choose_move: &F,
) -> (r: Vec<Community>)
    requires
        can_partition(*forward, reverse, seed_view(seed), refine),
        forall|m: &Moves| #[trigger] call_requires(*choose_move, (m,)),
    ensures
        are_communities(r@, *forward, reverse, seed_view(seed), refine, *choose_move),
{
    let adj: CsrAdj = CsrAdj::build(forward, reverse);
    let groups: Vec<Community> = partition(&adj, refine, seed, choose_move);
    assert(is_built(adj, *forward, reverse));
    groups
}

/// Louvain communities.
pub fn csr_louvain<F: Fn(&Moves) -> usize>(
    forward: &MultiSegmentCsrGraph,
    reverse: Option<&MultiSegmentCsrGraph>,
    choose_move: &F,
) -> (r: Vec<Community>)
    requires
        can_partition(*forward, reverse, None, false),
        forall|m: &Moves| #[trigger] call_requires(*choose_move, (m,)),
    ensures
        are_communities(r@, *forward, reverse, None, false, *choose_move),
{
    communities(forward, reverse, None, false, choose_move)
}

/// Leiden communities: every one hangs together.
pub fn csr_leiden<F: Fn(&Moves) -> usize>(
    forward: &MultiSegmentCsrGraph,
    reverse: Option<&MultiSegmentCsrGraph>,
    choose_move: &F,
) -> (r: Vec<Community>)
    requires
        can_partition(*forward, reverse, None, true),
        forall|m: &Moves| #[trigger] call_requires(*choose_move, (m,)),
    ensures
        are_communities(r@, *forward, reverse, None, true, *choose_move),
{
    communities(forward, reverse, None, true, choose_move)
}

/// Louvain communities that start from communities from before.
pub fn csr_louvain_seeded<F: Fn(&Moves) -> usize>(
    forward: &MultiSegmentCsrGraph,
    reverse: Option<&MultiSegmentCsrGraph>,
    choose_move: &F,
    seed: &BTreeMap<u64, u32>,
) -> (r: Vec<Community>)
    requires
        can_partition(*forward, reverse, Some(seed@), false),
        forall|m: &Moves| #[trigger] call_requires(*choose_move, (m,)),
    ensures
        are_communities(r@, *forward, reverse, Some(seed@), false, *choose_move),
{
    communities(forward, reverse, Some(seed), false, choose_move)
}

/// Leiden communities that start from communities from before.
pub fn csr_leiden_seeded<F: Fn(&Moves) -> usize>(
    forward: &MultiSegmentCsrGraph,
    reverse: Option<&MultiSegmentCsrGraph>,
    choose_move: &F,
    seed: &BTreeMap<u64, u32>,
) -> (r: Vec<Community>)
    requires
        can_partition(*forward, reverse, Some(seed@), true),
        forall|m: &Moves| #[trigger] call_requires(*choose_move, (m,)),
    ensures
        are_communities(r@, *forward, reverse, Some(seed@), true, *choose_move),
{
    communities(forward, reverse, Some(seed), true, choose_move)
}

/// The weight of a community is that of its members: a node that joins it adds its degree,
/// one that leaves it takes it away, and other communities stay as they were.
pub proof fn law_weights_follow_their_nodes(
    community: Seq<u32>,
    degree: Seq<u64>,
    u: int,
    to: u32,
    c: u32,
)
    requires
        0 <= u < community.len() <= degree.len(),
    ensures
        total_of(community.update(u, to), degree, c) == total_of(community, degree, c) + (if to
            == c {
            degree[u] as int
        } else {
            0
        }) - (if community[u] == c {
            degree[u] as int
        } else {
            0
        }),
        total_of(Seq::empty(), degree, c) == 0,
        community[u] == c ==> total_of(community, degree, c) >= degree[u],
    decreases community.len(),
{
    let moved = community.update(u, to);
    let front = community.drop_last();
    if u < front.len() {
        law_weights_follow_their_nodes(front, degree, u, to, c);
        assert(moved.drop_last() =~= front.update(u, to));
        assert(front[u] == community[u]);
    } else {
        assert(moved.drop_last() =~= front);
    }
}

/// The edges to a community are those that lead to its members; an edge of a node to itself
/// leads to none.
pub proof fn law_edges_lead_to_communities(
    adjacent: Seq<usize>,
    community: Seq<u32>,
    u: int,
    v: usize,
    c: u32,
)
    ensures
        occurrences(labels_around(adjacent.push(v), community, u), c) == occurrences(
            labels_around(adjacent, community, u),
            c,
        ) + if v != u && community[v as int] == c {
            1nat
        } else {
            0
        },
        occurrences(labels_around(Seq::empty(), community, u), c) == 0,
{
    assert(adjacent.push(v).drop_last() =~= adjacent);
    let before = labels_around(adjacent, community, u);
    assert(before.push(community[v as int]).drop_last() =~= before);
}

/// A node chooses between its own community and those around it, each by the number of edges
/// that lead there and by the weight that is there without the node.
pub proof fn law_nodes_choose_among_their_neighbours(
    adj: CsrAdj,
    community: Seq<u32>,
    u: int,
    c: u32,
)
    requires
        0 <= u < community.len() <= adj.degree@.len(),
    ensures
        ({
            let m = moves_at(adj, community, u);
            let around = labels_around(adj.adjacent(u), community, u);
            &&& m.own.community == community[u]
            &&& m.degree == adj.degree@[u]
            &&& m.weight == adj.total_weight
            &&& around.contains(c) <==> exists|k: int|
                0 <= k < m.others.len() && (#[trigger] m.others[k]).community == c
            &&& total_of(community, adj.degree@, community[u]) <= u128::MAX ==> m.own.total
                == total_of(community, adj.degree@, community[u]) - adj.degree@[u]
            &&& forall|k: int|
                0 <= k < m.others.len() && (#[trigger] m.others[k]).community != community[u]
                    && total_of(community, adj.degree@, m.others[k].community) <= u128::MAX
                    ==> m.others[k].total == total_of(
                    community,
                    adj.degree@,
                    m.others[k].community,
                )
            &&& forall|k: int|
                0 <= k < m.others.len() && occurrences(
                    around,
                    (#[trigger] m.others[k]).community,
                ) <= u64::MAX ==> m.others[k].edges == occurrences(around, m.others[k].community)
        }),
{
    let m = moves_at(adj, community, u);
    let around = labels_around(adj.adjacent(u), community, u);
    let d = adjacency::distinct(around);
    adjacency::law_nodes_are_numbered_once(around, c);
    law_weights_follow_their_nodes(community, adj.degree@, u, community[u], community[u]);
    assert(m.others.len() == d.len());
    assert forall|k: int| 0 <= k < d.len() implies #[trigger] m.others[k] == place_at(
        adj,
        community,
        u,
        d[k],
    ) by {}
    if d.contains(c) {
        let k = choose|k: int| 0 <= k < d.len() && d[k] == c;
        assert(m.others[k].community == c);
    }
    if exists|k: int| 0 <= k < m.others.len() && (#[trigger] m.others[k]).community == c {
        let k = choose|k: int| 0 <= k < m.others.len() && (#[trigger] m.others[k]).community == c;
        assert(d[k] == c);
    }
}

/// Without a seed every node starts in a community of its own.
pub proof fn law_unseeded_nodes_start_apart(nodes: Seq<u64>, u: int, v: int)
    requires
        nodes.len() <= u32::MAX,
        0 <= u < v < nodes.len(),
    ensures
        start_of(nodes, None).0.len() == nodes.len(),
        start_of(nodes, None).0[u] != start_of(nodes, None).0[v],
        start_of(nodes, None).0[v] < start_of(nodes, None).1,
{
}

} // verus!
