//! A refinement of communities: each is split into parts that hang together.

use vstd::prelude::*;

use crate::algorithms::adjacency::CsrAdj;
use crate::order;

verus! {

/// An edge leads from one node to another.
pub open spec fn linked(adj: CsrAdj, x: int, y: int) -> bool {
    adj.adjacent(x).contains(y as usize)
}

/// A step of a path follows an edge.
pub open spec fn is_step(adj: CsrAdj, path: Seq<int>, i: int) -> bool {
    linked(adj, path[i], path[i + 1])
}

/// A path along edges that stays among the nodes with one label.
pub open spec fn is_path<L>(adj: CsrAdj, labels: Seq<L>, path: Seq<int>) -> bool {
    &&& path.len() > 0
    &&& forall|i: int|
        0 <= i < path.len() ==> 0 <= #[trigger] path[i] < labels.len() && labels[path[i]]
            == labels[path[0]]
    &&& forall|i: int| 0 <= i < path.len() - 1 ==> #[trigger] is_step(adj, path, i)
}

/// A path among the nodes with one label leads from one node to another.
pub open spec fn leads<L>(adj: CsrAdj, labels: Seq<L>, from: int, to: int) -> bool {
    exists|path: Seq<int>| #[trigger]
        is_path(adj, labels, path) && path[0] == from && path.last() == to
}

/// The first node with its label.
pub open spec fn is_first(labels: Seq<u32>, r: int) -> bool {
    forall|j: int| 0 <= j < r ==> #[trigger] labels[j] != labels[r]
}

/// From the first node with its label, a path among the nodes with that label
/// leads to a node.
pub open spec fn hangs_on(adj: CsrAdj, labels: Seq<u32>, u: int) -> bool {
    exists|r: int|
        0 <= r < labels.len() && is_first(labels, r) && #[trigger] leads(adj, labels, r, u)
}

/// The nodes with the label of `v` start before those with the label of `x`.
pub open spec fn starts_before(labels: Seq<u32>, v: int, x: int) -> bool {
    exists|r: int|
        {
            &&& 0 <= r < labels.len()
            &&& #[trigger] is_first(labels, r)
            &&& labels[r] == labels[v]
            &&& forall|k: int| 0 <= k < labels.len() && #[trigger] labels[k] == labels[x] ==> r < k
        }
}

/// The refinement of a partition. A community is split, never joined; its first
/// part keeps its number and the others get new ones. From the first node of a
/// part, edges within it lead to all of it, and an edge that leaves it for the
/// same community leads to a part that starts earlier.
pub open spec fn refines(
    adj: CsrAdj,
    community: Seq<u32>,
    refined: Seq<u32>,
    first_new: u32,
    end_new: u32,
) -> bool {
    &&& refined.len() == community.len()
    &&& forall|u: int, v: int|
        #![trigger refined[u], refined[v]]
        0 <= u < refined.len() && 0 <= v < refined.len() && refined[u] == refined[v]
            ==> community[u] == community[v]
    &&& forall|u: int|
        0 <= u < community.len() && #[trigger] is_first(community, u) ==> refined[u]
            == community[u]
    &&& forall|u: int|
        0 <= u < refined.len() ==> #[trigger] refined[u] == community[u] || first_new
            <= refined[u] < end_new
    &&& forall|u: int| 0 <= u < refined.len() ==> #[trigger] hangs_on(adj, refined, u)
    &&& forall|x: int, v: int|
        0 <= x < refined.len() && 0 <= v < refined.len() && community[x] == community[v]
            && #[trigger] linked(adj, x, v) ==> refined[v] == refined[x] || starts_before(
            refined,
            v,
            x,
        )
}

/// How many nodes have no root yet.
spec fn open_nodes(root: Seq<int>) -> nat
    decreases root.len(),
{
    if root.len() == 0 {
        0
    } else {
        open_nodes(root.drop_last()) + if root.last() < 0 {
            1nat
        } else {
            0
        }
    }
}

proof fn lemma_open_nodes(root: Seq<int>, v: int, r: int)
    requires
        0 <= v < root.len(),
        root[v] < 0,
        r >= 0,
    ensures
        open_nodes(root.update(v, r)) == open_nodes(root) - 1,
    decreases root.len(),
{
    if v == root.len() - 1 {
        assert(root.update(v, r).drop_last() =~= root.drop_last());
    } else {
        assert(root.update(v, r).drop_last() =~= root.drop_last().update(v, r));
        lemma_open_nodes(root.drop_last(), v, r);
    }
}

/// What holds of a node that has a root: the first node of its part.
spec fn is_placed(
    adj: CsrAdj,
    community: Seq<u32>,
    refined: Seq<u32>,
    root: Seq<int>,
    first_new: u32,
    end_new: u32,
    v: int,
) -> bool {
    let r = root[v];
    &&& r <= v
    &&& root[r] == r
    &&& community[r] == community[v]
    &&& refined[v] == refined[r]
    &&& leads(adj, root, r, v)
    &&& if is_first(community, r) {
        refined[v] == community[v]
    } else {
        first_new <= refined[v] < end_new
    }
}

/// What holds while parts are made, given the roots so far.
spec fn is_sound(
    adj: CsrAdj,
    community: Seq<u32>,
    refined: Seq<u32>,
    root: Seq<int>,
    first_new: u32,
    end_new: u32,
) -> bool {
    &&& refined.len() == community.len()
    &&& root.len() == community.len()
    &&& first_new <= end_new
    &&& forall|v: int| 0 <= v < community.len() ==> #[trigger] community[v] < first_new
    &&& forall|v: int|
        0 <= v < root.len() && #[trigger] root[v] >= 0 ==> is_placed(
            adj,
            community,
            refined,
            root,
            first_new,
            end_new,
            v,
        )
    &&& forall|v: int, w: int|
        #![trigger root[v], root[w]]
        0 <= v < root.len() && 0 <= w < root.len() && root[v] >= 0 && root[w] >= 0 && refined[v]
            == refined[w] ==> root[v] == root[w]
    &&& forall|v: int, w: int|
        #![trigger root[v], root[w]]
        0 <= v < root.len() && 0 <= w < root.len() && root[v] >= 0 && root[w] < 0 && community[v]
            == community[w] ==> root[v] < w
}

/// The edges of a node within its community lead to its part or to an earlier
/// one.
spec fn is_closed(adj: CsrAdj, community: Seq<u32>, root: Seq<int>, x: int) -> bool {
    forall|v: int|
        0 <= v < root.len() && community[v] == community[x] && #[trigger] linked(adj, x, v)
            ==> 0 <= root[v] <= root[x]
}

proof fn lemma_paths_stay(adj: CsrAdj, root: Seq<int>, v: int, r: int, from: int, to: int)
    requires
        0 <= v < root.len(),
        root[v] < 0,
        0 <= to < root.len(),
        root[to] >= 0,
        leads(adj, root, from, to),
    ensures
        leads(adj, root.update(v, r), from, to),
{
    let path = choose|path: Seq<int>| #[trigger]
        is_path(adj, root, path) && path[0] == from && path.last() == to;
    let after = root.update(v, r);
    assert(path[path.len() - 1] == to);
    assert forall|i: int| 0 <= i < path.len() implies 0 <= #[trigger] path[i] < after.len()
        && after[path[i]] == after[path[0]] by {
        assert(root[path[i]] == root[path[0]]);
        assert(root[path[path.len() - 1]] == root[path[0]]);
    }
    assert(is_path(adj, after, path));
}

proof fn lemma_path_grows(adj: CsrAdj, root: Seq<int>, from: int, x: int, v: int)
    requires
        leads(adj, root, from, x),
        0 <= x < root.len(),
        0 <= v < root.len(),
        root[v] == root[x],
        linked(adj, x, v),
    ensures
        leads(adj, root, from, v),
{
    let path = choose|path: Seq<int>| #[trigger]
        is_path(adj, root, path) && path[0] == from && path.last() == x;
    let longer = path.push(v);
    assert forall|i: int| 0 <= i < longer.len() implies 0 <= #[trigger] longer[i] < root.len()
        && root[longer[i]] == root[longer[0]] by {
        assert(root[path[path.len() - 1]] == root[path[0]]);
        if i < path.len() {
            assert(longer[i] == path[i]);
        }
    }
    assert forall|i: int| 0 <= i < longer.len() - 1 implies #[trigger] is_step(adj, longer, i) by {
        if i < path.len() - 1 {
            assert(is_step(adj, path, i));
        }
    }
    assert(is_path(adj, root, longer));
    assert(longer.last() == v);
}

/// A node that an edge leads to joins the part.
proof fn lemma_join(
    adj: CsrAdj,
    community: Seq<u32>,
    refined: Seq<u32>,
    root: Seq<int>,
    first_new: u32,
    end_new: u32,
    x: int,
    v: int,
)
    requires
        is_sound(adj, community, refined, root, first_new, end_new),
        0 <= x < root.len(),
        0 <= v < root.len(),
        root[x] >= 0,
        root[v] < 0,
        community[x] == community[v],
        linked(adj, x, v),
    ensures
        is_sound(
            adj,
            community,
            refined.update(v, refined[x]),
            root.update(v, root[x]),
            first_new,
            end_new,
        ),
{
    let start = root[x];
    let root2 = root.update(v, start);
    let refined2 = refined.update(v, refined[x]);
    assert(is_placed(adj, community, refined, root, first_new, end_new, x));
    assert(start < v);
    assert forall|w: int| 0 <= w < root2.len() && #[trigger] root2[w] >= 0 implies is_placed(
        adj,
        community,
        refined2,
        root2,
        first_new,
        end_new,
        w,
    ) by {
        lemma_paths_stay(adj, root, v, start, start, x);
        if w == v {
            lemma_path_grows(adj, root2, start, x, v);
        } else {
            assert(root[w] >= 0);
            assert(is_placed(adj, community, refined, root, first_new, end_new, w));
            lemma_paths_stay(adj, root, v, start, root[w], w);
        }
    }
    assert forall|a: int, b: int|
        #![trigger root2[a], root2[b]]
        0 <= a < root2.len() && 0 <= b < root2.len() && root2[a] >= 0 && root2[b] >= 0
            && refined2[a] == refined2[b] implies root2[a] == root2[b] by {
        let a2 = if a == v {
            x
        } else {
            a
        };
        let b2 = if b == v {
            x
        } else {
            b
        };
        assert(refined[a2] == refined[b2]);
        assert(root[a2] == root[b2]);
    }
    assert forall|a: int, b: int|
        #![trigger root2[a], root2[b]]
        0 <= a < root2.len() && 0 <= b < root2.len() && root2[a] >= 0 && root2[b] < 0
            && community[a] == community[b] implies root2[a] < b by {
        if a == v {
            assert(root[x] < b);
        } else {
            assert(root[a] < b);
        }
    }
}

/// A node starts a part of its own.
proof fn lemma_start(
    adj: CsrAdj,
    community: Seq<u32>,
    refined: Seq<u32>,
    root: Seq<int>,
    first_new: u32,
    end_new: u32,
    start: int,
    id: u32,
    after_new: u32,
)
    requires
        is_sound(adj, community, refined, root, first_new, end_new),
        0 <= start < root.len(),
        root[start] < 0,
        forall|w: int|
            0 <= w < root.len() && #[trigger] root[w] < 0 && community[w] == community[start]
                ==> start <= w,
        if is_first(community, start) {
            id == community[start] && after_new == end_new
        } else {
            id == end_new && after_new == end_new + 1
        },
    ensures
        is_sound(
            adj,
            community,
            refined.update(start, id),
            root.update(start, start),
            first_new,
            after_new,
        ),
{
    let root2 = root.update(start, start);
    let refined2 = refined.update(start, id);
    assert(community[start] < first_new);
    assert forall|w: int| 0 <= w < root2.len() && #[trigger] root2[w] >= 0 implies is_placed(
        adj,
        community,
        refined2,
        root2,
        first_new,
        after_new,
        w,
    ) by {
        if w == start {
            assert(is_path(adj, root2, seq![start]));
            assert(seq![start].last() == start);
        } else {
            assert(root[w] >= 0);
            assert(is_placed(adj, community, refined, root, first_new, end_new, w));
            lemma_paths_stay(adj, root, start, start, root[w], w);
        }
    }
    assert forall|w: int| 0 <= w < root.len() && #[trigger] root[w] >= 0 implies refined[w]
        != id by {
        assert(is_placed(adj, community, refined, root, first_new, end_new, w));
        assert(community[w] < first_new);
        let r = root[w];
        if is_first(community, start) && is_first(community, r) && community[r]
            == community[start] {
            assert(r == start) by {
                if r < start {
                    assert(community[r] != community[start]);
                }
                if start < r {
                    assert(community[start] != community[r]);
                }
            }
            assert(root[start] == start);
        }
    }
    assert forall|a: int, b: int|
        #![trigger root2[a], root2[b]]
        0 <= a < root2.len() && 0 <= b < root2.len() && root2[a] >= 0 && root2[b] >= 0
            && refined2[a] == refined2[b] implies root2[a] == root2[b] by {
        if a != start && b != start {
            assert(root[a] == root[b]);
        } else if a != start {
            assert(root[a] >= 0);
        } else if b != start {
            assert(root[b] >= 0);
        }
    }
    assert forall|a: int, b: int|
        #![trigger root2[a], root2[b]]
        0 <= a < root2.len() && 0 <= b < root2.len() && root2[a] >= 0 && root2[b] < 0
            && community[a] == community[b] implies root2[a] < b by {
        if a == start {
            assert(root[b] < 0);
        } else {
            assert(root[a] < b);
        }
    }
}

proof fn lemma_closed_stays(
    adj: CsrAdj,
    community: Seq<u32>,
    root: Seq<int>,
    v: int,
    r: int,
    x: int,
)
    requires
        0 <= v < root.len(),
        0 <= x < root.len(),
        root[v] < 0,
        root[x] >= 0,
        is_closed(adj, community, root, x),
    ensures
        is_closed(adj, community, root.update(v, r), x),
{
}

/// The flags of nodes say which have a root.
spec fn flags(seen: Seq<bool>, root: Seq<int>) -> bool {
    &&& seen.len() == root.len()
    &&& forall|v: int| 0 <= v < root.len() ==> (#[trigger] seen[v] <==> root[v] >= 0)
}

/// Every node with another root is closed.
spec fn others_closed(adj: CsrAdj, community: Seq<u32>, root: Seq<int>, start: int) -> bool {
    forall|x: int|
        0 <= x < root.len() && #[trigger] root[x] >= 0 && root[x] != start ==> is_closed(
            adj,
            community,
            root,
            x,
        )
}

/// No root in the community of `start` comes behind it.
spec fn is_latest(community: Seq<u32>, root: Seq<int>, start: int) -> bool {
    forall|v: int|
        0 <= v < root.len() && #[trigger] root[v] >= 0 && community[v] == community[start]
            ==> root[v] <= start
}

/// Adds the neighbours of a node to its part, as far as they are in its community
/// and in no part yet.
fn take_neighbors(
    adj: &CsrAdj,
    community: &Vec<u32>,
    x: usize,
    seen: &mut Vec<bool>,
    refined: &mut Vec<u32>,
    stack: &mut Vec<usize>,
    Ghost(root): Ghost<Seq<int>>,
    Ghost(first_new): Ghost<u32>,
    Ghost(end_new): Ghost<u32>,
) -> (r: Ghost<Seq<int>>)
    requires
        adj.wf(),
        community@.len() == adj.nodes(),
        is_sound(*adj, community@, old(refined)@, root, first_new, end_new),
        flags(old(seen)@, root),
        x < community@.len(),
        root[x as int] >= 0,
        others_closed(*adj, community@, root, root[x as int]),
        is_latest(community@, root, root[x as int]),
        forall|i: int|
            0 <= i < old(stack)@.len() ==> (#[trigger] old(stack)@[i]) < community@.len()
                && root[old(stack)@[i] as int] == root[x as int],
        forall|y: int|
            0 <= y < root.len() && #[trigger] root[y] == root[x as int] && y != x
                && !old(stack)@.contains(y as usize) ==> is_closed(*adj, community@, root, y),
    ensures
        is_sound(*adj, community@, final(refined)@, r@, first_new, end_new),
        flags(final(seen)@, r@),
        forall|v: int| 0 <= v < root.len() && #[trigger] root[v] >= 0 ==> r@[v] == root[v],
        others_closed(*adj, community@, r@, root[x as int]),
        is_latest(community@, r@, root[x as int]),
        forall|i: int|
            0 <= i < final(stack)@.len() ==> (#[trigger] final(stack)@[i]) < community@.len()
                && r@[final(stack)@[i] as int] == root[x as int],
        forall|y: int|
            0 <= y < root.len() && #[trigger] r@[y] == root[x as int] && !final(stack)@.contains(
                y as usize,
            ) ==> is_closed(*adj, community@, r@, y),
        open_nodes(r@) < open_nodes(root) || r@ == root && final(stack)@ == old(stack)@,
{
    let nodes: usize = community.len();
    let ghost start = root[x as int];
    let ghost mut root2 = root;
    let found: Vec<usize> = adj.neighbors(x);
    assert(is_placed(*adj, community@, refined@, root, first_new, end_new, x as int));
    let mut j: usize = 0;
    while j < found.len()
        invariant
            adj.wf(),
            community@.len() == adj.nodes(),
            found@ == adj.adjacent(x as int),
            forall|i: int| 0 <= i < found.len() ==> (#[trigger] found@[i]) < adj.nodes(),
            j <= found.len(),
            x < community@.len(),
            root.len() == community@.len(),
            root2.len() == root.len(),
            start == root[x as int],
            start >= 0,
            is_sound(*adj, community@, refined@, root2, first_new, end_new),
            flags(seen@, root2),
            forall|v: int| 0 <= v < root.len() && #[trigger] root[v] >= 0 ==> root2[v] == root[v],
            others_closed(*adj, community@, root2, start),
            is_latest(community@, root2, start),
            community@[start] == community@[x as int],
            forall|i: int|
                0 <= i < stack@.len() ==> (#[trigger] stack@[i]) < community@.len()
                    && root2[stack@[i] as int] == start,
            forall|y: int|
                0 <= y < root2.len() && #[trigger] root2[y] == start && y != x
                    && !stack@.contains(y as usize) ==> is_closed(*adj, community@, root2, y),
            forall|i: int|
                0 <= i < j && community@[found@[i] as int] == community@[x as int]
                    ==> root2[#[trigger] found@[i] as int] >= 0,
            open_nodes(root2) < open_nodes(root) || root2 == root && stack@ == old(stack)@,
        decreases found.len() - j,
    {
        let v: usize = found[j];
        assert(v < community@.len());
        if community[v] == community[x] && !seen[v] {
            let ghost before = root2;
            let ghost was = stack@;
            proof {
                assert(found@[j as int] == v);
                assert(adj.adjacent(x as int).contains(v));
                assert(linked(*adj, x as int, v as int));
                assert(root2[v as int] < 0);
                lemma_join(
                    *adj,
                    community@,
                    refined@,
                    root2,
                    first_new,
                    end_new,
                    x as int,
                    v as int,
                );
                lemma_open_nodes(root2, v as int, start);
                root2 = root2.update(v as int, start);
            }
            let id: u32 = refined[x];
            seen.set(v, true);
            refined.set(v, id);
            stack.push(v);
            proof {
                assert(stack@[was.len() as int] == v);
                assert forall|i: int| 0 <= i < stack@.len() implies (#[trigger] stack@[i])
                    < community@.len() && root2[stack@[i] as int] == start by {
                    if i < was.len() {
                        assert(stack@[i] == was[i]);
                    }
                }
                assert forall|y: int|
                    0 <= y < root2.len() && #[trigger] root2[y] == start && y != x
                        && !stack@.contains(y as usize) implies is_closed(
                    *adj,
                    community@,
                    root2,
                    y,
                ) by {
                    if was.contains(y as usize) {
                        let k = choose|k: int| 0 <= k < was.len() && was[k] == y as usize;
                        assert(stack@[k] == y as usize);
                    }
                    assert(y != v);
                    assert(before[y] == start);
                    lemma_closed_stays(*adj, community@, before, v as int, start, y);
                }
                assert forall|y: int|
                    0 <= y < root2.len() && #[trigger] root2[y] >= 0 && root2[y]
                        != start implies is_closed(*adj, community@, root2, y) by {
                    assert(before[y] == root2[y]);
                    lemma_closed_stays(*adj, community@, before, v as int, start, y);
                }
            }
        }
        j = j + 1;
    }
    proof {
        assert forall|w: int|
            0 <= w < root2.len() && community@[w] == community@[x as int] && #[trigger] linked(
                *adj,
                x as int,
                w,
            ) implies 0 <= root2[w] <= start by {
            assert(w < nodes);
            assert(found@.contains(w as usize));
            let i = choose|i: int| 0 <= i < found@.len() && found@[i] == w as usize;
            assert(root2[found@[i] as int] >= 0);
            assert(root2[w] >= 0);
        }
        assert(is_closed(*adj, community@, root2, x as int));
    }
    Ghost(root2)
}

/// Makes the part of a node that starts one.
fn spread(
    adj: &CsrAdj,
    community: &Vec<u32>,
    start: usize,
    seen: &mut Vec<bool>,
    refined: &mut Vec<u32>,
    Ghost(root): Ghost<Seq<int>>,
    Ghost(first_new): Ghost<u32>,
    Ghost(end_new): Ghost<u32>,
) -> (r: Ghost<Seq<int>>)
    requires
        adj.wf(),
        community@.len() == adj.nodes(),
        is_sound(*adj, community@, old(refined)@, root, first_new, end_new),
        flags(old(seen)@, root),
        start < community@.len(),
        root[start as int] == start,
        forall|v: int| 0 <= v < root.len() && #[trigger] root[v] == start ==> v == start,
        others_closed(*adj, community@, root, start as int),
        is_latest(community@, root, start as int),
    ensures
        is_sound(*adj, community@, final(refined)@, r@, first_new, end_new),
        flags(final(seen)@, r@),
        forall|v: int| 0 <= v < root.len() && #[trigger] root[v] >= 0 ==> r@[v] == root[v],
        forall|x: int|
            0 <= x < r@.len() && #[trigger] r@[x] >= 0 ==> is_closed(*adj, community@, r@, x),
{
    let ghost mut root2 = root;
    let mut stack: Vec<usize> = Vec::new();
    stack.push(start);
    assert(stack@[0] == start);
    while stack.len() > 0
        invariant
            adj.wf(),
            community@.len() == adj.nodes(),
            start < community@.len(),
            root.len() == community@.len(),
            root2.len() == root.len(),
            is_sound(*adj, community@, refined@, root2, first_new, end_new),
            flags(seen@, root2),
            root2[start as int] == start,
            forall|v: int| 0 <= v < root.len() && #[trigger] root[v] >= 0 ==> root2[v] == root[v],
            others_closed(*adj, community@, root2, start as int),
            is_latest(community@, root2, start as int),
            forall|i: int|
                0 <= i < stack@.len() ==> (#[trigger] stack@[i]) < community@.len()
                    && root2[stack@[i] as int] == start,
            forall|y: int|
                0 <= y < root2.len() && #[trigger] root2[y] == start && !stack@.contains(
                    y as usize,
                ) ==> is_closed(*adj, community@, root2, y),
        decreases open_nodes(root2), stack.len(),
    {
        let ghost was = stack@;
        match stack.pop() {
            Some(x) => {
                proof {
                    assert(was[was.len() - 1] == x);
                    assert forall|y: int|
                        0 <= y < root2.len() && #[trigger] root2[y] == start && y != x
                            && !stack@.contains(y as usize) implies is_closed(
                        *adj,
                        community@,
                        root2,
                        y,
                    ) by {
                        if was.contains(y as usize) {
                            let k = choose|k: int| 0 <= k < was.len() && was[k] == y as usize;
                            if k < was.len() - 1 {
                                assert(stack@[k] == y as usize);
                            }
                        }
                    }
                    assert forall|i: int| 0 <= i < stack@.len() implies (#[trigger] stack@[i])
                        < community@.len() && root2[stack@[i] as int] == start by {
                        assert(stack@[i] == was[i]);
                    }
                }
                let after: Ghost<Seq<int>> = take_neighbors(
                    adj,
                    community,
                    x,
                    seen,
                    refined,
                    &mut stack,
                    Ghost(root2),
                    Ghost(first_new),
                    Ghost(end_new),
                );
                proof {
                    root2 = after@;
                }
            },
            None => {},
        }
    }
    proof {
        assert forall|x: int| 0 <= x < root2.len() && #[trigger] root2[x] >= 0 implies is_closed(
            *adj,
            community@,
            root2,
            x,
        ) by {
            if root2[x] == start {
                assert(!stack@.contains(x as usize));
            }
        }
    }
    Ghost(root2)
}

/// What the parts come to when every node has a root.
proof fn lemma_refined(
    adj: CsrAdj,
    community: Seq<u32>,
    refined: Seq<u32>,
    root: Seq<int>,
    first_new: u32,
    end_new: u32,
)
    requires
        is_sound(adj, community, refined, root, first_new, end_new),
        forall|x: int| 0 <= x < root.len() ==> #[trigger] root[x] >= 0,
        forall|x: int|
            0 <= x < root.len() && #[trigger] root[x] >= 0 ==> is_closed(adj, community, root, x),
    ensures
        refines(adj, community, refined, first_new, end_new),
{
    assert forall|u: int| 0 <= u < root.len() implies #[trigger] is_placed(
        adj,
        community,
        refined,
        root,
        first_new,
        end_new,
        u,
    ) by {
        assert(root[u] >= 0);
    }
    assert forall|u: int, v: int|
        #![trigger refined[u], refined[v]]
        0 <= u < refined.len() && 0 <= v < refined.len() && refined[u]
            == refined[v] implies community[u] == community[v] && root[u] == root[v] by {
        assert(root[u] >= 0 && root[v] >= 0);
        assert(is_placed(adj, community, refined, root, first_new, end_new, u));
        assert(is_placed(adj, community, refined, root, first_new, end_new, v));
    }
    assert forall|u: int| 0 <= u < community.len() && #[trigger] is_first(community, u) implies refined[u]
        == community[u] by {
        assert(is_placed(adj, community, refined, root, first_new, end_new, u));
        let r = root[u];
        assert(root[u] >= 0);
        if r < u {
            assert(community[r] != community[u]);
        }
    }
    assert forall|r: int| 0 <= r < refined.len() && root[r] == r implies #[trigger] is_first(
        refined,
        r,
    ) by {
        assert forall|j: int| 0 <= j < r implies #[trigger] refined[j] != refined[r] by {
            if refined[j] == refined[r] {
                assert(is_placed(adj, community, refined, root, first_new, end_new, j));
            }
        }
    }
    assert forall|u: int| 0 <= u < refined.len() implies #[trigger] refined[u] == community[u]
        || first_new <= refined[u] < end_new by {
        assert(is_placed(adj, community, refined, root, first_new, end_new, u));
    }
    assert forall|u: int| 0 <= u < refined.len() implies #[trigger] hangs_on(adj, refined, u) by {
        assert(is_placed(adj, community, refined, root, first_new, end_new, u));
        let r = root[u];
        assert(root[u] >= 0);
        let path = choose|path: Seq<int>| #[trigger]
            is_path(adj, root, path) && path[0] == r && path.last() == u;
        assert(path[path.len() - 1] == u);
        assert forall|i: int| 0 <= i < path.len() implies 0 <= #[trigger] path[i] < refined.len()
            && refined[path[i]] == refined[path[0]] by {
            assert(root[path[i]] == root[path[0]]);
            assert(root[path[path.len() - 1]] == root[path[0]]);
            assert(is_placed(adj, community, refined, root, first_new, end_new, path[i]));
            assert(is_placed(adj, community, refined, root, first_new, end_new, path[0]));
        }
        assert(is_path(adj, refined, path));
        assert(leads(adj, refined, r, u));
        assert(is_first(refined, r));
    }
    assert forall|x: int, v: int|
        0 <= x < refined.len() && 0 <= v < refined.len() && community[x] == community[v]
            && #[trigger] linked(adj, x, v) implies refined[v] == refined[x] || starts_before(
        refined,
        v,
        x,
    ) by {
        assert(root[x] >= 0 && root[v] >= 0);
        assert(is_closed(adj, community, root, x));
        assert(is_placed(adj, community, refined, root, first_new, end_new, x));
        assert(is_placed(adj, community, refined, root, first_new, end_new, v));
        let r = root[v];
        if r == root[x] {
            assert(refined[v] == refined[x]);
        } else {
            assert(is_first(refined, r));
            assert forall|k: int|
                0 <= k < refined.len() && #[trigger] refined[k] == refined[x] implies r < k by {
                assert(root[k] == root[x]);
                assert(is_placed(adj, community, refined, root, first_new, end_new, k));
            }
        }
    }
}

/// Splits each community into parts that hang together. The first part of a
/// community keeps its number, and the others get new ones.
pub fn refine_communities(adj: &CsrAdj, community: &Vec<u32>, next_id: &mut u32) -> (r: Vec<u32>)
    requires
        adj.wf(),
        community@.len() == adj.nodes(),
        forall|u: int| 0 <= u < community@.len() ==> #[trigger] community@[u] < *old(next_id),
        *old(next_id) + community@.len() <= u32::MAX,
    ensures
        refines(*adj, community@, r@, *old(next_id), *final(next_id)),
        *old(next_id) <= *final(next_id) <= *old(next_id) + community@.len(),
{
    let ghost first_new = *next_id;
    let n: usize = community.len();
    let mut refined: Vec<u32> = Vec::new();
    let mut seen: Vec<bool> = Vec::new();
    let mut i: usize = 0;
    while i < n
        invariant
            n == community.len(),
            i <= n,
            refined.len() == i,
            seen.len() == i,
            forall|v: int| 0 <= v < i ==> !(#[trigger] seen@[v]),
        decreases n - i,
    {
        refined.push(community[i]);
        seen.push(false);
        i = i + 1;
    }
    let ghost mut root = Seq::new(n as nat, |v: int| -1int);
    let order: Vec<usize> = order::sorted_order(community);
    let mut p: usize = 0;
    while p < order.len()
        invariant
            adj.wf(),
            n == community@.len(),
            community@.len() == adj.nodes(),
            order::is_sorted_order(community@, order@),
            p <= order.len(),
            root.len() == n,
            first_new <= *next_id <= first_new + p,
            first_new + n <= u32::MAX,
            is_sound(*adj, community@, refined@, root, first_new, *next_id),
            flags(seen@, root),
            forall|x: int|
                0 <= x < root.len() && #[trigger] root[x] >= 0 ==> is_closed(
                    *adj,
                    community@,
                    root,
                    x,
                ),
            forall|q: int| 0 <= q < p ==> root[#[trigger] order@[q] as int] >= 0,
        decreases order.len() - p,
    {
        let start: usize = order[p];
        assert(order@[p as int] < n);
        if !seen[start] {
            let ghost before = root;
            let first: bool = p == 0 || community[order[p - 1]] != community[start];
            proof {
                lemma_order_groups(community@, order@, p as int, first);
                assert forall|w: int|
                    0 <= w < root.len() && #[trigger] root[w] < 0 && community@[w]
                        == community@[start as int] implies start <= w by {
                    assert(order@.contains(w as usize));
                    let q = choose|q: int| 0 <= q < order@.len() && order@[q] == w as usize;
                    if q < p {
                        assert(root[order@[q] as int] >= 0);
                    } else if q > p {
                        assert(order::comes_before(community@, order@[p as int] as int, w));
                    }
                }
            }
            let id: u32 = if first {
                community[start]
            } else {
                *next_id
            };
            let ghost end_new = *next_id;
            if !first {
                *next_id = *next_id + 1;
            }
            proof {
                assert forall|v: int|
                    0 <= v < root.len() && #[trigger] root[v] >= 0 && community@[v]
                        == community@[start as int] implies root[v] < start by {
                    assert(root[start as int] < 0);
                }
                lemma_start(
                    *adj,
                    community@,
                    refined@,
                    root,
                    first_new,
                    end_new,
                    start as int,
                    id,
                    *next_id,
                );
                root = root.update(start as int, start as int);
                assert forall|v: int| 0 <= v < root.len() && #[trigger] root[v] == start implies v
                    == start by {
                    if v != start {
                        assert(before[v] == start);
                        assert(is_placed(
                            *adj,
                            community@,
                            refined@,
                            before,
                            first_new,
                            end_new,
                            v,
                        ));
                        assert(before[start as int] == start);
                    }
                }
                assert forall|x: int|
                    0 <= x < root.len() && #[trigger] root[x] >= 0 && root[x]
                        != start implies is_closed(*adj, community@, root, x) by {
                    assert(before[x] == root[x]);
                    lemma_closed_stays(
                        *adj,
                        community@,
                        before,
                        start as int,
                        start as int,
                        x,
                    );
                }
                assert(is_latest(community@, root, start as int)) by {
                    assert forall|v: int|
                        0 <= v < root.len() && #[trigger] root[v] >= 0 && community@[v]
                            == community@[start as int] implies root[v] <= start by {
                        if v != start {
                            assert(before[v] == root[v]);
                        }
                    }
                }
            }
            seen.set(start, true);
            refined.set(start, id);
            let after: Ghost<Seq<int>> = spread(
                adj,
                community,
                start,
                &mut seen,
                &mut refined,
                Ghost(root),
                Ghost(first_new),
                Ghost(*next_id),
            );
            proof {
                let marked = root;
                root = after@;
                assert forall|q: int| 0 <= q < p + 1 implies root[#[trigger] order@[q] as int]
                    >= 0 by {
                    if q < p {
                        assert(before[order@[q] as int] >= 0);
                        assert(marked[order@[q] as int] >= 0);
                    } else {
                        assert(marked[start as int] >= 0);
                    }
                }
            }
        }
        p = p + 1;
    }
    proof {
        assert forall|x: int| 0 <= x < root.len() implies #[trigger] root[x] >= 0 by {
            assert(order@.contains(x as usize));
            let q = choose|q: int| 0 <= q < order@.len() && order@[q] == x as usize;
            assert(root[order@[q] as int] >= 0);
        }
        lemma_refined(*adj, community@, refined@, root, first_new, *next_id);
    }
    refined
}

/// Where a group of equal keys starts in sorted order, its first position is the
/// first of that key.
proof fn lemma_order_groups(community: Seq<u32>, order: Seq<usize>, p: int, first: bool)
    requires
        order::is_sorted_order(community, order),
        community.len() <= usize::MAX,
        0 <= p < order.len(),
        first <==> p == 0 || community[order[p - 1] as int] != community[order[p] as int],
    ensures
        first <==> is_first(community, order[p] as int),
{
    let start = order[p] as int;
    if first {
        assert forall|j: int| 0 <= j < start implies #[trigger] community[j]
            != community[start] by {
            if community[j] == community[start] {
                assert(order.contains(j as usize));
                let q = choose|q: int| 0 <= q < order.len() && order[q] == j as usize;
                if q > p {
                    assert(order::comes_before(community, order[p] as int, order[q] as int));
                } else {
                    assert(q < p);
                    assert(order::comes_before(community, order[q] as int, order[p - 1] as int)
                        || q == p - 1);
                    assert(order::comes_before(community, order[p - 1] as int, order[p] as int));
                }
            }
        }
    } else {
        assert(order::comes_before(community, order[p - 1] as int, order[p] as int));
        assert(community[order[p - 1] as int] == community[start]);
    }
}

/// Where every edge can be followed both ways, the refinement leaves no edge
/// between two parts of one community.
pub proof fn law_parts_are_components(
    adj: CsrAdj,
    community: Seq<u32>,
    refined: Seq<u32>,
    first_new: u32,
    end_new: u32,
    x: int,
    v: int,
)
    requires
        refines(adj, community, refined, first_new, end_new),
        0 <= x < refined.len(),
        0 <= v < refined.len(),
        community[x] == community[v],
        linked(adj, x, v),
        linked(adj, v, x),
    ensures
        refined[x] == refined[v],
{
    if refined[x] != refined[v] {
        let a = choose|r: int|
            {
                &&& 0 <= r < refined.len()
                &&& #[trigger] is_first(refined, r)
                &&& refined[r] == refined[v]
                &&& forall|k: int|
                    0 <= k < refined.len() && #[trigger] refined[k] == refined[x] ==> r < k
            };
        let b = choose|r: int|
            {
                &&& 0 <= r < refined.len()
                &&& #[trigger] is_first(refined, r)
                &&& refined[r] == refined[x]
                &&& forall|k: int|
                    0 <= k < refined.len() && #[trigger] refined[k] == refined[v] ==> r < k
            };
        assert(starts_before(refined, v, x));
        assert(starts_before(refined, x, v));
        assert(refined[a] == refined[v] && refined[b] == refined[x]);
        assert(b < a);
        assert(a < b);
    }
}

} // verus!
