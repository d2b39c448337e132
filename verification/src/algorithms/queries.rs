//! Graph algorithms over an edge table: the queries of each step, and when the
//! steps end.
//!
//! Every intermediate result is stored as a table of its own, and later queries
//! read it under its name.

use vstd::prelude::*;
use vstd::string::*;

use crate::order;
use crate::text;

verus! {

/// A result that is stored: the name of its table, and the query it comes from.
#[derive(Debug)]
pub struct Step {
    pub name: String,
    pub sql: String,
}

/// A name with a number behind it.
pub open spec fn numbered(prefix: Seq<char>, n: int) -> Seq<char> {
    prefix + text::decimal(n as nat)
}

/// A name with a number behind it.
fn with_number(prefix: &str, n: usize) -> (r: String)
    ensures
        r@ == numbered(prefix@, n as int),
{
    let mut out: String = prefix.to_owned();
    let number: String = text::u64_text(n as u64);
    out.append(number.as_str());
    out
}

// ---------------------------------------------------------------------------
// Connected components
// ---------------------------------------------------------------------------

/// Every end of an edge is its own component.
pub fn component_start(edges: &str, src: &str, dst: &str) -> (r: Step)
    ensures
        r.name@ == "state_0"@,
        r.sql@ == "SELECT id, id AS component_id FROM (SELECT "@ + src@ + " AS id FROM "@ + edges@
            + " UNION SELECT "@ + dst@ + " AS id FROM "@ + edges@ + ")"@,
{
    let mut sql: String = "SELECT id, id AS component_id FROM (SELECT ".to_owned();
    sql.append(src);
    sql.append(" AS id FROM ");
    sql.append(edges);
    sql.append(" UNION SELECT ");
    sql.append(dst);
    sql.append(" AS id FROM ");
    sql.append(edges);
    sql.append(")");
    Step { name: "state_0".to_owned(), sql }
}

/// The query of the edges in both directions, without those of a node to itself.
pub open spec fn both_ways_sql(edges: Seq<char>, src: Seq<char>, dst: Seq<char>) -> Seq<char> {
    "SELECT DISTINCT a AS src, b AS dst FROM (SELECT "@ + src + " AS a, "@ + dst
        + " AS b FROM "@ + edges + " UNION ALL SELECT "@ + dst + " AS a, "@ + src
        + " AS b FROM "@ + edges + ") WHERE a <> b"@
}

/// The edges both ways, each once, without those from a node to itself.
pub fn component_edges(edges: &str, src: &str, dst: &str) -> (r: Step)
    ensures
        r.name@ == "edges_0"@,
        r.sql@ == both_ways_sql(edges@, src@, dst@),
{
    let mut sql: String = "SELECT DISTINCT a AS src, b AS dst FROM (SELECT ".to_owned();
    sql.append(src);
    sql.append(" AS a, ");
    sql.append(dst);
    sql.append(" AS b FROM ");
    sql.append(edges);
    sql.append(" UNION ALL SELECT ");
    sql.append(dst);
    sql.append(" AS a, ");
    sql.append(src);
    sql.append(" AS b FROM ");
    sql.append(edges);
    sql.append(") WHERE a <> b");
    Step { name: "edges_0".to_owned(), sql }
}

/// The query of the sum and the number of the labels.
pub open spec fn sum_sql(state: Seq<char>) -> Seq<char> {
    "SELECT SUM(CAST(component_id AS DOUBLE)) AS s, COUNT(*) AS c FROM "@ + state
}

/// The sum of the components and the number of nodes, by which a change is seen.
pub fn checksum_sql(state: &str) -> (r: String)
    ensures
        r@ == sum_sql(state@),
{
    let mut sql: String =
        "SELECT SUM(CAST(component_id AS DOUBLE)) AS s, COUNT(*) AS c FROM ".to_owned();
    sql.append(state);
    sql
}

/// The query in which each node takes the smallest component around it.
pub open spec fn spread_sql(state: Seq<char>, edges: Seq<char>) -> Seq<char> {
    "SELECT id, MIN(lab) AS component_id FROM (SELECT id, component_id AS lab FROM "@ + state
        + " UNION ALL SELECT e.dst AS id, s.component_id AS lab FROM "@ + edges + " e JOIN "@
        + state + " s ON e.src = s.id) GROUP BY id"@
}

/// The query in which each node takes the component of its component.
pub open spec fn jump_sql(state: Seq<char>) -> Seq<char> {
    "SELECT s.id AS id, COALESCE(j.component_id, s.component_id) AS component_id FROM "@ + state
        + " s LEFT JOIN "@ + state + " j ON s.component_id = j.id"@
}

/// The query of the edges that still lead from one component to another.
pub open spec fn contract_sql(edges: Seq<char>, state: Seq<char>) -> Seq<char> {
    "SELECT DISTINCT sl.component_id AS src, dl.component_id AS dst FROM "@ + edges + " e JOIN "@
        + state + " sl ON e.src = sl.id JOIN "@ + state
        + " dl ON e.dst = dl.id WHERE sl.component_id <> dl.component_id"@
}

fn jump(name: String, state: &str) -> (r: Step)
    ensures
        r.name == name,
        r.sql@ == jump_sql(state@),
{
    let mut sql: String =
        "SELECT s.id AS id, COALESCE(j.component_id, s.component_id) AS component_id FROM ".to_owned();
    sql.append(state);
    sql.append(" s LEFT JOIN ");
    sql.append(state);
    sql.append(" j ON s.component_id = j.id");
    Step { name, sql }
}

/// The rounds by which components are found: the tables of the components and of
/// the edges between them.
#[derive(Debug)]
pub struct ComponentRounds {
    pub state: String,
    pub edges: String,
    pub round: usize,
    pub settled: bool,
}

impl ComponentRounds {
    /// Before the first round.
    pub fn new(state: String, edges: String) -> (r: Self)
        ensures
            r == (ComponentRounds { state, edges, round: 0, settled: false }),
    {
        ComponentRounds { state, edges, round: 0, settled: false }
    }

    /// Whether another round is due.
    pub fn goes_on(&self, max_rounds: usize) -> (r: bool)
        ensures
            r == (!self.settled && self.round < max_rounds),
    {
        !self.settled && self.round < max_rounds
    }

    /// The queries of a round: the smallest components spread along edges, then
    /// twice from component to component. Each reads the table before it.
    pub fn steps(&self) -> (r: Vec<Step>)
        ensures
            r.len() == 3,
            r@[0].name@ == numbered("state_p"@, self.round as int),
            r@[0].sql@ == spread_sql(self.state@, self.edges@),
            r@[1].name@ == numbered("state_j1_"@, self.round as int),
            r@[1].sql@ == jump_sql(r@[0].name@),
            r@[2].name@ == numbered("state_j2_"@, self.round as int),
            r@[2].sql@ == jump_sql(r@[1].name@),
    {
        let mut sql: String =
            "SELECT id, MIN(lab) AS component_id FROM (SELECT id, component_id AS lab FROM ".to_owned();
        sql.append(self.state.as_str());
        sql.append(" UNION ALL SELECT e.dst AS id, s.component_id AS lab FROM ");
        sql.append(self.edges.as_str());
        sql.append(" e JOIN ");
        sql.append(self.state.as_str());
        sql.append(" s ON e.src = s.id) GROUP BY id");
        let spread = Step { name: with_number("state_p", self.round), sql };
        let first: Step = jump(with_number("state_j1_", self.round), spread.name.as_str());
        let second: Step = jump(with_number("state_j2_", self.round), first.name.as_str());
        let mut steps: Vec<Step> = Vec::new();
        steps.push(spread);
        steps.push(first);
        steps.push(second);
        steps
    }

    /// Ends a round, given the table of its last step and whether anything
    /// changed: where something did, the edges within components are dropped and
    /// the next round follows.
    pub fn finish_round(&mut self, state: String, changed: bool) -> (r: Option<Step>)
        requires
            old(self).round < usize::MAX,
        ensures
            final(self).state == state,
            match r {
                Some(step) => {
                    &&& changed
                    &&& step.name@ == numbered("edges_"@, old(self).round + 1)
                    &&& step.sql@ == contract_sql(old(self).edges@, state@)
                    &&& final(self).edges@ == step.name@
                    &&& final(self).round == old(self).round + 1
                    &&& final(self).settled == old(self).settled
                },
                None => {
                    &&& !changed
                    &&& final(self).edges@ == old(self).edges@
                    &&& final(self).round == old(self).round
                    &&& final(self).settled
                },
            },
    {
        if !changed {
            self.state = state;
            self.settled = true;
            return None;
        }
        let mut sql: String =
            "SELECT DISTINCT sl.component_id AS src, dl.component_id AS dst FROM ".to_owned();
        sql.append(self.edges.as_str());
        sql.append(" e JOIN ");
        sql.append(state.as_str());
        sql.append(" sl ON e.src = sl.id JOIN ");
        sql.append(state.as_str());
        sql.append(" dl ON e.dst = dl.id WHERE sl.component_id <> dl.component_id");
        let name: String = with_number("edges_", self.round + 1);
        self.edges = name.clone();
        self.state = state;
        self.round = self.round + 1;
        Some(Step { name, sql })
    }
}

/// The sum of numbers.
pub open spec fn sum_of(list: Seq<nat>) -> nat
    decreases list.len(),
{
    if list.len() == 0 {
        0
    } else {
        sum_of(list.drop_last()) + list.last()
    }
}

proof fn lemma_sums(before: Seq<nat>, after: Seq<nat>)
    requires
        before.len() == after.len(),
        forall|i: int| 0 <= i < after.len() ==> #[trigger] after[i] <= before[i],
    ensures
        sum_of(after) <= sum_of(before),
    decreases after.len(),
{
    if after.len() > 0 {
        assert forall|i: int| 0 <= i < after.drop_last().len() implies #[trigger] after.drop_last()[i]
            <= before.drop_last()[i] by {
            assert(after[i] <= before[i]);
        }
        lemma_sums(before.drop_last(), after.drop_last());
        assert(after[after.len() - 1] <= before[after.len() - 1]);
    }
}

/// The components of nodes never grow from round to round, so where their sum is
/// as before, every node has the component that it had.
pub proof fn law_same_sum_means_no_change(before: Seq<nat>, after: Seq<nat>)
    requires
        before.len() == after.len(),
        forall|i: int| 0 <= i < after.len() ==> #[trigger] after[i] <= before[i],
        sum_of(after) == sum_of(before),
    ensures
        after == before,
    decreases after.len(),
{
    if after.len() > 0 {
        let a = after.drop_last();
        let b = before.drop_last();
        assert forall|i: int| 0 <= i < a.len() implies #[trigger] a[i] <= b[i] by {
            assert(after[i] <= before[i]);
        }
        lemma_sums(b, a);
        assert(after[after.len() - 1] <= before[after.len() - 1]);
        law_same_sum_means_no_change(b, a);
        assert(after =~= a.push(after.last()));
        assert(before =~= b.push(before.last()));
    } else {
        assert(after =~= before);
    }
}

// ---------------------------------------------------------------------------
// Breadth-first search
// ---------------------------------------------------------------------------

/// The texts of numbers in brackets.
pub open spec fn bracketed(ids: Seq<u64>) -> Seq<Seq<char>> {
    ids.map_values(|n: u64| "("@ + text::decimal(n as nat) + ")"@)
}

fn bracket_all(ids: &Vec<u64>) -> (r: Vec<String>)
    ensures
        text::texts(r@) == bracketed(ids@),
{
    let mut out: Vec<String> = Vec::new();
    let mut i: usize = 0;
    while i < ids.len()
        invariant
            i <= ids.len(),
            out.len() == i,
            forall|k: int|
                0 <= k < i ==> (#[trigger] out@[k])@ == "("@ + text::decimal(ids@[k] as nat) + ")"@,
        decreases ids.len() - i,
    {
        let mut one: String = "(".to_owned();
        let number: String = text::u64_text(ids[i]);
        one.append(number.as_str());
        one.append(")");
        out.push(one);
        i = i + 1;
    }
    assert(text::texts(out@) =~= bracketed(ids@));
    out
}

/// The nodes that a search starts from; none where there are no such nodes.
pub fn search_start(seeds: &Vec<u64>) -> (r: Option<Step>)
    ensures
        match r {
            Some(step) => {
                &&& seeds.len() > 0
                &&& step.name@ == "bfs_visited_0"@
                &&& step.sql@
                    == "SELECT DISTINCT arrow_cast(id, 'UInt64') AS id FROM (VALUES "@
                    + text::joined(bracketed(seeds@), ", "@) + ") AS s(id)"@
            },
            None => seeds.len() == 0,
        },
{
    if seeds.len() == 0 {
        return None;
    }
    let parts: Vec<String> = bracket_all(seeds);
    let list: String = text::join(&parts, ", ");
    let mut sql: String =
        "SELECT DISTINCT arrow_cast(id, 'UInt64') AS id FROM (VALUES ".to_owned();
    sql.append(list.as_str());
    sql.append(") AS s(id)");
    Some(Step { name: "bfs_visited_0".to_owned(), sql })
}

/// The edges one way.
pub open spec fn directed_sql(edges: Seq<char>, src: Seq<char>, dst: Seq<char>) -> Seq<char> {
    "SELECT DISTINCT arrow_cast("@ + src + ", 'UInt64') AS src, arrow_cast("@ + dst
        + ", 'UInt64') AS dst FROM "@ + edges
}

/// The edges both ways.
pub open spec fn undirected_sql(edges: Seq<char>, src: Seq<char>, dst: Seq<char>) -> Seq<char> {
    "SELECT DISTINCT a AS src, b AS dst FROM (SELECT arrow_cast("@ + src
        + ", 'UInt64') AS a, arrow_cast("@ + dst + ", 'UInt64') AS b FROM "@ + edges
        + " UNION ALL SELECT arrow_cast("@ + dst + ", 'UInt64') AS a, arrow_cast("@ + src
        + ", 'UInt64') AS b FROM "@ + edges + ")"@
}

/// The edges that a search follows, each once.
pub fn search_edges(edges: &str, src: &str, dst: &str, directed: bool) -> (r: Step)
    ensures
        r.name@ == "bfs_adj"@,
        r.sql@ == if directed {
            directed_sql(edges@, src@, dst@)
        } else {
            undirected_sql(edges@, src@, dst@)
        },
{
    let mut sql: String = String::new();
    assert(sql@ =~= Seq::<char>::empty());
    if directed {
        sql.append("SELECT DISTINCT arrow_cast(");
        sql.append(src);
        sql.append(", 'UInt64') AS src, arrow_cast(");
        sql.append(dst);
        sql.append(", 'UInt64') AS dst FROM ");
        sql.append(edges);
        assert(sql@ =~= directed_sql(edges@, src@, dst@));
    } else {
        sql.append("SELECT DISTINCT a AS src, b AS dst FROM (SELECT arrow_cast(");
        sql.append(src);
        sql.append(", 'UInt64') AS a, arrow_cast(");
        sql.append(dst);
        sql.append(", 'UInt64') AS b FROM ");
        sql.append(edges);
        sql.append(" UNION ALL SELECT arrow_cast(");
        sql.append(dst);
        sql.append(", 'UInt64') AS a, arrow_cast(");
        sql.append(src);
        sql.append(", 'UInt64') AS b FROM ");
        sql.append(edges);
        sql.append(")");
        assert(sql@ =~= undirected_sql(edges@, src@, dst@));
    }
    Step { name: "bfs_adj".to_owned(), sql }
}

/// The query of the nodes that are one edge away and not visited yet.
pub open spec fn unvisited_sql(
    edges: Seq<char>,
    frontier: Seq<char>,
    visited: Seq<char>,
) -> Seq<char> {
    "SELECT DISTINCT a.dst AS id FROM "@ + edges + " a JOIN "@ + frontier
        + " f ON a.src = f.id LEFT JOIN "@ + visited + " v ON a.dst = v.id WHERE v.id IS NULL"@
}

/// A search that goes on hop by hop: the tables of the edges, of the nodes that
/// were reached, and of those that the last hop reached.
#[derive(Debug)]
pub struct Search {
    pub edges: String,
    pub visited: String,
    pub frontier: String,
    pub hop: u32,
    pub exhausted: bool,
}

impl Search {
    /// Before the first hop.
    pub fn new(edges: String, visited: String) -> (r: Self)
        ensures
            r.edges == edges,
            r.visited == visited,
            r.frontier@ == visited@,
            r.hop == 0,
            !r.exhausted,
    {
        let frontier: String = visited.clone();
        Search { edges, visited, frontier, hop: 0, exhausted: false }
    }

    /// Whether another hop is due.
    pub fn goes_on(&self, hops: u32) -> (r: bool)
        ensures
            r == (!self.exhausted && self.hop < hops),
    {
        !self.exhausted && self.hop < hops
    }

    /// The nodes one hop further that were not reached before.
    pub fn step(&self) -> (r: Step)
        ensures
            r.name@ == numbered("bfs_new_"@, self.hop as int),
            r.sql@ == unvisited_sql(self.edges@, self.frontier@, self.visited@),
    {
        let mut sql: String = "SELECT DISTINCT a.dst AS id FROM ".to_owned();
        sql.append(self.edges.as_str());
        sql.append(" a JOIN ");
        sql.append(self.frontier.as_str());
        sql.append(" f ON a.src = f.id LEFT JOIN ");
        sql.append(self.visited.as_str());
        sql.append(" v ON a.dst = v.id WHERE v.id IS NULL");
        Step { name: with_number("bfs_new_", self.hop as usize), sql }
    }

    /// Ends a hop, given the table of the new nodes and their number: where there
    /// are some, they are added to those that were reached.
    pub fn finish_hop(&mut self, new: String, count: i64) -> (r: Option<Step>)
        requires
            old(self).hop < u32::MAX,
        ensures
            final(self).edges == old(self).edges,
            match r {
                Some(step) => {
                    &&& count != 0
                    &&& step.name@ == numbered("bfs_visited_"@, old(self).hop + 1)
                    &&& step.sql@ == "SELECT id FROM "@ + old(self).visited@
                        + " UNION SELECT id FROM "@ + new@
                    &&& final(self).visited@ == step.name@
                    &&& final(self).frontier == new
                    &&& final(self).hop == old(self).hop + 1
                    &&& final(self).exhausted == old(self).exhausted
                },
                None => {
                    &&& count == 0
                    &&& final(self).visited@ == old(self).visited@
                    &&& final(self).hop == old(self).hop
                    &&& final(self).exhausted
                },
            },
    {
        if count == 0 {
            self.exhausted = true;
            return None;
        }
        let mut sql: String = "SELECT id FROM ".to_owned();
        sql.append(self.visited.as_str());
        sql.append(" UNION SELECT id FROM ");
        sql.append(new.as_str());
        let hop: usize = self.hop as usize + 1;
        let name: String = with_number("bfs_visited_", hop);
        self.visited = name.clone();
        self.frontier = new;
        self.hop = self.hop + 1;
        Some(Step { name, sql })
    }

    /// Reads the nodes that were reached.
    pub fn result_sql(&self) -> (r: String)
        ensures
            r@ == "SELECT id FROM "@ + self.visited@ + " ORDER BY id"@,
    {
        let mut sql: String = "SELECT id FROM ".to_owned();
        sql.append(self.visited.as_str());
        sql.append(" ORDER BY id");
        sql
    }
}

/// How many rows a table has.
pub fn count_rows_sql(table: &str) -> (r: String)
    ensures
        r@ == "SELECT COUNT(*) AS c FROM "@ + table@,
{
    let mut sql: String = "SELECT COUNT(*) AS c FROM ".to_owned();
    sql.append(table);
    sql
}

/// The nodes that a search reached: each once, in ascending order, without those
/// that are null.
pub fn reached_nodes(ids: &Vec<Option<u64>>) -> (r: Vec<u64>)
    ensures
        forall|i: int, j: int|
            #![trigger r@[i], r@[j]]
            0 <= i < j < r@.len() ==> r@[i] < r@[j],
        forall|x: u64| #[trigger] r@.contains(x) <==> ids@.contains(Some(x)),
{
    let mut known: Vec<u64> = Vec::new();
    let mut i: usize = 0;
    while i < ids.len()
        invariant
            i <= ids.len(),
            forall|x: u64| #[trigger]
                known@.contains(x) <==> exists|k: int| 0 <= k < i && ids@[k] == Some(x),
        decreases ids.len() - i,
    {
        let ghost before = known@;
        match ids[i] {
            Some(x) => {
                known.push(x);
                proof {
                    assert forall|y: u64| #[trigger]
                        known@.contains(y) <==> exists|k: int| 0 <= k < i + 1 && ids@[k] == Some(
                            y,
                        ) by {
                        if before.contains(y) {
                            let k = choose|k: int| 0 <= k < before.len() && before[k] == y;
                            assert(known@[k] == y);
                        }
                        if y == x {
                            assert(known@[before.len() as int] == y);
                            assert(ids@[i as int] == Some(y));
                        }
                        if known@.contains(y) && y != x {
                            let k = choose|k: int| 0 <= k < known@.len() && known@[k] == y;
                            assert(before[k] == y);
                            assert(before.contains(y));
                        }
                        if exists|k: int| 0 <= k < i + 1 && ids@[k] == Some(y) {
                            let k = choose|k: int| 0 <= k < i + 1 && ids@[k] == Some(y);
                            if k < i {
                                assert(before.contains(y));
                            }
                        }
                    }
                }
            },
            None => {
                proof {
                    assert forall|y: u64| #[trigger]
                        known@.contains(y) <==> exists|k: int| 0 <= k < i + 1 && ids@[k] == Some(
                            y,
                        ) by {
                        if exists|k: int| 0 <= k < i + 1 && ids@[k] == Some(y) {
                            let k = choose|k: int| 0 <= k < i + 1 && ids@[k] == Some(y);
                            assert(k < i);
                        }
                    }
                }
            },
        }
        i = i + 1;
    }
    let sorted: Vec<usize> = order::sorted_order(&known);
    let ghost all = sorted@;
    let mut out: Vec<u64> = Vec::new();
    let mut p: usize = 0;
    while p < sorted.len()
        invariant
            all == sorted@,
            p <= all.len(),
            order::is_sorted_order(known@, all),
            forall|a: int, b: int|
                #![trigger out@[a], out@[b]]
                0 <= a < b < out@.len() ==> out@[a] < out@[b],
            p > 0 ==> out@.len() > 0 && out@.last() == known@[all[p - 1] as int],
            out@.len() > 0 ==> p > 0,
            forall|q: int| 0 <= q < p ==> out@.contains(known@[#[trigger] all[q] as int]),
            forall|a: int| 0 <= a < out@.len() ==> known@.contains(#[trigger] out@[a]),
        decreases sorted.len() - p,
    {
        assert(all[p as int] < known.len());
        let x: u64 = known[sorted[p]];
        let ghost before = out@;
        let last: usize = out.len();
        proof {
            if p > 0 {
                assert(order::comes_before(known@, all[p - 1] as int, all[p as int] as int));
            }
        }
        if last == 0 || out[last - 1] != x {
            out.push(x);
            proof {
                assert(out@[before.len() as int] == x);
                assert forall|q: int| 0 <= q < p + 1 implies out@.contains(
                    known@[#[trigger] all[q] as int],
                ) by {
                    if q < p {
                        let y = known@[all[q] as int];
                        assert(before.contains(y));
                        let k = choose|k: int| 0 <= k < before.len() && before[k] == y;
                        assert(out@[k] == y);
                    }
                }
            }
        } else {
            assert(out@[last - 1] == x);
        }
        p = p + 1;
    }
    proof {
        assert forall|x: u64| #[trigger] out@.contains(x) <==> ids@.contains(Some(x)) by {
            if out@.contains(x) {
                let a = choose|a: int| 0 <= a < out@.len() && out@[a] == x;
                assert(known@.contains(out@[a]));
            }
            if ids@.contains(Some(x)) {
                let k = choose|k: int| 0 <= k < ids@.len() && ids@[k] == Some(x);
                assert(known@.contains(x));
                let m = choose|m: int| 0 <= m < known@.len() && known@[m] == x;
                assert(all.contains(m as usize));
                let q = choose|q: int| 0 <= q < all.len() && all[q] == m as usize;
                assert(out@.contains(known@[all[q] as int]));
            }
        }
    }
    out
}

// ---------------------------------------------------------------------------
// Rounds until nothing changes
// ---------------------------------------------------------------------------

/// Rounds of which each makes a table from the one before, until two tables are
/// the same.
#[derive(Debug)]
pub struct Rounds {
    pub current: String,
    pub round: usize,
    pub settled: bool,
}

impl Rounds {
    /// Before the first round.
    pub fn new(current: String) -> (r: Self)
        ensures
            r == (Rounds { current, round: 0, settled: false }),
    {
        Rounds { current, round: 0, settled: false }
    }

    /// Whether another round is due.
    pub fn goes_on(&self, max_rounds: usize) -> (r: bool)
        ensures
            r == (!self.settled && self.round < max_rounds),
    {
        !self.settled && self.round < max_rounds
    }

    /// Ends a round, given the table that it made and how many rows of it are not
    /// as before. The last table is the result.
    pub fn finish_round(&mut self, next: String, changes: i64)
        requires
            old(self).round < usize::MAX,
        ensures
            final(self).current == next,
            final(self).round == old(self).round + 1,
            final(self).settled == (changes == 0 || old(self).settled),
    {
        self.current = next;
        self.round = self.round + 1;
        if changes == 0 {
            self.settled = true;
        }
    }
}

/// Counts the rows of two tables that differ in a column.
pub fn changes_sql(next: &str, before: &str, column: &str) -> (r: String)
    ensures
        r@ == "SELECT COUNT(*) AS changes FROM "@ + next@ + " n JOIN "@ + before@
            + " p ON n.id = p.id WHERE n."@ + column@ + " != p."@ + column@,
{
    let mut sql: String = "SELECT COUNT(*) AS changes FROM ".to_owned();
    sql.append(next);
    sql.append(" n JOIN ");
    sql.append(before);
    sql.append(" p ON n.id = p.id WHERE n.");
    sql.append(column);
    sql.append(" != p.");
    sql.append(column);
    sql
}

// ---------------------------------------------------------------------------
// Label propagation
// ---------------------------------------------------------------------------

/// The query of the edges in both directions, without those of a node to itself.
pub open spec fn label_edges_sql(edges: Seq<char>) -> Seq<char> {
    "SELECT DISTINCT a AS source, b AS target FROM (SELECT source AS a, target AS b FROM "@ + edges
        + " UNION ALL SELECT target AS a, source AS b FROM "@ + edges + ") WHERE a <> b"@
}

/// The edges both ways, each once, without those from a node to itself.
pub fn label_edges(edges: &str) -> (r: Step)
    ensures
        r.name@ == "edges_sym"@,
        r.sql@ == label_edges_sql(edges@),
{
    let mut sql: String =
        "SELECT DISTINCT a AS source, b AS target FROM (SELECT source AS a, target AS b FROM ".to_owned();
    sql.append(edges);
    sql.append(" UNION ALL SELECT target AS a, source AS b FROM ");
    sql.append(edges);
    sql.append(") WHERE a <> b");
    Step { name: "edges_sym".to_owned(), sql }
}

/// The query of the first labels: each node has its own.
pub open spec fn label_start_sql(edges: Seq<char>) -> Seq<char> {
    "SELECT id, id AS label FROM (SELECT source AS id FROM "@ + edges
        + " UNION SELECT target AS id FROM "@ + edges + ")"@
}

/// Every node has its own label.
pub fn label_start(edges: &str) -> (r: Step)
    ensures
        r.name@ == "lp_0"@,
        r.sql@ == label_start_sql(edges@),
{
    let mut sql: String = "SELECT id, id AS label FROM (SELECT source AS id FROM ".to_owned();
    sql.append(edges);
    sql.append(" UNION SELECT target AS id FROM ");
    sql.append(edges);
    sql.append(")");
    Step { name: "lp_0".to_owned(), sql }
}

/// The query of the next labels: the one that is most frequent around a node.
pub open spec fn label_round_sql(labels: Seq<char>, edges: Seq<char>) -> Seq<char> {
    "SELECT id, label FROM (SELECT node_id AS id, label, ROW_NUMBER() OVER (PARTITION BY node_id ORDER BY cnt DESC, label ASC) as rn FROM (SELECT node_id, label, COUNT(*) as cnt FROM (SELECT id AS node_id, label FROM "@
        + labels + " UNION ALL SELECT e.target AS node_id, c.label FROM "@ + edges + " e JOIN "@
        + labels + " c ON e.source = c.id) GROUP BY node_id, label)) WHERE rn = 1"@
}

/// Every node takes the label that is most frequent among its neighbours and
/// itself, the smallest of several.
pub fn label_round(round: usize, labels: &str, edges: &str) -> (r: Step)
    requires
        round < usize::MAX,
    ensures
        r.name@ == numbered("lp_"@, round + 1),
        r.sql@ == label_round_sql(labels@, edges@),
{
    let mut sql: String =
        "SELECT id, label FROM (SELECT node_id AS id, label, ROW_NUMBER() OVER (PARTITION BY node_id ORDER BY cnt DESC, label ASC) as rn FROM (SELECT node_id, label, COUNT(*) as cnt FROM (SELECT id AS node_id, label FROM ".to_owned();
    sql.append(labels);
    sql.append(" UNION ALL SELECT e.target AS node_id, c.label FROM ");
    sql.append(edges);
    sql.append(" e JOIN ");
    sql.append(labels);
    sql.append(" c ON e.source = c.id) GROUP BY node_id, label)) WHERE rn = 1");
    Step { name: with_number("lp_", round + 1), sql }
}

// ---------------------------------------------------------------------------
// Topological order
// ---------------------------------------------------------------------------

/// The query of the first levels: all are zero.
pub open spec fn level_start_sql(edges: Seq<char>) -> Seq<char> {
    "SELECT id, 0 AS level FROM (SELECT source AS id FROM "@ + edges
        + " UNION SELECT target AS id FROM "@ + edges + ")"@
}

/// Every node is on level zero.
pub fn level_start(edges: &str) -> (r: Step)
    ensures
        r.name@ == "ts_0"@,
        r.sql@ == level_start_sql(edges@),
{
    let mut sql: String = "SELECT id, 0 AS level FROM (SELECT source AS id FROM ".to_owned();
    sql.append(edges);
    sql.append(" UNION SELECT target AS id FROM ");
    sql.append(edges);
    sql.append(")");
    Step { name: "ts_0".to_owned(), sql }
}

/// The query of the next levels: one above the highest parent.
pub open spec fn level_round_sql(levels: Seq<char>, edges: Seq<char>) -> Seq<char> {
    "SELECT c.id, COALESCE(MAX(parent.level) + 1, c.level) as level FROM "@ + levels
        + " c LEFT JOIN "@ + edges + " e ON c.id = e.target LEFT JOIN "@ + levels
        + " parent ON e.source = parent.id GROUP BY c.id, c.level"@
}

/// Every node is one level above the highest node that leads to it.
pub fn level_round(round: usize, levels: &str, edges: &str) -> (r: Step)
    requires
        round < usize::MAX,
    ensures
        r.name@ == numbered("ts_"@, round + 1),
        r.sql@ == level_round_sql(levels@, edges@),
{
    let mut sql: String =
        "SELECT c.id, COALESCE(MAX(parent.level) + 1, c.level) as level FROM ".to_owned();
    sql.append(levels);
    sql.append(" c LEFT JOIN ");
    sql.append(edges);
    sql.append(" e ON c.id = e.target LEFT JOIN ");
    sql.append(levels);
    sql.append(" parent ON e.source = parent.id GROUP BY c.id, c.level");
    Step { name: with_number("ts_", round + 1), sql }
}

/// No step overwrites the table of an earlier one: the names of different rounds
/// differ.
pub proof fn law_rounds_have_their_own_tables(prefix: Seq<char>, a: nat, b: nat)
    requires
        a != b,
    ensures
        numbered(prefix, a as int) != numbered(prefix, b as int),
{
    if numbered(prefix, a as int) == numbered(prefix, b as int) {
        assert(numbered(prefix, a as int).skip(prefix.len() as int) =~= text::decimal(a));
        assert(numbered(prefix, b as int).skip(prefix.len() as int) =~= text::decimal(b));
        let max = if a < b {
            b
        } else {
            a
        };
        text::law_decimal_reads_back(a, max);
        text::law_decimal_reads_back(b, max);
    }
}

/// The rows of a subquery, in parentheses.
pub open spec fn inner(query: Seq<char>) -> Seq<char> {
    "("@ + query + ")"@
}

/// All rows of two queries.
pub open spec fn rows_of_both(a: Seq<char>, b: Seq<char>) -> Seq<char> {
    a + " UNION ALL "@ + b
}

/// A component spreads along the edges: of its own label and those of the nodes with an edge to
/// it, a node takes the smallest.
pub proof fn law_the_smallest_label_spreads(state: Seq<char>, edges: Seq<char>)
    ensures
        spread_sql(state, edges) == "SELECT id, MIN(lab) AS component_id FROM "@
            + inner(rows_of_both("SELECT id, component_id AS lab FROM "@
            + state, "SELECT e.dst AS id, s.component_id AS lab FROM "@ + edges + " e JOIN "@
            + state + " s ON e.src = s.id"@)) + " GROUP BY id"@,
{
    reveal_strlit(" GROUP BY id");
    reveal_strlit(" UNION ALL ");
    reveal_strlit(" UNION ALL SELECT e.dst AS id, s.component_id AS lab FROM ");
    reveal_strlit(" s ON e.src = s.id");
    reveal_strlit(" s ON e.src = s.id) GROUP BY id");
    reveal_strlit("(");
    reveal_strlit(")");
    reveal_strlit("SELECT e.dst AS id, s.component_id AS lab FROM ");
    reveal_strlit("SELECT id, MIN(lab) AS component_id FROM ");
    reveal_strlit("SELECT id, MIN(lab) AS component_id FROM (SELECT id, component_id AS lab FROM ");
    reveal_strlit("SELECT id, component_id AS lab FROM ");
    assert("SELECT id, MIN(lab) AS component_id FROM (SELECT id, component_id AS lab FROM "@
        =~= "SELECT id, MIN(lab) AS component_id FROM "@ + "("@
        + "SELECT id, component_id AS lab FROM "@);
    assert(" UNION ALL SELECT e.dst AS id, s.component_id AS lab FROM "@ =~= " UNION ALL "@
        + "SELECT e.dst AS id, s.component_id AS lab FROM "@);
    assert(" s ON e.src = s.id) GROUP BY id"@ =~= " s ON e.src = s.id"@ + ")"@ + " GROUP BY id"@);
    assert(spread_sql(state, edges) =~= "SELECT id, MIN(lab) AS component_id FROM "@
        + inner(rows_of_both("SELECT id, component_id AS lab FROM "@
        + state, "SELECT e.dst AS id, s.component_id AS lab FROM "@ + edges + " e JOIN "@ + state
        + " s ON e.src = s.id"@)) + " GROUP BY id"@);
}

/// A node takes over the label of the node that its own label names, if that has one; and an
/// edge leads from the one label to the other, if they differ. The labels are summed and counted.
pub proof fn law_labels_are_followed(state: Seq<char>, edges: Seq<char>)
    ensures
        jump_sql(state) == "SELECT s.id AS id, "@ + "COALESCE(j.component_id, s.component_id)"@
            + " AS component_id FROM "@ + (state + " s"@) + " LEFT JOIN "@ + (state + " j"@)
            + " ON s.component_id = j.id"@,
        contract_sql(edges, state)
            == "SELECT DISTINCT sl.component_id AS src, dl.component_id AS dst FROM "@ + (edges
            + " e"@) + (" JOIN "@ + state + " sl ON e.src = sl.id"@) + (" JOIN "@ + state
            + " dl ON e.dst = dl.id"@) + " WHERE sl.component_id <> dl.component_id"@,
        sum_sql(state) == "SELECT "@ + "SUM(CAST(component_id AS DOUBLE)) AS s"@ + ", "@
            + "COUNT(*) AS c"@ + " FROM "@ + state,
{
    reveal_strlit(" AS component_id FROM ");
    reveal_strlit(" FROM ");
    reveal_strlit(" JOIN ");
    reveal_strlit(" LEFT JOIN ");
    reveal_strlit(" ON s.component_id = j.id");
    reveal_strlit(" WHERE sl.component_id <> dl.component_id");
    reveal_strlit(" dl ON e.dst = dl.id");
    reveal_strlit(" dl ON e.dst = dl.id WHERE sl.component_id <> dl.component_id");
    reveal_strlit(" e");
    reveal_strlit(" e JOIN ");
    reveal_strlit(" j");
    reveal_strlit(" j ON s.component_id = j.id");
    reveal_strlit(" s");
    reveal_strlit(" s LEFT JOIN ");
    reveal_strlit(" sl ON e.src = sl.id");
    reveal_strlit(" sl ON e.src = sl.id JOIN ");
    reveal_strlit(", ");
    reveal_strlit("COALESCE(j.component_id, s.component_id)");
    reveal_strlit("COUNT(*) AS c");
    reveal_strlit("SELECT ");
    reveal_strlit("SELECT SUM(CAST(component_id AS DOUBLE)) AS s, COUNT(*) AS c FROM ");
    reveal_strlit("SELECT s.id AS id, ");
    reveal_strlit("SELECT s.id AS id, COALESCE(j.component_id, s.component_id) AS component_id FROM ");
    reveal_strlit("SUM(CAST(component_id AS DOUBLE)) AS s");
    assert("SELECT s.id AS id, COALESCE(j.component_id, s.component_id) AS component_id FROM "@
        =~= "SELECT s.id AS id, "@ + "COALESCE(j.component_id, s.component_id)"@
        + " AS component_id FROM "@);
    assert(" s LEFT JOIN "@ =~= " s"@ + " LEFT JOIN "@);
    assert(" j ON s.component_id = j.id"@ =~= " j"@ + " ON s.component_id = j.id"@);
    assert(jump_sql(state) =~= "SELECT s.id AS id, "@ + "COALESCE(j.component_id, s.component_id)"@
        + " AS component_id FROM "@ + (state + " s"@) + " LEFT JOIN "@ + (state + " j"@)
        + " ON s.component_id = j.id"@);
    assert(" e JOIN "@ =~= " e"@ + " JOIN "@);
    assert(" sl ON e.src = sl.id JOIN "@ =~= " sl ON e.src = sl.id"@ + " JOIN "@);
    assert(" dl ON e.dst = dl.id WHERE sl.component_id <> dl.component_id"@
        =~= " dl ON e.dst = dl.id"@ + " WHERE sl.component_id <> dl.component_id"@);
    assert(contract_sql(edges, state)
        =~= "SELECT DISTINCT sl.component_id AS src, dl.component_id AS dst FROM "@ + (edges
        + " e"@) + (" JOIN "@ + state + " sl ON e.src = sl.id"@) + (" JOIN "@ + state
        + " dl ON e.dst = dl.id"@) + " WHERE sl.component_id <> dl.component_id"@);
    assert("SELECT SUM(CAST(component_id AS DOUBLE)) AS s, COUNT(*) AS c FROM "@ =~= "SELECT "@
        + "SUM(CAST(component_id AS DOUBLE)) AS s"@ + ", "@ + "COUNT(*) AS c"@ + " FROM "@);
    assert(sum_sql(state) =~= "SELECT "@ + "SUM(CAST(component_id AS DOUBLE)) AS s"@ + ", "@
        + "COUNT(*) AS c"@ + " FROM "@ + state);
}

/// An edge table with its ends under the names `a` and `b`.
pub open spec fn one_way(edges: Seq<char>, a: Seq<char>, b: Seq<char>) -> Seq<char> {
    "SELECT "@ + a + " AS a, "@ + b + " AS b FROM "@ + edges
}

/// A column as a number of 64 bits.
pub open spec fn as_number(column: Seq<char>) -> Seq<char> {
    "arrow_cast("@ + column + ", 'UInt64')"@
}

/// Undirected edges are those of the table and those the other way round, each once.
pub proof fn law_undirected_edges_go_both_ways(edges: Seq<char>, src: Seq<char>, dst: Seq<char>)
    ensures
        both_ways_sql(edges, src, dst) == "SELECT DISTINCT a AS src, b AS dst FROM "@
            + inner(rows_of_both(one_way(edges, src, dst), one_way(edges, dst, src)))
            + " WHERE a <> b"@,
        label_edges_sql(edges) == "SELECT DISTINCT a AS source, b AS target FROM "@
            + inner(rows_of_both(one_way(edges, "source"@, "target"@), one_way(edges, "target"@, "source"@))) + " WHERE a <> b"@,
        undirected_sql(edges, src, dst) == "SELECT DISTINCT a AS src, b AS dst FROM "@
            + inner(rows_of_both(one_way(edges, as_number(src), as_number(dst)), one_way(edges, as_number(dst), as_number(src)))),
        directed_sql(edges, src, dst) == "SELECT DISTINCT "@ + as_number(src) + " AS src, "@
            + as_number(dst) + " AS dst FROM "@ + edges,
{
    reveal_strlit(" AS a, ");
    reveal_strlit(" AS b FROM ");
    reveal_strlit(" AS dst FROM ");
    reveal_strlit(" AS src, ");
    reveal_strlit(" UNION ALL ");
    reveal_strlit(" UNION ALL SELECT ");
    reveal_strlit(" UNION ALL SELECT arrow_cast(");
    reveal_strlit(" UNION ALL SELECT target AS a, source AS b FROM ");
    reveal_strlit(" WHERE a <> b");
    reveal_strlit("(");
    reveal_strlit(")");
    reveal_strlit(") WHERE a <> b");
    reveal_strlit(", 'UInt64')");
    reveal_strlit(", 'UInt64') AS a, arrow_cast(");
    reveal_strlit(", 'UInt64') AS b FROM ");
    reveal_strlit(", 'UInt64') AS dst FROM ");
    reveal_strlit(", 'UInt64') AS src, arrow_cast(");
    reveal_strlit("SELECT ");
    reveal_strlit("SELECT DISTINCT ");
    reveal_strlit("SELECT DISTINCT a AS source, b AS target FROM ");
    reveal_strlit("SELECT DISTINCT a AS source, b AS target FROM (SELECT source AS a, target AS b FROM ");
    reveal_strlit("SELECT DISTINCT a AS src, b AS dst FROM ");
    reveal_strlit("SELECT DISTINCT a AS src, b AS dst FROM (SELECT ");
    reveal_strlit("SELECT DISTINCT a AS src, b AS dst FROM (SELECT arrow_cast(");
    reveal_strlit("SELECT DISTINCT arrow_cast(");
    reveal_strlit("arrow_cast(");
    reveal_strlit("source");
    reveal_strlit("target");
    assert("SELECT DISTINCT a AS src, b AS dst FROM (SELECT "@
        =~= "SELECT DISTINCT a AS src, b AS dst FROM "@ + "("@ + "SELECT "@);
    assert(" UNION ALL SELECT "@ =~= " UNION ALL "@ + "SELECT "@);
    assert(") WHERE a <> b"@ =~= ")"@ + " WHERE a <> b"@);
    assert(both_ways_sql(edges, src, dst) =~= "SELECT DISTINCT a AS src, b AS dst FROM "@
        + inner(rows_of_both(one_way(edges, src, dst), one_way(edges, dst, src)))
        + " WHERE a <> b"@);
    assert("SELECT DISTINCT a AS source, b AS target FROM (SELECT source AS a, target AS b FROM "@
        =~= "SELECT DISTINCT a AS source, b AS target FROM "@ + "("@ + "SELECT "@ + "source"@
        + " AS a, "@ + "target"@ + " AS b FROM "@);
    assert(" UNION ALL SELECT target AS a, source AS b FROM "@ =~= " UNION ALL "@ + "SELECT "@
        + "target"@ + " AS a, "@ + "source"@ + " AS b FROM "@);
    assert(") WHERE a <> b"@ =~= ")"@ + " WHERE a <> b"@);
    assert(label_edges_sql(edges) =~= "SELECT DISTINCT a AS source, b AS target FROM "@
        + inner(rows_of_both(one_way(edges, "source"@, "target"@), one_way(edges, "target"@, "source"@))) + " WHERE a <> b"@);
    assert("SELECT DISTINCT a AS src, b AS dst FROM (SELECT arrow_cast("@
        =~= "SELECT DISTINCT a AS src, b AS dst FROM "@ + "("@ + "SELECT "@ + "arrow_cast("@);
    assert(", 'UInt64') AS a, arrow_cast("@ =~= ", 'UInt64')"@ + " AS a, "@ + "arrow_cast("@);
    assert(", 'UInt64') AS b FROM "@ =~= ", 'UInt64')"@ + " AS b FROM "@);
    assert(" UNION ALL SELECT arrow_cast("@ =~= " UNION ALL "@ + "SELECT "@ + "arrow_cast("@);
    assert(undirected_sql(edges, src, dst) =~= "SELECT DISTINCT a AS src, b AS dst FROM "@
        + inner(rows_of_both(one_way(edges, as_number(src), as_number(dst)), one_way(edges, as_number(dst), as_number(src)))));
    assert("SELECT DISTINCT arrow_cast("@ =~= "SELECT DISTINCT "@ + "arrow_cast("@);
    assert(", 'UInt64') AS src, arrow_cast("@ =~= ", 'UInt64')"@ + " AS src, "@ + "arrow_cast("@);
    assert(", 'UInt64') AS dst FROM "@ =~= ", 'UInt64')"@ + " AS dst FROM "@);
    assert(directed_sql(edges, src, dst) =~= "SELECT DISTINCT "@ + as_number(src) + " AS src, "@
        + as_number(dst) + " AS dst FROM "@ + edges);
}

/// A hop of a search finds the ends of the edges that start at the frontier, each once, without
/// the nodes that are visited already.
pub proof fn law_hops_find_what_is_not_visited(edges: Seq<char>, frontier: Seq<char>, visited: Seq<char>)
    ensures
        unvisited_sql(edges, frontier, visited) == "SELECT DISTINCT a.dst AS id FROM "@ + (edges
            + " a"@) + (" JOIN "@ + frontier + " f ON a.src = f.id"@) + (" LEFT JOIN "@ + visited
            + " v ON a.dst = v.id"@) + " WHERE v.id IS NULL"@,
{
    reveal_strlit(" JOIN ");
    reveal_strlit(" LEFT JOIN ");
    reveal_strlit(" WHERE v.id IS NULL");
    reveal_strlit(" a");
    reveal_strlit(" a JOIN ");
    reveal_strlit(" f ON a.src = f.id");
    reveal_strlit(" f ON a.src = f.id LEFT JOIN ");
    reveal_strlit(" v ON a.dst = v.id");
    reveal_strlit(" v ON a.dst = v.id WHERE v.id IS NULL");
    assert(" a JOIN "@ =~= " a"@ + " JOIN "@);
    assert(" f ON a.src = f.id LEFT JOIN "@ =~= " f ON a.src = f.id"@ + " LEFT JOIN "@);
    assert(" v ON a.dst = v.id WHERE v.id IS NULL"@ =~= " v ON a.dst = v.id"@
        + " WHERE v.id IS NULL"@);
    assert(unvisited_sql(edges, frontier, visited) =~= "SELECT DISTINCT a.dst AS id FROM "@
        + (edges + " a"@) + (" JOIN "@ + frontier + " f ON a.src = f.id"@) + (" LEFT JOIN "@
        + visited + " v ON a.dst = v.id"@) + " WHERE v.id IS NULL"@);
}

/// The nodes of an edge table: the ends of its edges, each once.
pub open spec fn ends_sql(edges: Seq<char>) -> Seq<char> {
    "SELECT source AS id FROM "@ + edges + " UNION SELECT target AS id FROM "@ + edges
}

/// At first every node has its own label, and the level zero.
pub proof fn law_every_node_starts(edges: Seq<char>)
    ensures
        label_start_sql(edges) == "SELECT id, id AS label FROM "@ + inner(ends_sql(edges)),
        level_start_sql(edges) == "SELECT id, 0 AS level FROM "@ + inner(ends_sql(edges)),
{
    reveal_strlit("(");
    reveal_strlit("SELECT id, 0 AS level FROM ");
    reveal_strlit("SELECT id, 0 AS level FROM (SELECT source AS id FROM ");
    reveal_strlit("SELECT id, id AS label FROM ");
    reveal_strlit("SELECT id, id AS label FROM (SELECT source AS id FROM ");
    reveal_strlit("SELECT source AS id FROM ");
    assert("SELECT id, id AS label FROM (SELECT source AS id FROM "@
        =~= "SELECT id, id AS label FROM "@ + "("@ + "SELECT source AS id FROM "@);
    assert(label_start_sql(edges) =~= "SELECT id, id AS label FROM "@ + inner(ends_sql(edges)));
    assert("SELECT id, 0 AS level FROM (SELECT source AS id FROM "@
        =~= "SELECT id, 0 AS level FROM "@ + "("@ + "SELECT source AS id FROM "@);
    assert(level_start_sql(edges) =~= "SELECT id, 0 AS level FROM "@ + inner(ends_sql(edges)));
}

/// The labels around a node: its own, and those of the nodes with an edge to it.
pub open spec fn around_sql(labels: Seq<char>, edges: Seq<char>) -> Seq<char> {
    rows_of_both(
        "SELECT id AS node_id, label FROM "@ + labels,
        "SELECT e.target AS node_id, c.label FROM "@ + edges + " e JOIN "@ + labels
            + " c ON e.source = c.id"@,
    )
}

/// How often each label stands around each node.
pub open spec fn counts_sql(labels: Seq<char>, edges: Seq<char>) -> Seq<char> {
    "SELECT node_id, label, COUNT(*) as cnt FROM "@ + inner(around_sql(labels, edges))
        + " GROUP BY node_id, label"@
}

/// The labels around each node by how often they stand there, the smaller one first where
/// two stand there as often.
pub open spec fn ranks_sql(labels: Seq<char>, edges: Seq<char>) -> Seq<char> {
    "SELECT node_id AS id, label, "@
        + "ROW_NUMBER() OVER (PARTITION BY node_id ORDER BY cnt DESC, label ASC)"@
        + " as rn FROM "@ + inner(counts_sql(labels, edges))
}

/// A node takes the label that stands around it most often.
pub proof fn law_the_most_frequent_label_wins(labels: Seq<char>, edges: Seq<char>)
    ensures
        label_round_sql(labels, edges) == "SELECT id, label FROM "@
            + inner(ranks_sql(labels, edges)) + " WHERE rn = 1"@,
{
    reveal_strlit(" GROUP BY node_id, label");
    reveal_strlit(" UNION ALL ");
    reveal_strlit(" UNION ALL SELECT e.target AS node_id, c.label FROM ");
    reveal_strlit(" WHERE rn = 1");
    reveal_strlit(" as rn FROM ");
    reveal_strlit(" c ON e.source = c.id");
    reveal_strlit(" c ON e.source = c.id) GROUP BY node_id, label)) WHERE rn = 1");
    reveal_strlit("(");
    reveal_strlit(")");
    reveal_strlit("ROW_NUMBER() OVER (PARTITION BY node_id ORDER BY cnt DESC, label ASC)");
    reveal_strlit("SELECT e.target AS node_id, c.label FROM ");
    reveal_strlit("SELECT id AS node_id, label FROM ");
    reveal_strlit("SELECT id, label FROM ");
    reveal_strlit("SELECT id, label FROM (SELECT node_id AS id, label, ROW_NUMBER() OVER (PARTITION BY node_id ORDER BY cnt DESC, label ASC) as rn FROM (SELECT node_id, label, COUNT(*) as cnt FROM (SELECT id AS node_id, label FROM ");
    reveal_strlit("SELECT node_id AS id, label, ");
    reveal_strlit("SELECT node_id, label, COUNT(*) as cnt FROM ");
    assert("SELECT id, label FROM (SELECT node_id AS id, label, ROW_NUMBER() OVER (PARTITION BY node_id ORDER BY cnt DESC, label ASC) as rn FROM (SELECT node_id, label, COUNT(*) as cnt FROM (SELECT id AS node_id, label FROM "@ =~= "SELECT id, label FROM "@ + "("@ + "SELECT node_id AS id, label, "@ + "ROW_NUMBER() OVER (PARTITION BY node_id ORDER BY cnt DESC, label ASC)"@ + " as rn FROM "@ + "("@ + "SELECT node_id, label, COUNT(*) as cnt FROM "@ + "("@ + "SELECT id AS node_id, label FROM "@);
    assert(" UNION ALL SELECT e.target AS node_id, c.label FROM "@ =~= " UNION ALL "@
        + "SELECT e.target AS node_id, c.label FROM "@);
    assert(" c ON e.source = c.id) GROUP BY node_id, label)) WHERE rn = 1"@
        =~= " c ON e.source = c.id"@ + ")"@ + " GROUP BY node_id, label"@ + ")"@ + ")"@
        + " WHERE rn = 1"@);
    assert(label_round_sql(labels, edges) =~= "SELECT id, label FROM "@
        + inner(ranks_sql(labels, edges)) + " WHERE rn = 1"@);
}

/// A node lies one level above the highest of the nodes with an edge to it, and stays where it
/// is without such a node.
pub proof fn law_levels_rise_above_their_parents(levels: Seq<char>, edges: Seq<char>)
    ensures
        level_round_sql(levels, edges) == "SELECT c.id, "@
            + "COALESCE(MAX(parent.level) + 1, c.level)"@ + " as level FROM "@ + (levels + " c"@)
            + (" LEFT JOIN "@ + edges + " e ON c.id = e.target"@) + (" LEFT JOIN "@ + levels
            + " parent ON e.source = parent.id"@) + " GROUP BY c.id, c.level"@,
{
    reveal_strlit(" GROUP BY c.id, c.level");
    reveal_strlit(" LEFT JOIN ");
    reveal_strlit(" as level FROM ");
    reveal_strlit(" c");
    reveal_strlit(" c LEFT JOIN ");
    reveal_strlit(" e ON c.id = e.target");
    reveal_strlit(" e ON c.id = e.target LEFT JOIN ");
    reveal_strlit(" parent ON e.source = parent.id");
    reveal_strlit(" parent ON e.source = parent.id GROUP BY c.id, c.level");
    reveal_strlit("COALESCE(MAX(parent.level) + 1, c.level)");
    reveal_strlit("SELECT c.id, ");
    reveal_strlit("SELECT c.id, COALESCE(MAX(parent.level) + 1, c.level) as level FROM ");
    assert("SELECT c.id, COALESCE(MAX(parent.level) + 1, c.level) as level FROM "@
        =~= "SELECT c.id, "@ + "COALESCE(MAX(parent.level) + 1, c.level)"@ + " as level FROM "@);
    assert(" c LEFT JOIN "@ =~= " c"@ + " LEFT JOIN "@);
    assert(" e ON c.id = e.target LEFT JOIN "@ =~= " e ON c.id = e.target"@ + " LEFT JOIN "@);
    assert(" parent ON e.source = parent.id GROUP BY c.id, c.level"@
        =~= " parent ON e.source = parent.id"@ + " GROUP BY c.id, c.level"@);
    assert(level_round_sql(levels, edges) =~= "SELECT c.id, "@
        + "COALESCE(MAX(parent.level) + 1, c.level)"@ + " as level FROM "@ + (levels + " c"@)
        + (" LEFT JOIN "@ + edges + " e ON c.id = e.target"@) + (" LEFT JOIN "@ + levels
        + " parent ON e.source = parent.id"@) + " GROUP BY c.id, c.level"@);
}

} // verus!
