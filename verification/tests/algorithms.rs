use std::collections::BTreeMap;

use benostreamdb::algorithms::adjacency::CsrAdj;
use benostreamdb::algorithms::communities::{
    csr_leiden, csr_leiden_seeded, csr_louvain, csr_louvain_seeded, group_communities,
    start_partition, Moves,
};
use benostreamdb::algorithms::queries::{
    changes_sql, checksum_sql, component_edges, component_start, count_rows_sql, label_edges,
    label_round, label_start, level_round, level_start, reached_nodes, search_edges, search_start,
    ComponentRounds, Rounds, Search,
};
use benostreamdb::algorithms::refinement::refine_communities;
use benostreamdb::index::csr_graph::{
    build, build_files, collect_edges, collect_numeric, decode_edges, edge_file_name, encode_edges,
    CsrFiles, MmapCsrGraph, MultiSegmentCsrGraph, NodeColumn, RawEdge,
};

fn files(edges: &[(u64, u64)]) -> CsrFiles {
    let raw: Vec<RawEdge> = edges
        .iter()
        .enumerate()
        .map(|(i, (a, b))| (*a, *b, i as u32))
        .collect();
    build_files(&encode_edges(&raw), "/base/seg")
}

fn graph(f: &CsrFiles) -> MultiSegmentCsrGraph<'_> {
    MultiSegmentCsrGraph::new(vec![MmapCsrGraph::from_mmaps(
        &f.offsets, &f.edges, &f.dict,
    )])
}

const TWO_TRIANGLES: [(u64, u64); 7] = [
    (10, 20),
    (20, 30),
    (30, 10),
    (40, 50),
    (50, 60),
    (60, 40),
    (30, 40),
];

fn turned(edges: &[(u64, u64)]) -> Vec<(u64, u64)> {
    edges.iter().map(|(a, b)| (*b, *a)).collect()
}

/// Modularity gain at resolution one.
fn best_move(m: &Moves) -> usize {
    let two_m = (m.weight as f64 * 2.0).max(1e-6);
    let gain = |edges: u64, total: u128| {
        edges as f64 - (total as f64 * m.degree as f64) / two_m
    };
    let mut best = usize::MAX;
    let mut best_gain = gain(m.own.edges, m.own.total);
    for (i, p) in m.others.iter().enumerate() {
        let g = gain(p.edges, p.total);
        if g > best_gain {
            best_gain = g;
            best = i;
        }
    }
    best
}

fn stay(_: &Moves) -> usize {
    usize::MAX
}

#[test]
fn graphs_read_back() {
    let f = files(&TWO_TRIANGLES);
    assert_eq!(f.offsets_path, "/base/seg.graph.csr.offsets");
    assert_eq!(f.edges_path, "/base/seg.graph.csr.edges");
    assert_eq!(f.dict_path, "/base/seg.graph.csr.dict");
    let g = graph(&f);
    assert_eq!(g.get_neighbors(30), vec![10, 40]);
    assert_eq!(g.get_degree(30), 2);
    assert_eq!(g.get_neighbors(99), Vec::<u64>::new());
    let one = &g.segments[0];
    assert_eq!(one.num_nodes, 6);
    assert_eq!(one.num_edges, 7);
    assert_eq!(one.to_dense(40), Some(3));
    assert_eq!(one.to_dense(41), None);
    assert_eq!(one.to_original(3), 40);
    assert_eq!(one.get_neighbors_raw(9).len(), 0);
    let raw = vec![(1, 2, 3), (u64::MAX, 0, u32::MAX)];
    assert_eq!(decode_edges(&encode_edges(&raw)), raw);
    let parts = build(&vec![(5, 5, 0)]);
    assert_eq!(parts.dict, vec![5]);
    assert_eq!(parts.offsets, vec![0, 1]);
    assert_eq!(edge_file_name("seg", "col"), "seg.col.tmp.graph.bin");
}

#[test]
fn edges_are_collected_from_columns() {
    let src = NodeColumn::Unsigned(vec![Some(1), None, Some(3)]);
    let dst = NodeColumn::Signed(vec![Some(-1), Some(2), Some(4)]);
    assert_eq!(
        collect_numeric(&src, &dst, 100, 3),
        vec![(1, u64::MAX, 100), (3, 4, 102)]
    );
    let names = NodeColumn::Text(vec!["a".to_string(), "b".to_string()]);
    let hashed = collect_edges(&names, &names, 0, 2);
    assert_eq!(hashed.len(), 2);
    assert_eq!(hashed[0].0, hashed[0].1);
    assert_ne!(hashed[0].0, hashed[1].0);
    assert_eq!(hashed[1].2, 1);
}

#[test]
fn nodes_are_numbered_and_counted() {
    let f = files(&TWO_TRIANGLES);
    let r = files(&turned(&TWO_TRIANGLES));
    let forward = graph(&f);
    let reverse = graph(&r);
    let directed = CsrAdj::build(&forward, None);
    assert_eq!(directed.originals, vec![10, 20, 30, 40, 50, 60]);
    assert_eq!(directed.degree, vec![1, 1, 2, 1, 1, 1]);
    assert_eq!(directed.total_weight, 7);
    assert_eq!(directed.neighbors(2), vec![0, 3]);
    let both = CsrAdj::build(&forward, Some(&reverse));
    assert_eq!(both.degree, vec![2, 2, 3, 3, 2, 2]);
    assert_eq!(both.neighbors(3), vec![4, 5, 2]);
    assert_eq!(both.num_nodes(), 6);
}

#[test]
fn two_triangles_are_two_communities() {
    let f = files(&TWO_TRIANGLES);
    let r = files(&turned(&TWO_TRIANGLES));
    let forward = graph(&f);
    let reverse = graph(&r);
    for found in [
        csr_louvain(&forward, Some(&reverse), &best_move),
        csr_leiden(&forward, Some(&reverse), &best_move),
    ] {
        let mut sets: Vec<Vec<u64>> = found.into_iter().map(|(_, nodes)| nodes).collect();
        sets.sort();
        assert_eq!(sets, vec![vec![10, 20, 30], vec![40, 50, 60]]);
    }
}

#[test]
fn new_nodes_do_not_join_communities_from_before() {
    let f = files(&[(1, 1), (5, 6)]);
    let r = files(&[(1, 1), (6, 5)]);
    let forward = graph(&f);
    let reverse = graph(&r);
    let seed: BTreeMap<u64, u32> = [(5, 0), (6, 0)].into_iter().collect();
    for found in [
        csr_louvain_seeded(&forward, Some(&reverse), &best_move, &seed),
        csr_leiden_seeded(&forward, Some(&reverse), &best_move, &seed),
    ] {
        assert_eq!(found, vec![(0, vec![5, 6]), (1, vec![1])]);
    }
    // A number of a node that is gone is not given out again.
    let gone: BTreeMap<u64, u32> = [(5, 0), (6, 0), (99, 8)].into_iter().collect();
    assert_eq!(
        csr_louvain_seeded(&forward, Some(&reverse), &best_move, &gone),
        vec![(0, vec![5, 6]), (9, vec![1])]
    );
}

#[test]
fn communities_from_before_keep_their_numbers() {
    let f = files(&TWO_TRIANGLES);
    let r = files(&turned(&TWO_TRIANGLES));
    let forward = graph(&f);
    let reverse = graph(&r);
    let seed: BTreeMap<u64, u32> = [
        (10, 7),
        (20, 7),
        (30, 7),
        (40, 3),
        (50, 3),
        (60, 3),
    ]
    .into_iter()
    .collect();
    assert_eq!(
        csr_louvain_seeded(&forward, Some(&reverse), &best_move, &seed),
        vec![(3, vec![40, 50, 60]), (7, vec![10, 20, 30])]
    );
    assert_eq!(
        csr_leiden_seeded(&forward, Some(&reverse), &stay, &seed),
        vec![(3, vec![40, 50, 60]), (7, vec![10, 20, 30])]
    );
    assert_eq!(
        start_partition(&vec![1, 2, 3], Some(&[(2u64, 5u32)].into_iter().collect())),
        (vec![6, 5, 7], 8)
    );
    assert_eq!(start_partition(&vec![8, 9], None), (vec![0, 1], 2));
}

#[test]
fn refinement_splits_what_does_not_hang_together() {
    let edges = [(1, 2), (3, 4), (5, 5)];
    let f = files(&edges);
    let r = files(&turned(&edges));
    let forward = graph(&f);
    let reverse = graph(&r);
    let adj = CsrAdj::build(&forward, Some(&reverse));
    assert_eq!(adj.originals, vec![1, 2, 3, 4, 5]);
    let mut next = 10;
    let refined = refine_communities(&adj, &vec![2, 2, 2, 2, 6], &mut next);
    assert_eq!(refined, vec![2, 2, 10, 10, 6]);
    assert_eq!(next, 11);
    assert_eq!(
        group_communities(&refined, &adj.originals),
        vec![(2, vec![1, 2]), (6, vec![5]), (10, vec![3, 4])]
    );
}

#[test]
fn components_are_found_in_rounds() {
    let start = component_start("edges", "a", "b");
    assert_eq!(start.name, "state_0");
    assert_eq!(
        start.sql,
        "SELECT id, id AS component_id FROM (SELECT a AS id FROM edges UNION SELECT b AS id FROM edges)"
    );
    let edges = component_edges("edges", "a", "b");
    assert_eq!(
        edges.sql,
        "SELECT DISTINCT a AS src, b AS dst FROM (SELECT a AS a, b AS b FROM edges UNION ALL SELECT b AS a, a AS b FROM edges) WHERE a <> b"
    );
    assert!(checksum_sql("state_0").ends_with("FROM state_0"));
    let mut rounds = ComponentRounds::new(start.name, edges.name);
    assert!(rounds.goes_on(1));
    assert!(!rounds.goes_on(0));
    let steps = rounds.steps();
    assert_eq!(steps[0].name, "state_p0");
    assert!(steps[0].sql.contains("edges_0 e JOIN state_0 s"));
    assert!(steps[1].sql.contains("state_p0"));
    assert!(steps[2].sql.contains("state_j1_0"));
    let contract = rounds
        .finish_round("state_j2_0".to_string(), true)
        .expect("another round");
    assert_eq!(contract.name, "edges_1");
    assert!(contract.sql.contains("edges_0 e JOIN state_j2_0 sl"));
    assert!(rounds.goes_on(2));
    assert!(rounds.finish_round("state_j2_1".to_string(), false).is_none());
    assert!(!rounds.goes_on(9));
    assert_eq!(rounds.state, "state_j2_1");
}

#[test]
fn searches_go_hop_by_hop() {
    assert!(search_start(&vec![]).is_none());
    let start = search_start(&vec![1, 20]).unwrap();
    assert_eq!(
        start.sql,
        "SELECT DISTINCT arrow_cast(id, 'UInt64') AS id FROM (VALUES (1), (20)) AS s(id)"
    );
    let edges = search_edges("e", "s", "d", true);
    assert_eq!(
        edges.sql,
        "SELECT DISTINCT arrow_cast(s, 'UInt64') AS src, arrow_cast(d, 'UInt64') AS dst FROM e"
    );
    assert!(search_edges("e", "s", "d", false).sql.contains("UNION ALL"));
    let mut search = Search::new(edges.name, start.name);
    let step = search.step();
    assert_eq!(step.name, "bfs_new_0");
    assert!(step.sql.contains("JOIN bfs_visited_0 f"));
    assert_eq!(count_rows_sql("bfs_new_0"), "SELECT COUNT(*) AS c FROM bfs_new_0");
    let union = search.finish_hop(step.name, 2).unwrap();
    assert_eq!(union.name, "bfs_visited_1");
    assert_eq!(
        union.sql,
        "SELECT id FROM bfs_visited_0 UNION SELECT id FROM bfs_new_0"
    );
    assert_eq!(search.frontier, "bfs_new_0");
    assert!(search.goes_on(2));
    assert!(search.finish_hop("bfs_new_1".to_string(), 0).is_none());
    assert!(!search.goes_on(9));
    assert_eq!(search.result_sql(), "SELECT id FROM bfs_visited_1 ORDER BY id");
    assert_eq!(
        reached_nodes(&vec![Some(5), None, Some(1), Some(5)]),
        vec![1, 5]
    );
}

#[test]
fn labels_and_levels_settle() {
    assert_eq!(label_edges("e").name, "edges_sym");
    assert_eq!(label_start("edges_sym").name, "lp_0");
    let round = label_round(0, "lp_0", "edges_sym");
    assert_eq!(round.name, "lp_1");
    assert!(round.sql.contains("ORDER BY cnt DESC, label ASC"));
    assert_eq!(level_start("e").name, "ts_0");
    let level = level_round(3, "ts_3", "e");
    assert_eq!(level.name, "ts_4");
    assert!(level.sql.contains("COALESCE(MAX(parent.level) + 1, c.level)"));
    assert_eq!(
        changes_sql("ts_1", "ts_0", "level"),
        "SELECT COUNT(*) AS changes FROM ts_1 n JOIN ts_0 p ON n.id = p.id WHERE n.level != p.level"
    );
    let mut rounds = Rounds::new("lp_0".to_string());
    assert!(rounds.goes_on(2));
    rounds.finish_round("lp_1".to_string(), 4);
    assert!(rounds.goes_on(2));
    rounds.finish_round("lp_2".to_string(), 0);
    assert!(!rounds.goes_on(9));
    assert_eq!(rounds.current, "lp_2");
}

#[test]
fn damaged_graphs_are_told_from_whole_ones() {
    let f = files(&TWO_TRIANGLES);
    assert!(MmapCsrGraph::from_mmaps(&f.offsets, &f.edges, &f.dict).is_whole());
    let none = files(&[]);
    assert!(MmapCsrGraph::from_mmaps(&none.offsets, &none.edges, &none.dict).is_whole());
    let short = &f.edges[..f.edges.len() - 16];
    assert!(!MmapCsrGraph::from_mmaps(&f.offsets, short, &f.dict).is_whole());
    let few = &f.dict[..8];
    assert!(!MmapCsrGraph::from_mmaps(&f.offsets, &f.edges, few).is_whole());
    let mut falling = f.dict.clone();
    falling[0] = 255;
    assert!(!MmapCsrGraph::from_mmaps(&f.offsets, &f.edges, &falling).is_whole());
    let mut crossed = f.offsets.clone();
    crossed[8] = 7;
    assert!(!MmapCsrGraph::from_mmaps(&crossed, &f.edges, &f.dict).is_whole());
}
