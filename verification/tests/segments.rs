use benostreamdb::manifest::{ColumnStats, ManifestValue};
use benostreamdb::order::sorted_order;
use benostreamdb::segment::{
    checksum, composite_columns, composite_key, document_lengths, encode_rows, find_index,
    key_of_url_path, kind_of_file, needs_new_context, upload_key, ChunkBounds, ChunkStatistics,
    ColumnChunk, ColumnIndexConfig, FileKind, HybridSegmentWriter, IndexAlgorithm, SegmentConfig, UploadStep,
};
use benostreamdb::text::{
    ascii_lowercase, first_word, join, lines, parse_i64, parse_u64, replace, split, split_once,
    split_words, trim, u64_text,
};
use benostreamdb::textmap::TextMap;

fn writer() -> HybridSegmentWriter {
    HybridSegmentWriter::new(SegmentConfig::new("/t", "seg"))
}

#[test]
fn files_have_kinds() {
    assert_eq!(kind_of_file("seg.id.inv.parquet"), FileKind::Inverted);
    assert_eq!(kind_of_file("seg.v.centroids.parquet"), FileKind::Auxiliary);
    assert_eq!(kind_of_file("seg.parquet"), FileKind::Data);
    assert_eq!(kind_of_file("seg.id.idx"), FileKind::Scalar);
    assert_eq!(kind_of_file("seg.g.graph_v2.csr.edges"), FileKind::Graph);
    assert_eq!(
        kind_of_file("seg.v.cluster_0.hnsw.graph"),
        FileKind::Vector
    );
    assert_eq!(kind_of_file("seg.txt"), FileKind::Unknown);
    let none = TextMap { items: vec![] };
    let index = find_index("seg.id.inv.parquet", &none).unwrap();
    assert_eq!(index.index_type, "inverted");
    assert_eq!(index.column_name.as_deref(), Some("id"));
    assert!(find_index("seg.parquet", &none).is_none());
}

#[test]
fn statistics_are_merged() {
    let mut w = writer();
    w.merge_parquet_stats(vec![
        ColumnChunk {
            name: "id".to_string(),
            statistics: Some(ChunkStatistics {
                null_count: Some(0),
                distinct_count: None,
                bounds: ChunkBounds::Int64(Some(40), Some(42)),
            }),
        },
        ColumnChunk {
            name: "v".to_string(),
            statistics: None,
        },
    ]);
    let stats = w.get_stats();
    assert!(matches!(
        stats.get("id").unwrap().min,
        Some(ManifestValue::Int64(40))
    ));
    assert!(stats.get("v").map_or(true, |s: &ColumnStats| s.min.is_none()));
}

#[test]
fn segments_become_entries() {
    let mut w = writer();
    assert!(!w.is_remote());
    assert_eq!(w.data_file_name(), "seg.parquet");
    w.record_batch("/t/seg.parquet".to_string(), b"abc", vec![], 3);
    assert_eq!(w.get_record_count(), 3);
    assert_eq!(w.get_generated_files().len(), 1);
    let entry = w.to_manifest_entry(&vec![Some(3)]);
    assert_eq!(entry.record_count, 3);
    assert_eq!(
        entry.file_checksum.as_deref(),
        Some("ba7816bf8f01cfea414140de5dae2223b00361a396177a9cb410ff61f20015ad")
    );
}

#[test]
fn checksums_are_in_hexadecimal() {
    assert_eq!(
        checksum(b""),
        "e3b0c44298fc1c149afbf4c8996fb92427ae41e4649b934ca495991b7852b855"
    );
}

#[test]
fn uploads_have_keys() {
    assert_eq!(
        upload_key("s3://bucket/a/b.parquet"),
        Some("a/b.parquet".to_string())
    );
    assert_eq!(upload_key("a/b.parquet"), Some("a/b.parquet".to_string()));
    assert_eq!(upload_key("://b"), None);
    assert_eq!(
        key_of_url_path(Some("/a/b".to_string())),
        Some("a/b".to_string())
    );
    let remote = HybridSegmentWriter::new(SegmentConfig::new("s3://bucket/t", "seg"));
    assert!(remote.is_remote());
    let local = "/tmp/benostream_staging/seg.parquet".to_string();
    assert!(matches!(
        remote.upload_step(&local),
        UploadStep::Put { key, remote_path, .. }
            if key == "t/seg.parquet" && remote_path == "s3://bucket/t/seg.parquet"
    ));
    assert!(matches!(
        remote.upload_step("/elsewhere/seg.parquet"),
        UploadStep::Keep(_)
    ));
    let bad = HybridSegmentWriter::new(SegmentConfig::new("://b", "seg"));
    assert!(matches!(bad.upload_step(&local), UploadStep::BadUrl(_)));
}

#[test]
fn lists_of_rows_are_encoded() {
    assert_eq!(encode_rows(&vec![3, 5, 10]), vec![3, 2, 5]);
    assert_eq!(
        document_lengths(&vec![vec![1, 2], vec![2]]),
        vec![(1, 1), (2, 2)]
    );
}

#[test]
fn indexes_have_names() {
    let w = writer();
    assert_eq!(w.inverted_index_path("id"), "seg.id.inv.parquet");
    let algorithm = IndexAlgorithm::HnswTq8 {
        metric: "l2".to_string(),
    };
    let one = w.vector_index_name("v", &algorithm, 1, 0);
    assert_eq!(one, format!("seg.v.{}", algorithm.id()));
    let several = w.vector_index_name("v", &algorithm, 2, 1);
    assert_eq!(several, format!("seg.v.{}.1", algorithm.id()));
    assert_eq!(algorithm.metric().unwrap(), "l2");
    assert!(needs_new_context("cuda", None));
    assert!(!needs_new_context("cpu", Some(("cpu", true))));
    assert_eq!(
        composite_columns(
            &vec!["a".to_string(), "b".to_string()],
            &vec!["b".to_string(), "a".to_string()]
        )
        .unwrap(),
        vec![1, 0]
    );
    let missing = composite_columns(&vec!["a".to_string()], &vec!["z".to_string()]).unwrap_err();
    assert_eq!(missing.column, "z");
    assert!(missing.message().contains('z'));
    let key = composite_key(&vec![
        ManifestValue::Int64(1),
        ManifestValue::Text("x".to_string()),
    ]);
    assert_eq!(key, "1\0x");
}

#[test]
fn texts_are_taken_apart() {
    assert_eq!(split("a,b,,c", ','), ["a", "b", "", "c"]);
    assert_eq!(
        split_once("k=v=w", '='),
        Some(("k".to_string(), "v=w".to_string()))
    );
    assert_eq!(lines("a\r\nb\n"), ["a", "b"]);
    assert_eq!(trim(" \u{3000}x\n"), "x");
    assert_eq!(first_word("  two words"), Some("two".to_string()));
    assert_eq!(split_words(" a  b\tc "), ["a", "b", "c"]);
    assert_eq!(
        join(&vec!["a".to_string(), "b".to_string()], ", "),
        "a, b"
    );
    assert_eq!(replace("aXbX", "X", "--"), "a--b--");
    assert_eq!(ascii_lowercase("ÀB"), "Àb");
    assert_eq!(u64_text(u64::MAX), "18446744073709551615");
    assert_eq!(parse_u64("18446744073709551615"), Some(u64::MAX));
    assert_eq!(parse_u64("18446744073709551616"), None);
    assert_eq!(parse_u64("+7"), Some(7));
    assert_eq!(parse_i64("-9223372036854775808"), Some(i64::MIN));
    assert_eq!(parse_i64("x"), None);
}

#[test]
fn sorting_is_stable() {
    let keys: Vec<u64> = vec![3, 1, 3, 2, 1];
    assert_eq!(sorted_order(&keys), vec![1, 4, 3, 0, 2]);
}

#[test]
fn inverted_indexes_are_finished() {
    let mut config = SegmentConfig::new("/t", "seg");
    config.parquet_path = Some("data/seg.parquet".to_string());
    let mut w = HybridSegmentWriter::new(config);
    let plain = w.finish_inverted("n", vec![("7".to_string(), vec![4, 1])]);
    assert_eq!(plain.path, "data/seg.n.inv.parquet");
    assert_eq!(plain.keys, vec!["7".to_string()]);
    assert_eq!(plain.rows, vec![vec![1, 3]]);
    assert!(plain.analyzer.is_none() && plain.lengths_path.is_none());
    assert!(plain.lengths.is_empty());

    w.record_index("body".to_string(), "standard".to_string(), vec![]);
    let words = w.finish_inverted(
        "body",
        vec![
            ("b".to_string(), vec![2]),
            ("a".to_string(), vec![0, 2]),
            ("a".to_string(), vec![2]),
        ],
    );
    assert_eq!(words.keys, vec!["a".to_string(), "b".to_string()]);
    assert_eq!(words.analyzer.as_deref(), Some("standard"));
    assert_eq!(
        words.lengths_path.as_deref(),
        Some("data/seg.body.doclen.parquet")
    );
    assert_eq!(words.lengths, vec![(0, 1), (2, 3)]);
    assert_eq!(words.rows, vec![vec![0, 2, 0], vec![2]]);
    assert_eq!(
        w.get_generated_files(),
        &vec![
            "data/seg.n.inv.parquet".to_string(),
            "data/seg.body.doclen.parquet".to_string(),
            "data/seg.body.inv.parquet".to_string(),
        ]
    );
}

#[test]
fn buffers_are_emptied_once_there_is_a_store() {
    let mut w = HybridSegmentWriter::new(SegmentConfig::new("/t", "seg"));
    w.buffer_tokens("n", vec![("b".to_string(), vec![0]), ("a".to_string(), vec![1])]);
    w.buffer_tokens("n", vec![("a".to_string(), vec![2])]);
    w.buffer_vectors("v".to_string(), "/t/v.bin".to_string());
    w.buffer_graph("g".to_string(), "/t/g.bin".to_string());
    let refused = w.take_inverted().unwrap_err();
    assert_eq!(
        refused.message(),
        "No store configured for finishing indexes"
    );
    assert_eq!(w.inverted_data.get("n").map(|t| t.len()), Some(3));

    w.set_store();
    let taken = w.take_inverted().unwrap();
    assert!(w.inverted_data.items.is_empty());
    let (column, tokens) = taken.items.into_iter().next().unwrap();
    let index = w.finish_inverted(&column, tokens);
    assert_eq!(index.keys, vec!["a".to_string(), "b".to_string()]);
    assert_eq!(index.rows, vec![vec![1, 1], vec![0]]);
    assert_eq!(w.take_vectors().get("v").map(|s| s.as_str()), Some("/t/v.bin"));
    assert_eq!(w.take_graphs().get("g").map(|s| s.as_str()), Some("/t/g.bin"));
    assert!(w.vector_data.items.is_empty() && w.graph_data.items.is_empty());
    assert!(HybridSegmentWriter::new(SegmentConfig::new("/t", "s")).with_store().has_store);
}

#[test]
fn graph_indexes_are_finished() {
    let mut config = SegmentConfig::new("/t", "seg");
    config.parquet_path = Some("data/seg.parquet".to_string());
    let mut w = HybridSegmentWriter::new(config);
    w.record_index("body".to_string(), "standard".to_string(), vec![]);
    let targets = w.finish_graph("g", &vec!["seg.g.graph.csr.edges".to_string()]);
    assert_eq!(
        w.index_metadata.get("body").map(|s| s.as_str()),
        Some("standard")
    );
    assert_eq!(targets, vec!["data/seg.g.graph.csr.edges".to_string()]);
    assert_eq!(w.get_generated_files(), &targets);
    assert_eq!(
        w.index_metadata.get("seg.g").map(|s| s.as_str()),
        Some("csr_graph")
    );
}

#[test]
fn columns_are_chosen_for_indexes() {
    let mut config = SegmentConfig::new("/t", "seg");
    config.columns_to_index = Some(vec!["listed".to_string()]);
    config.default_device = Some("cpu".to_string());
    config
        .column_devices
        .insert("v".to_string(), "cuda".to_string());
    let mut configs = TextMap { items: vec![] };
    configs.insert(
        "on".to_string(),
        ColumnIndexConfig {
            enabled: true,
            algorithms: vec![
                IndexAlgorithm::CsrGraph {
                    src_column: "a".to_string(),
                    dst_column: "b".to_string(),
                },
                IndexAlgorithm::CompositeBitmap {
                    columns: vec!["a".to_string()],
                },
            ],
        },
    );
    configs.insert(
        "off".to_string(),
        ColumnIndexConfig {
            enabled: false,
            algorithms: vec![],
        },
    );
    let w = HybridSegmentWriter::new(config)
        .with_index_configs(configs)
        .with_record_count(7);
    assert_eq!(w.get_record_count(), 7);
    assert!(w.indexes_column("listed", false));
    assert!(w.indexes_column("on", false));
    assert!(!w.indexes_batch_column("on", false));
    assert!(!w.indexes_column("off", false));
    assert!(w.indexes_column("off", true));
    assert_eq!(w.desired_device("v").map(|d| d.as_str()), Some("cuda"));
    assert_eq!(w.desired_device("x").map(|d| d.as_str()), Some("cpu"));
    assert_eq!(w.algorithms_for("on").map(|a| a.len()), Some(2));
    assert!(w.algorithms_for("off").is_none());
    assert!(w.algorithms_for("x").is_none());
    assert_eq!(w.virtual_columns(true), vec![(0, 0)]);
    assert_eq!(w.virtual_columns(false), vec![(0, 1)]);
    let all = HybridSegmentWriter::new(SegmentConfig::new("/t", "seg").with_index_all(true))
        .with_existing_stats(TextMap {
            items: vec![(
                "a".to_string(),
                ColumnStats {
                    min: None,
                    max: None,
                    null_count: 3,
                    distinct_count: None,
                },
            )],
        });
    assert!(all.indexes_batch_column("any", false));
    assert_eq!(all.get_stats().get("a").map(|s| s.null_count), Some(3));
}

#[test]
fn vector_indexes_follow_the_algorithms() {
    let mut config = SegmentConfig::new("/t", "seg");
    config.column_algorithms.insert(
        "v".to_string(),
        vec![
            IndexAlgorithm::HnswPq {
                metric: "cosine".to_string(),
            },
            IndexAlgorithm::Other,
        ],
    );
    let w = HybridSegmentWriter::new(config);
    let default = IndexAlgorithm::Hnsw {
        metric: "l2".to_string(),
    };
    let own = w.vector_indexes("v", &default);
    assert_eq!(own.len(), 2);
    assert_eq!(own[0].name, "seg.v.pq.0");
    assert_eq!(own[0].metric.as_deref(), Some("cosine"));
    assert_eq!(own[1].name, "seg.v.idx.1");
    assert_eq!(own[1].metric, None);
    let other = w.vector_indexes("w", &default);
    assert_eq!(other.len(), 1);
    assert_eq!(other[0].name, "seg.w.hnsw");
    assert_eq!(other[0].metric.as_deref(), Some("l2"));
}

#[test]
fn columns_may_need_another_device() {
    let mut config = SegmentConfig::new("/t", "seg");
    config.default_device = Some("auto".to_string());
    config
        .column_devices
        .insert("v".to_string(), "cuda".to_string());
    let w = HybridSegmentWriter::new(config);
    let step = w.index_column("v", true, Some(("cpu", true)));
    assert_eq!(step.device.as_deref(), Some("cuda"));
    assert!(step.indexed);
    let step = w.index_column("v", true, Some(("cuda", false)));
    assert_eq!(step.device, None);
    let step = w.index_column("x", false, Some(("cpu", true)));
    assert_eq!(step.device, None);
    assert!(!step.indexed);
    let step = w.index_column("x", false, None);
    assert_eq!(step.device.as_deref(), Some("auto"));
}

#[test]
fn batches_are_planned() {
    let mut configs = TextMap { items: vec![] };
    configs.insert(
        "both".to_string(),
        ColumnIndexConfig {
            enabled: true,
            algorithms: vec![
                IndexAlgorithm::CompositeBitmap {
                    columns: vec!["b".to_string(), "a".to_string()],
                },
                IndexAlgorithm::CsrGraph {
                    src_column: "a".to_string(),
                    dst_column: "b".to_string(),
                },
            ],
        },
    );
    let mut config = SegmentConfig::new("/t", "seg");
    config.columns_to_index = Some(vec!["b".to_string()]);
    let w = HybridSegmentWriter::new(config).with_index_configs(configs);
    let names: Vec<String> = ["a", "b", "v"].iter().map(|s| s.to_string()).collect();
    let plan = w.build_indexes(&names, &vec![false, false, true]).unwrap();
    assert_eq!(plan.columns, vec![1, 2]);
    assert_eq!(plan.composites, vec![((0, 0), vec![1, 0])]);
    assert_eq!(plan.graphs, vec![(0, 1)]);
    let missing = w
        .build_indexes(&vec!["a".to_string()], &vec![false])
        .unwrap_err();
    assert_eq!(
        missing.message(),
        "Column b not found for composite index"
    );
}
