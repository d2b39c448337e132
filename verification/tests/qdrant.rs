use benostreamdb::index::gpu::VectorMetric;
use benostreamdb::search::qdrant::{
    batch_step, batch_to_retrieved, batch_to_scored, change_payloads, change_vectors, check_create,
    check_exists, collection_info, condition_to_sql, drop_aliases_of, example_dimension,
    filter_to_sql, higher_is_better, ids_filter, keep_wanted, list_aliases, list_collections,
    metric_for, parse_point_id, point_filter, point_rows, points_to_docs, replaced_filter, resolve,
    retrieval_filter, selector_filter, service_info, single_point, sql_literal, update_aliases,
    CollectionMeta, DocValue, ErrorStatus, FoundRow, PayloadOp, StoredRow, WriteStep,
};
use benostreamdb::search::qdrant_types::{
    AliasAction, BatchOperation, Condition, ConditionList, CreateAlias, DeleteAlias,
    DeletePointsRequest, FieldCondition, Filter, HnswConfig, JsonValue, MatchCondition,
    PayloadSelector, PointId, PointStruct, PointVectors, PointsBatch, QueryInput, RangeCondition,
    RenameAlias,
    SetPayloadRequest, UpdateResult, VectorInput, VectorsConfig, WithPayload, WithVector,
};
use benostreamdb::search::results::{
    discover_results, limit_or_default, scroll, search_depth, search_page, without_score,
};
use benostreamdb::search::qdrant_types::{RetrievedPoint, ScoredPoint};
use benostreamdb::search::sql::{sql_string, valid_field};
use benostreamdb::textmap::TextMap;

fn text(s: &str) -> JsonValue {
    JsonValue::Text(s.to_string())
}

fn number(s: &str) -> JsonValue {
    JsonValue::Number(s.to_string())
}

fn payload(fields: &[(&str, &str)]) -> TextMap<JsonValue> {
    TextMap {
        items: fields
            .iter()
            .map(|(k, v)| (k.to_string(), text(v)))
            .collect(),
    }
}

fn shown(v: &JsonValue) -> String {
    sql_literal(v)
}

fn bits(values: &[f32]) -> Vec<u32> {
    values.iter().map(|v| v.to_bits()).collect()
}

fn stored(id: Option<&str>, vector: &[f32], fields: &[(&str, Option<JsonValue>)]) -> StoredRow {
    StoredRow {
        id: id.map(|s| s.to_string()),
        vector: Some(bits(vector)),
        fields: fields
            .iter()
            .map(|(k, v)| (k.to_string(), v.as_ref().map(|v| v.copy())))
            .collect(),
    }
}

fn field(key: &str, value: JsonValue) -> Condition {
    Condition::Field(FieldCondition {
        key: key.to_string(),
        match_: Some(MatchCondition::Value { value }),
        range: None,
    })
}

fn must(c: Condition) -> Filter {
    Filter {
        must: Some(ConditionList::Many(vec![c])),
        should: None,
        must_not: None,
    }
}

#[test]
fn service_is_named() {
    let info = service_info("1.2.3".to_string());
    assert_eq!(info.title, "benostreamdb");
    assert_eq!(info.version, "1.2.3");
    assert_eq!(info.commit, "");
}

#[test]
fn collections_are_created_once() {
    assert!(check_create(false, 4).is_ok());
    let twice = check_create(true, 4).unwrap_err();
    assert_eq!(twice.status, ErrorStatus::BadRequest);
    assert_eq!(twice.status_code(), 400);
    assert_eq!(twice.msg, "Collection already exists");
    let empty = check_create(false, 0).unwrap_err();
    assert_eq!(empty.msg, "vectors.size must be greater than 0");
    assert!(check_exists(true).is_ok());
    let missing = check_exists(false).unwrap_err();
    assert_eq!(missing.status, ErrorStatus::NotFound);
    assert_eq!(missing.status_code(), 404);
    assert_eq!(missing.msg, "Collection not found");
}

#[test]
fn collections_keep_what_they_were_created_with() {
    let meta = CollectionMeta::of_request(
        VectorsConfig {
            size: 4,
            distance: "Euclid".to_string(),
            on_disk: None,
        },
        None,
    );
    assert!(meta.on_disk);
    let hnsw = HnswConfig {
        m: Some(16),
        ef_construct: None,
        on_disk: None,
    };
    let meta = meta.updated(Some(hnsw)).updated(None);
    let info = collection_info(meta, Some(8), 3);
    assert_eq!(info.points_count, 3);
    assert_eq!(info.vectors_count, 3);
    assert_eq!(info.indexed_vectors_count, 3);
    assert_eq!(info.segments_count, 1);
    assert_eq!(info.status, "green");
    assert_eq!(info.optimizer_status, "ok");
    assert_eq!(info.config.params.vectors.size, 8);
    assert_eq!(info.config.params.vectors.distance, "Euclid");
    assert_eq!(info.config.hnsw_config, Some(hnsw));
    let default = CollectionMeta::default();
    assert_eq!(default.size, 1536);
    assert_eq!(default.distance, "Cosine");
    assert_eq!(default.vectors(None).size, 1536);
    let list = list_collections(vec!["a".to_string(), "b".to_string()]);
    assert_eq!(list.collections[1].name, "b");
    assert_eq!(UpdateResult::completed().status, "completed");
}

#[test]
fn distances_choose_a_metric() {
    assert_eq!(metric_for("Cosine"), VectorMetric::Cosine);
    assert_eq!(metric_for("DOT"), VectorMetric::InnerProduct);
    assert_eq!(metric_for("inner_product"), VectorMetric::InnerProduct);
    assert_eq!(metric_for("l1"), VectorMetric::L1);
    assert_eq!(metric_for("Euclid"), VectorMetric::L2);
    assert!(higher_is_better("cosine"));
    assert!(higher_is_better("Ip"));
    assert!(!higher_is_better("Manhattan"));
    assert!(!higher_is_better("Euclid"));
}

#[test]
fn fields_and_texts_are_checked() {
    assert!(valid_field("_id"));
    assert!(valid_field("city2"));
    assert!(!valid_field("2city"));
    assert!(!valid_field(""));
    assert!(!valid_field("a b"));
    assert!(!valid_field("a;"));
    assert_eq!(sql_string("O'Brien"), "'O''Brien'");
    assert_eq!(shown(&JsonValue::Null), "NULL");
    assert_eq!(shown(&JsonValue::Bool(true)), "true");
    assert_eq!(shown(&number("1.5")), "1.5");
    assert_eq!(
        shown(&JsonValue::Composite("[\"a\"]".to_string())),
        "'[\"a\"]'"
    );
}

#[test]
fn filters_become_sql() {
    let london = must(field("city", text("London")));
    assert_eq!(
        filter_to_sql(&london).unwrap(),
        Some("city = 'London'".to_string())
    );
    let range = Condition::Field(FieldCondition {
        key: "n".to_string(),
        match_: None,
        range: Some(RangeCondition {
            lt: None,
            gt: Some("1".to_string()),
            gte: None,
            lte: Some("3".to_string()),
        }),
    });
    assert_eq!(condition_to_sql(&range).unwrap(), "n > 1 AND n <= 3");
    let any = Condition::Field(FieldCondition {
        key: "city".to_string(),
        match_: Some(MatchCondition::Any {
            any: vec![text("a"), text("b")],
        }),
        range: None,
    });
    assert_eq!(condition_to_sql(&any).unwrap(), "city IN ('a', 'b')");
    let both = Filter {
        must: Some(ConditionList::One(Box::new(field("a", number("1"))))),
        should: Some(ConditionList::Many(vec![
            field("b", number("2")),
            field("c", number("3")),
        ])),
        must_not: Some(ConditionList::Many(vec![field("d", number("4"))])),
    };
    let sql = filter_to_sql(&both).unwrap().unwrap();
    assert!(sql.contains("a = 1"), "{sql}");
    assert!(sql.contains("b = 2"), "{sql}");
    assert!(sql.contains(" OR "), "{sql}");
    assert!(sql.contains("NOT"), "{sql}");
    let none = Filter {
        must: None,
        should: None,
        must_not: None,
    };
    assert_eq!(filter_to_sql(&none).unwrap(), None);
    let bad = must(field("no field", number("1")));
    assert_eq!(
        filter_to_sql(&bad).unwrap_err().status,
        ErrorStatus::BadRequest
    );
}

#[test]
fn points_are_selected_by_identity_or_filter() {
    let ids = vec![PointId::Num(1), PointId::Uuid("x'y".to_string())];
    assert_eq!(ids_filter(&ids), "_id IN ('1', 'x''y')");
    assert_eq!(point_filter("7"), "_id = '7'");
    assert_eq!(retrieval_filter(&vec![]), None);
    assert_eq!(
        retrieval_filter(&vec![PointId::Num(3)]),
        Some("_id IN ('3')".to_string())
    );
    assert_eq!(
        selector_filter(&Some(ids), &None).unwrap(),
        Some("_id IN ('1', 'x''y')".to_string())
    );
    assert_eq!(
        selector_filter(&Some(vec![]), &Some(must(field("a", number("1"))))).unwrap(),
        Some("a = 1".to_string())
    );
    assert_eq!(
        selector_filter(&None, &None).unwrap_err().msg,
        "either 'points' or 'filter' must be provided"
    );
}

#[test]
fn identities_read_back() {
    assert!(matches!(parse_point_id("17"), PointId::Num(17)));
    assert!(matches!(parse_point_id("a-b"), PointId::Uuid(_)));
    assert!(matches!(
        parse_point_id("18446744073709551616"),
        PointId::Uuid(_)
    ));
    assert_eq!(parse_point_id("a-b").as_string(), "a-b");
    assert_eq!(PointId::Num(18446744073709551615).as_string(), "18446744073709551615");
}

fn two_rows() -> Vec<StoredRow> {
    vec![
        stored(
            Some("1"),
            &[1.0, 0.0],
            &[
                ("_id", Some(text("1"))),
                ("city", Some(text("London"))),
                ("n", None),
                ("distance", Some(number("3"))),
            ],
        ),
        stored(None, &[0.0, 1.0], &[("city", Some(text("Nowhere")))]),
        stored(Some("x"), &[0.0, 1.0], &[("city", Some(text("Paris")))]),
    ]
}

#[test]
fn rows_become_points() {
    let points = batch_to_retrieved(two_rows(), &WithPayload::Bool(true), true);
    assert_eq!(points.len(), 2);
    assert!(matches!(points[0].id, PointId::Num(1)));
    let fields = points[0].payload.as_ref().unwrap();
    assert_eq!(fields.items.len(), 1);
    assert_eq!(shown(fields.get("city").unwrap()), "'London'");
    assert_eq!(points[0].vector, Some(bits(&[1.0, 0.0])));
    let bare = batch_to_retrieved(two_rows(), &WithPayload::Bool(false), false);
    assert!(bare[0].payload.is_none());
    assert!(bare[0].vector.is_none());
    let wanted = keep_wanted(points, &vec![PointId::Uuid("x".to_string())]);
    assert_eq!(wanted.len(), 1);
    assert_eq!(single_point(wanted).unwrap().id.as_string(), "x");
    let none = single_point(vec![]).unwrap_err();
    assert_eq!(none.msg, "Point not found");
    assert_eq!(none.status, ErrorStatus::NotFound);
}

#[test]
fn payloads_are_cut_to_what_is_asked_for() {
    let only = WithPayload::Selector(PayloadSelector {
        included: Some(vec!["n".to_string()]),
        excluded: None,
    });
    assert!(only.enabled());
    assert!(only.keep("n"));
    assert!(!only.keep("city"));
    let but = WithPayload::Selector(PayloadSelector {
        included: None,
        excluded: Some(vec!["n".to_string()]),
    });
    assert!(!but.keep("n"));
    assert!(but.keep("city"));
    assert!(WithVector::Bool(true).enabled());
    assert!(!WithVector::Bool(false).enabled());
}

#[test]
fn payload_changes_take_effect() {
    let before = || payload(&[("city", "London")]);
    let set = PayloadOp::Merge(payload(&[("tag", "x")])).apply(before());
    assert_eq!(shown(set.get("city").unwrap()), "'London'");
    assert_eq!(shown(set.get("tag").unwrap()), "'x'");
    let over = PayloadOp::Overwrite(payload(&[("only", "y")])).apply(before());
    assert!(over.get("city").is_none());
    assert_eq!(shown(over.get("only").unwrap()), "'y'");
    let less = PayloadOp::DeleteKeys(vec!["city".to_string()]).apply(before());
    assert!(less.items.is_empty());
    let clear = PayloadOp::Clear.apply(before());
    assert!(clear.items.is_empty());
    let rows = point_rows(two_rows());
    let changed = change_payloads(rows, &PayloadOp::Merge(payload(&[("tag", "x")])));
    assert_eq!(changed.len(), 2);
    assert_eq!(
        shown(changed[0].payload.as_ref().unwrap().get("tag").unwrap()),
        "'x'"
    );
}

#[test]
fn vector_changes_keep_the_payload() {
    let rows = point_rows(two_rows());
    let changed = change_vectors(
        vec![
            PointVectors {
                id: PointId::Num(1),
                vector: VectorInput::Single(bits(&[0.0, 0.5])),
            },
            PointVectors {
                id: PointId::Num(9),
                vector: VectorInput::Named(vec![("vector".to_string(), bits(&[2.0]))]),
            },
        ],
        rows,
    );
    assert_eq!(
        changed[0].vector.as_ref().unwrap().primary().unwrap(),
        &bits(&[0.0, 0.5])
    );
    assert_eq!(
        shown(changed[0].payload.as_ref().unwrap().get("city").unwrap()),
        "'London'"
    );
    assert!(changed[1].payload.as_ref().unwrap().items.is_empty());
    assert_eq!(
        changed[1].vector.as_ref().unwrap().primary().unwrap(),
        &bits(&[2.0])
    );
}

#[test]
fn points_become_documents() {
    let points = vec![PointStruct {
        id: PointId::Num(5),
        vector: Some(VectorInput::Single(bits(&[1.0]))),
        payload: Some(payload(&[("_id", "overwritten"), ("city", "Rome")])),
    }];
    let docs = points_to_docs(&points);
    assert_eq!(docs.len(), 1);
    assert!(docs[0].get("city").is_some());
    assert!(matches!(docs[0].get("vector"), Some(DocValue::Vector(_))));
    assert_eq!(replaced_filter(&points), "_id IN ('5')");
}

#[test]
fn the_last_point_of_an_identity_counts() {
    let point = |id: PointId, city: &str| PointStruct {
        id,
        vector: None,
        payload: Some(payload(&[("city", city)])),
    };
    let points = vec![
        point(PointId::Num(1), "Rome"),
        point(PointId::Num(2), "Oslo"),
        point(PointId::Uuid("1".to_string()), "Bern"),
    ];
    let docs = points_to_docs(&points);
    assert_eq!(docs.len(), 2);
    let city = |k: usize| match docs[k].get("city") {
        Some(DocValue::Json(j)) => shown(j),
        other => panic!("{other:?}"),
    };
    assert_eq!(city(0), "'Oslo'");
    assert_eq!(city(1), "'Bern'");
}

#[test]
fn every_mention_of_a_point_keeps_its_payload() {
    let change = |x: f32| PointVectors {
        id: PointId::Num(1),
        vector: VectorInput::Single(bits(&[x])),
    };
    let changed = change_vectors(vec![change(1.0), change(2.0)], point_rows(two_rows()));
    for p in &changed {
        assert_eq!(
            shown(p.payload.as_ref().unwrap().get("city").unwrap()),
            "'London'"
        );
    }
    assert_eq!(points_to_docs(&changed).len(), 1);
}

#[test]
fn batches_are_taken_apart() {
    let set = batch_step(BatchOperation::SetPayload {
        set_payload: SetPayloadRequest {
            payload: payload(&[("z", "1")]),
            points: Some(vec![PointId::Num(3)]),
            filter: None,
        },
    });
    assert!(matches!(
        set,
        WriteStep::Change {
            op: PayloadOp::Merge(_),
            ..
        }
    ));
    let upsert = batch_step(BatchOperation::Upsert {
        upsert: PointsBatch { points: vec![] },
    });
    assert!(matches!(upsert, WriteStep::Upsert(_)));
    let delete = batch_step(BatchOperation::Delete {
        delete: DeletePointsRequest {
            points: None,
            filter: None,
        },
    });
    assert!(matches!(delete, WriteStep::Delete { .. }));
}

#[test]
fn aliases_are_created_renamed_and_deleted() {
    let mut aliases: TextMap<String> = TextMap { items: vec![] };
    update_aliases(
        &mut aliases,
        vec![AliasAction::Create {
            create_alias: CreateAlias {
                collection_name: "demo".to_string(),
                alias_name: "demo_alias".to_string(),
            },
        }],
    );
    let list = list_aliases(&aliases);
    assert_eq!(list.aliases[0].alias_name, "demo_alias");
    assert_eq!(list.aliases[0].collection_name, "demo");
    assert_eq!(resolve(&aliases, "demo_alias"), "demo");
    assert_eq!(resolve(&aliases, "other"), "other");
    update_aliases(
        &mut aliases,
        vec![AliasAction::Rename {
            rename_alias: RenameAlias {
                old_alias_name: "demo_alias".to_string(),
                new_alias_name: "demo_alias2".to_string(),
            },
        }],
    );
    assert_eq!(list_aliases(&aliases).aliases[0].alias_name, "demo_alias2");
    let kept = drop_aliases_of(
        TextMap {
            items: vec![
                ("a".to_string(), "demo".to_string()),
                ("b".to_string(), "other".to_string()),
            ],
        },
        "demo",
    );
    assert_eq!(list_aliases(&kept).aliases.len(), 1);
    update_aliases(
        &mut aliases,
        vec![AliasAction::Delete {
            delete_alias: DeleteAlias {
                alias_name: "demo_alias2".to_string(),
            },
        }],
    );
    assert_eq!(list_aliases(&aliases).aliases.len(), 0);
}

fn scored(id: u64, score: f32) -> ScoredPoint {
    ScoredPoint {
        id: PointId::Num(id),
        version: 0,
        score: score.to_bits(),
        payload: None,
        vector: Some(bits(&[score])),
    }
}

fn ids(points: &[ScoredPoint]) -> Vec<String> {
    points.iter().map(|p| p.id.as_string()).collect()
}

#[test]
fn results_come_best_first() {
    let points = || vec![scored(1, 0.5), scored(2, -1.0), scored(3, 2.0), scored(10, 0.5)];
    let best = search_page(points(), false, None, 0, 10);
    assert_eq!(ids(&best), ["2", "1", "10", "3"]);
    let best = search_page(points(), true, None, 0, 10);
    assert_eq!(ids(&best), ["3", "1", "10", "2"]);
    let page = search_page(points(), true, None, 1, 2);
    assert_eq!(ids(&page), ["1", "10"]);
    let good = search_page(points(), true, Some(0.5f32.to_bits()), 0, 10);
    assert_eq!(ids(&good), ["3", "1", "10"]);
    let near = search_page(points(), false, Some(0.0f32.to_bits()), 0, 10);
    assert_eq!(ids(&near), ["2"]);
    let none = search_page(points(), true, Some(f32::NAN.to_bits()), 0, 10);
    assert!(none.is_empty());
    let zeros = search_page(vec![scored(2, 0.0), scored(1, -0.0)], false, None, 0, 10);
    assert_eq!(ids(&zeros), ["1", "2"]);
    let bits = |id: u64, score: u32| ScoredPoint {
        score,
        ..scored(id, 0.0)
    };
    for higher in [false, true] {
        let unknown = search_page(
            vec![bits(3, 0x7fc0_0001), bits(2, 0xffc0_0000), bits(1, 0x7fc0_0000)],
            higher,
            None,
            0,
            10,
        );
        assert_eq!(ids(&unknown), ["1", "2", "3"]);
    }
    assert_eq!(search_depth(None, Some(5)), 15);
    assert_eq!(limit_or_default(Some(0)), 1);
}

#[test]
fn found_rows_keep_their_score() {
    let rows = two_rows()
        .into_iter()
        .map(|row| FoundRow {
            row,
            score: 1.5f32.to_bits(),
        })
        .collect();
    let points = batch_to_scored(rows, &WithPayload::Bool(true), false);
    assert_eq!(points.len(), 2);
    assert_eq!(points[1].score, 1.5f32.to_bits());
    assert_eq!(points[1].version, 0);
    assert!(points[1].vector.is_none());
}

fn retrieved(id: &str) -> RetrievedPoint {
    RetrievedPoint {
        id: parse_point_id(id),
        payload: None,
        vector: None,
    }
}

#[test]
fn pages_follow_one_another() {
    let points = || vec![retrieved("3"), retrieved("1"), retrieved("b"), retrieved("2")];
    let first = scroll(points(), Some(2), None);
    assert_eq!(first.points.len(), 2);
    assert_eq!(first.points[1].id.as_string(), "2");
    let second = scroll(points(), Some(2), first.next_page_offset);
    let names: Vec<String> = second.points.iter().map(|p| p.id.as_string()).collect();
    assert_eq!(names, ["3", "b"]);
    let third = scroll(points(), Some(2), second.next_page_offset);
    assert!(third.points.is_empty());
    assert!(third.next_page_offset.is_none());
    let unknown = scroll(points(), None, Some(PointId::Num(99)));
    assert_eq!(unknown.points.len(), 4);
    let plain = without_score(unknown.points);
    assert_eq!(plain[0].score, 0);
}

#[test]
fn scrolling_visits_every_point_once() {
    let points = || vec![retrieved("3"), retrieved("1"), retrieved("b"), retrieved("2")];
    for limit in 1..6 {
        let mut names: Vec<String> = Vec::new();
        let mut offset = None;
        let mut pages = 0;
        loop {
            let page = scroll(points(), Some(limit), offset);
            names.extend(page.points.iter().map(|p| p.id.as_string()));
            pages += 1;
            match page.next_page_offset {
                Some(next) => offset = Some(next),
                None => break,
            }
        }
        assert_eq!(names, ["1", "2", "3", "b"]);
        assert_eq!(pages, 4 / limit + 1);
    }
}

#[test]
fn discoveries_stay_on_the_good_side() {
    let points = vec![scored(1, 1.0), scored(2, 2.0), scored(3, 3.0)];
    let closer = vec![vec![true, true], vec![true, false], vec![true, true]];
    let found = discover_results(points, &closer, 5, false);
    assert_eq!(ids(&found), ["1", "3"]);
    assert!(found[0].vector.is_none());
    let first = discover_results(vec![scored(1, 1.0), scored(2, 2.0)], &vec![vec![], vec![]], 1, true);
    assert_eq!(ids(&first), ["1"]);
    assert!(first[0].vector.is_some());
}

#[test]
fn examples_have_one_dimension() {
    assert_eq!(example_dimension(&vec![4, 4], &vec![4]).unwrap(), 4);
    assert_eq!(
        example_dimension(&vec![], &vec![]).unwrap_err().msg,
        "'positive' must contain at least one vector"
    );
    assert_eq!(
        example_dimension(&vec![4], &vec![3]).unwrap_err().msg,
        "inconsistent vector dimensions"
    );
}

#[test]
fn queries_have_one_vector() {
    let plain = QueryInput::Nearest(vec![1, 2]);
    assert_eq!(plain.vector(), &vec![1, 2]);
    let object = QueryInput::NearestObj { nearest: vec![3] };
    assert_eq!(object.vector(), &vec![3]);
}

#[test]
fn lists_of_conditions_are_lists() {
    let id = |n: u64| Condition::HasId {
        has_id: vec![PointId::Num(n)],
    };
    let one = ConditionList::One(Box::new(id(1))).into_vec();
    assert_eq!(one.len(), 1);
    assert!(matches!(&one[0], Condition::HasId { has_id } if matches!(has_id[0], PointId::Num(1))));
    assert_eq!(ConditionList::Many(vec![id(1), id(2)]).into_vec().len(), 2);
}
