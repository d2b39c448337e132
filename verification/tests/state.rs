use benostreamdb::catalog::{
    config_file, resolve_catalog, CatalogConfig, CatalogEnvironment, CatalogType, ConfigError,
    ConfigPlaces, TypeSetting,
};
use benostreamdb::search::state::{
    auto_refresh_secs, default_storage_uri, list_indexes, port_or, resolve_storage_uri,
    resolve_wal_durability, socket_text, sorted_names, worker_threads, AppState, TableCache,
    WalDurability,
};
use benostreamdb::textmap::TextMap;

#[test]
fn index_uri_joins_root_and_name() {
    let state = AppState::new("/data/search".to_string(), "uuid".to_string());
    assert_eq!(state.index_uri("people"), "/data/search/people");
}

#[test]
fn index_uri_trims_trailing_slash_on_root() {
    let state = AppState::new("/data/search/".to_string(), "uuid".to_string());
    assert_eq!(state.index_uri("people"), "/data/search/people");
}

#[test]
fn resolve_storage_uri_expands_tilde() {
    let home = "/home/someone";
    assert_eq!(
        resolve_storage_uri(Some("~/searches"), None, Some(home)),
        format!("{home}/searches")
    );
}

#[test]
fn storage_has_a_default() {
    assert_eq!(
        resolve_storage_uri(None, None, Some("/home/u")),
        default_storage_uri(Some("/home/u"))
    );
    assert_eq!(
        resolve_storage_uri(None, Some("s3://bucket/x/"), None),
        "s3://bucket/x"
    );
}

#[test]
fn open_or_create_reports_cache_hits_and_misses() {
    let mut cache = TableCache::new();
    if cache.lookup("mi").is_none() {
        cache.publish("mi");
    }
    assert!(cache.lookup("mi").is_some());
    assert_eq!(cache.hits, 1);
    assert_eq!(cache.misses, 1);
}

#[test]
fn removed_tables_are_opened_again() {
    let mut cache = TableCache::new();
    let slot = cache.publish("a");
    assert_eq!(cache.remove("a"), Some(slot));
    assert_eq!(cache.remove("a"), None);
    assert!(cache.lookup("a").is_none());
}

fn environment(catalog_type: TypeSetting) -> CatalogEnvironment {
    CatalogEnvironment {
        catalog_type,
        url: vec![None],
        token: vec![None],
        credential: vec![None],
        prefix: None,
        catalog_id: None,
        namespace: vec![None],
    }
}

#[test]
fn test_resolve_catalog_lifecycle() {
    assert!(resolve_catalog(environment(TypeSetting::Unset), None).is_none());

    let mut env = environment(TypeSetting::Known(CatalogType::Rest));
    env.url = vec![
        Some("http://localhost:8181/api/catalog/v1".to_string()),
        None,
    ];
    env.namespace = vec![Some("analytics".to_string()), None];
    let resolved = resolve_catalog(env, None);
    assert!(resolved.is_some());
    let plan = resolved.unwrap();
    assert_eq!(plan.namespace, "analytics");
    assert_eq!(
        plan.catalog.config.get("url").unwrap(),
        "http://localhost:8181/api/catalog/v1"
    );
    assert_eq!(
        plan.catalog.config.get("uri").unwrap(),
        "http://localhost:8181/api/catalog/v1"
    );
}

#[test]
fn catalogs_of_a_file_have_a_namespace() {
    let file = CatalogConfig {
        catalog_type: CatalogType::Rest,
        config: TextMap {
            items: vec![("namespace".to_string(), "from_file".to_string())],
        },
    };
    let plan = resolve_catalog(environment(TypeSetting::Unset), Some(file)).unwrap();
    assert_eq!(plan.namespace, "from_file");
    let plain = CatalogConfig {
        catalog_type: CatalogType::Rest,
        config: TextMap { items: vec![] },
    };
    let plan = resolve_catalog(environment(TypeSetting::Unset), Some(plain)).unwrap();
    assert_eq!(plan.namespace, "default");
    assert!(resolve_catalog(environment(TypeSetting::Invalid), None).is_none());
}

#[test]
fn configuration_files_have_an_order() {
    let places = |env: Option<&str>, here: bool, home: Option<Option<&str>>| ConfigPlaces {
        env_file: env.map(|s| s.to_string()),
        in_current_dir: here,
        home_file: home.map(|h| h.map(|s| s.to_string())),
    };
    assert_eq!(config_file(places(Some("/e"), true, None)).unwrap(), "/e");
    assert_eq!(
        config_file(places(None, true, Some(Some("/h")))).unwrap(),
        "benostream.toml"
    );
    assert_eq!(
        config_file(places(None, false, Some(Some("/h")))).unwrap(),
        "/h"
    );
    assert_eq!(
        config_file(places(None, false, Some(None))).unwrap_err(),
        ConfigError::HomeNotUtf8
    );
    assert_eq!(
        config_file(places(None, false, None)).unwrap_err(),
        ConfigError::NotFound
    );
}

#[test]
fn settings_fall_back_to_defaults() {
    assert_eq!(port_or(Some("9300"), 9200), 9300);
    assert_eq!(port_or(Some("none"), 9200), 9200);
    assert_eq!(port_or(None, 6333), 6333);
    assert_eq!(socket_text("127.0.0.1", 9200), "127.0.0.1:9200");
    assert_eq!(worker_threads(Some("3"), Some(16)), 3);
    assert_eq!(worker_threads(None, Some(16)), 8);
    assert_eq!(worker_threads(None, Some(1)), 1);
    assert_eq!(worker_threads(None, None), 1);
    assert_eq!(auto_refresh_secs(Some("5")), Some(5));
    assert_eq!(auto_refresh_secs(Some("0")), None);
    assert_eq!(auto_refresh_secs(None), None);
}

#[test]
fn durability_is_read_from_the_environment() {
    assert_eq!(
        resolve_wal_durability(Some("sync"), None),
        resolve_wal_durability(None, Some("sync"))
    );
    assert_ne!(
        resolve_wal_durability(Some("sync"), None),
        resolve_wal_durability(Some("async"), None)
    );
    let _: WalDurability = resolve_wal_durability(None, None);
}

#[test]
fn names_are_sorted_once() {
    let names: Vec<String> = ["b", "a", "b"].iter().map(|s| s.to_string()).collect();
    assert_eq!(sorted_names(&names), vec!["a".to_string(), "b".to_string()]);
    let none: Vec<String> = Vec::new();
    assert!(list_indexes(&none).is_empty());
}
