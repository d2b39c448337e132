use benostreamdb::index::nvrtc::{
    best_in_dir, compile_ptx, is_nvrtc_lib, names_with_prefix, nvidia_lib_dirs, python_prefixes,
    resolve_nvrtc, site_packages_above, version_rank, CompilerRun,
};

fn texts(list: &[&str]) -> Vec<String> {
    list.iter().map(|s| s.to_string()).collect()
}

#[test]
fn version_rank_orders_cuda_versions() {
    assert!(version_rank("libnvrtc.so.13") > version_rank("libnvrtc.so.12"));
    assert!(version_rank("libnvrtc.so.12") > version_rank("libnvrtc.so.11"));
    assert!(version_rank("libnvrtc.so.12") > version_rank("libnvrtc.so"));
    assert_eq!(version_rank("libnvrtc.so.13"), 130_000);
    assert_eq!(version_rank("libnvrtc64_120_0.so"), 120_000);
    assert_eq!(version_rank("libnvrtc64_1200.so"), 120_000);
    assert_eq!(version_rank("libnvrtc64_13.so"), 130_000);
}

#[test]
fn is_nvrtc_lib_excludes_builtins() {
    assert!(is_nvrtc_lib("libnvrtc.so.13"));
    assert!(is_nvrtc_lib("libnvrtc64_120_0.so"));
    assert!(!is_nvrtc_lib("libnvrtc-builtins.so.13.0"));
    assert!(!is_nvrtc_lib("libcudart.so.13"));
}

#[test]
fn the_newest_library_is_chosen() {
    let names = texts(&[
        "libcudart.so.13",
        "libnvrtc.so.11",
        "libnvrtc.so.12",
        "libnvrtc-builtins.so.13.0",
    ]);
    assert_eq!(best_in_dir(&names), Some(2));
    assert_eq!(best_in_dir(&texts(&["libcudart.so.13"])), None);
    let dirs = vec![texts(&["libnvrtc.so.11"]), names, texts(&[])];
    assert_eq!(resolve_nvrtc(&dirs), Some((1, 2)));
    assert_eq!(resolve_nvrtc(&vec![texts(&[])]), None);
}

#[test]
fn packages_lead_to_library_directories() {
    assert_eq!(
        nvidia_lib_dirs(&texts(&["/v/nvidia/cuda_nvrtc"])),
        texts(&["/v/nvidia/cuda_nvrtc/lib"])
    );
    assert_eq!(
        names_with_prefix(&texts(&["python3.11", "pip", "python3"]), "python"),
        texts(&["python3.11", "python3"])
    );
    assert_eq!(
        site_packages_above("/v/lib/python3/site-packages/pkg/mod.so"),
        Some("/v/lib/python3/site-packages".to_string())
    );
    assert_eq!(site_packages_above("/usr/lib/mod.so"), None);
}

#[test]
fn prefixes_follow_the_environment() {
    let all = python_prefixes(
        Some("/venv".to_string()),
        None,
        Some("/home/u".to_string()),
    );
    assert_eq!(
        all,
        texts(&["/venv", "/home/u/.local", "/usr", "/usr/local"])
    );
}

fn run(create: i32, compile: i32, size: i32, fetch: i32) -> CompilerRun {
    CompilerRun {
        create,
        compile,
        log: "bad kernel".to_string(),
        size,
        fetch,
        code: ".version 8.0".to_string(),
    }
}

#[test]
fn compilations_report_what_failed() {
    assert_eq!(
        compile_ptx(Some(run(0, 0, 0, 0))),
        Ok(".version 8.0".to_string())
    );
    assert!(compile_ptx(None).is_err());
    assert!(compile_ptx(Some(run(1, 0, 0, 0))).is_err());
    let log = compile_ptx(Some(run(0, 6, 0, 0))).unwrap_err();
    assert!(log.contains("bad kernel"));
    assert!(compile_ptx(Some(run(0, 0, 2, 0))).is_err());
    assert!(compile_ptx(Some(run(0, 0, 0, 3))).is_err());
}

#[test]
fn ranks_order_versions() {
    let names = ["libnvrtc.so", "libnvrtc.so.9.2", "libnvrtc.so.12", "libnvrtc.so.12.2"];
    for pair in names.windows(2) {
        assert!(version_rank(pair[0]) < version_rank(pair[1]), "{pair:?}");
    }
}
