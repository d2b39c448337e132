use benostreamdb::resources::{
    cgroup_limit_files, cgroup_memory_limit_bytes, check_min_free_disk, effective_memory_bytes,
    free_disk_bytes, free_disk_bytes_for_new_file, host_available_memory_bytes, host_memory_bytes,
    kilobyte_field, parse_cgroup_limit, rlimit_address_space_bytes, total_memory_bytes,
    usable_memory_bytes, DiskProbe, LowDisk, MemoryReadings, FALLBACK_MEMORY_BYTES,
};

const MEMINFO: &str =
    "MemTotal:       16384000 kB\nMemFree:         1000000 kB\nMemAvailable:    8192000 kB\n";

fn readings(limit: Option<&str>, address_space: Option<u64>, meminfo: Option<&str>) -> MemoryReadings {
    MemoryReadings {
        cgroup_files: vec![limit.map(|s| s.to_string())],
        address_space,
        meminfo: meminfo.map(|s| s.to_string()),
    }
}

#[test]
fn parse_cgroup_limit_handles_unlimited_forms() {
    assert_eq!(parse_cgroup_limit("max"), None);
    assert_eq!(parse_cgroup_limit("  max\n"), None);
    assert_eq!(parse_cgroup_limit(""), None);
    assert_eq!(parse_cgroup_limit("0"), None);
    assert_eq!(parse_cgroup_limit("9223372036854771712"), None);
}

#[test]
fn parse_cgroup_limit_reads_real_limits() {
    assert_eq!(
        parse_cgroup_limit("4294967296"),
        Some(4 * 1024 * 1024 * 1024)
    );
    assert_eq!(
        parse_cgroup_limit("  2147483648\n"),
        Some(2 * 1024 * 1024 * 1024)
    );
    assert_eq!(parse_cgroup_limit("not-a-number"), None);
}

#[test]
fn effective_memory_is_always_positive() {
    assert!(effective_memory_bytes(&readings(None, None, None)) >= FALLBACK_MEMORY_BYTES);
    assert!(effective_memory_bytes(&readings(None, None, Some(MEMINFO))) >= FALLBACK_MEMORY_BYTES);
}

#[test]
fn rlimit_ceiling_is_plausible_when_present() {
    for current in [None, Some(0), Some(8 << 30), Some(1 << 60), Some(u64::MAX)] {
        if let Some(bytes) = rlimit_address_space_bytes(current) {
            assert!(bytes > 0 && bytes < (1u64 << 60));
        }
    }
    assert_eq!(rlimit_address_space_bytes(Some(8 << 30)), Some(8 << 30));
}

#[test]
fn total_memory_is_detected_on_this_platform() {
    assert!(total_memory_bytes(&readings(None, None, Some(MEMINFO))).is_some());
    assert_eq!(
        total_memory_bytes(&readings(None, None, Some(MEMINFO))),
        Some(16384000 * 1024)
    );
}

#[test]
fn usable_memory_is_positive_and_no_more_than_total() {
    for r in [
        readings(None, None, Some(MEMINFO)),
        readings(Some("4294967296"), None, Some(MEMINFO)),
        readings(Some("max"), Some(1 << 30), Some(MEMINFO)),
    ] {
        let usable = usable_memory_bytes(&r).expect("usable memory should be detectable");
        assert!(usable > 0, "usable memory must be positive, got {usable}");
        if let Some(total) = total_memory_bytes(&r) {
            assert!(
                usable <= total,
                "usable ({usable}) must not exceed total ({total})"
            );
        }
    }
}

#[test]
fn limits_of_a_container_are_kept() {
    let r = readings(Some("4294967296"), None, Some(MEMINFO));
    assert_eq!(total_memory_bytes(&r), Some(4294967296));
    assert_eq!(usable_memory_bytes(&r), Some(4294967296));
    assert_eq!(host_memory_bytes(&r), Some(16384000 * 1024));
    assert_eq!(host_available_memory_bytes(&r), Some(8192000 * 1024));
    assert_eq!(
        effective_memory_bytes(&readings(None, None, None)),
        FALLBACK_MEMORY_BYTES
    );
}

#[test]
fn the_first_limit_of_a_group_counts() {
    assert_eq!(
        cgroup_memory_limit_bytes(&vec![
            Some("max".to_string()),
            None,
            Some("4096".to_string()),
            Some("1024".to_string()),
        ]),
        Some(4096)
    );
    assert_eq!(cgroup_memory_limit_bytes(&vec![None]), None);
    assert!(!cgroup_limit_files(None).is_empty());
    assert!(cgroup_limit_files(Some("0::/user.slice/app\n"))
        .iter()
        .any(|f| f.contains("/user.slice/app/memory.max")));
}

#[test]
fn fields_are_read_in_kilobytes() {
    assert_eq!(kilobyte_field(MEMINFO, "MemFree:"), Some(1000000 * 1024));
    assert_eq!(kilobyte_field(MEMINFO, "SwapFree:"), None);
}

#[test]
fn free_disk_bytes_is_reported_for_root() {
    let bytes = free_disk_bytes(Some((1_000_000, 4096)));
    assert!(bytes.is_some(), "root filesystem should be queryable");
    assert!(bytes.unwrap_or(0) > 0, "free space should be positive");
    assert_eq!(bytes, Some(4_096_000_000));
    assert_eq!(free_disk_bytes(Some((u64::MAX, 2))), Some(u64::MAX));
    assert_eq!(free_disk_bytes(None), None);
}

#[test]
fn free_disk_bytes_walks_up_from_missing_path() {
    let missing = DiskProbe {
        exists: false,
        blocks: None,
    };
    let tmp = DiskProbe {
        exists: true,
        blocks: Some((10, 4096)),
    };
    let found = free_disk_bytes_for_new_file(&vec![missing, missing, missing, tmp]);
    assert!(
        found.is_some(),
        "should resolve via the nearest existing ancestor"
    );
    assert_eq!(found, Some(40_960));
}

#[test]
fn check_is_fail_open_when_free_space_is_unknown() {
    assert!(check_min_free_disk(None, 1 << 30).is_ok());
    assert!(check_min_free_disk(Some(u64::MAX), 1 << 30).is_ok());
    assert_eq!(
        check_min_free_disk(Some(5), 10),
        Err(LowDisk {
            free_bytes: 5,
            min_bytes: 10
        })
    );
}
