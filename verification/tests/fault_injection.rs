use benostreamdb::fault_injection::{
    arm, armed, check, disarm, hits, reset_hits, CrashPoint, FaultInjector,
};

#[test]
fn disarmed_check_is_ok() {
    let mut faults = FaultInjector::new();
    disarm(&mut faults);
    assert!(check(&mut faults, CrashPoint::ManifestCommit).is_ok());
    assert!(armed(&faults).is_none());
}

#[test]
fn armed_check_fires_once_then_disarms() {
    let mut faults = FaultInjector::new();
    reset_hits(&mut faults);
    arm(&mut faults, CrashPoint::WalFlush);
    assert!(check(&mut faults, CrashPoint::WalFlush).is_err());
    assert!(check(&mut faults, CrashPoint::WalFlush).is_ok());
    assert!(armed(&faults).is_none());
    assert_eq!(hits(&faults), 1);
    disarm(&mut faults);
}

#[test]
fn armed_point_does_not_fire_at_other_points() {
    let mut faults = FaultInjector::new();
    reset_hits(&mut faults);
    arm(&mut faults, CrashPoint::DataUpload);
    assert!(check(&mut faults, CrashPoint::ManifestCommit).is_ok());
    assert!(check(&mut faults, CrashPoint::DataUpload).is_err());
    disarm(&mut faults);
}

#[test]
fn all_points_round_trip_through_u8() {
    for p in CrashPoint::all() {
        assert_eq!(CrashPoint::from_u8(p.to_u8()), p);
        assert_ne!(p.as_str(), "none");
    }
}

#[test]
fn unknown_codes_are_disarmed() {
    assert_eq!(CrashPoint::from_u8(0), CrashPoint::Disarmed);
    assert_eq!(CrashPoint::from_u8(200), CrashPoint::Disarmed);
    assert_eq!(CrashPoint::Disarmed.as_str(), "none");
}

#[test]
fn crashes_name_their_point() {
    let mut faults = FaultInjector::new();
    arm(&mut faults, CrashPoint::WalFlush);
    let crash = check(&mut faults, CrashPoint::WalFlush).unwrap_err();
    assert_eq!(crash.point, CrashPoint::WalFlush);
    assert!(crash.message().contains(CrashPoint::WalFlush.as_str()));
}
