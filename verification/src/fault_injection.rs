//! Deterministic fault injection for crash-recovery testing.
//!
//! A crash is modelled as a named boundary that aborts the operation with an
//! error at exactly the point at which a killed process would stop. The
//! injector is an explicit value: whoever runs the operation owns it and hands
//! it to every instrumented boundary.

use vstd::prelude::*;
use vstd::string::*;

verus! {

/// A named crash boundary in the write, commit and maintenance lifecycle.
///
/// The codes of [`CrashPoint::to_u8`] are stable: new points are appended,
/// never renumbered.
#[derive(Debug, Clone, Copy, PartialEq, Eq, Structural)]
pub enum CrashPoint {
    /// No injection armed.
    Disarmed,
    /// After a batch is appended to the WAL, before it is fsynced.
    WalAppend,
    /// After the WAL is fsynced, before the manifest commit.
    WalFlush,
    /// After the manifest commit, before the WAL is truncated.
    WalTruncate,
    /// After data files are staged, before they are uploaded to the store.
    DataUpload,
    /// After index files are built, before they are uploaded.
    IndexUpload,
    /// Immediately before the manifest commit (the atomic publish point).
    ManifestCommit,
    /// Immediately after the manifest commit returns (visibility delay).
    ManifestVisible,
    /// At the start of a compaction, before any new file is written.
    CompactionStart,
    /// After compaction files are written, before the manifest swap.
    CompactionManifestSwap,
    /// At the start of a vacuum, before any artifact is deleted.
    VacuumStart,
    /// After the vacuum has decided what to delete, before deleting it.
    VacuumDelete,
}

impl CrashPoint {
    /// The stable code of the point.
    pub open spec fn code(self) -> u8 {
        match self {
            CrashPoint::Disarmed => 0,
            CrashPoint::WalAppend => 1,
            CrashPoint::WalFlush => 2,
            CrashPoint::WalTruncate => 3,
            CrashPoint::DataUpload => 4,
            CrashPoint::IndexUpload => 5,
            CrashPoint::ManifestCommit => 6,
            CrashPoint::ManifestVisible => 7,
            CrashPoint::CompactionStart => 8,
            CrashPoint::CompactionManifestSwap => 9,
            CrashPoint::VacuumStart => 10,
            CrashPoint::VacuumDelete => 11,
        }
    }

    /// The stable name of the point.
    pub open spec fn name(self) -> Seq<char> {
        match self {
            CrashPoint::Disarmed => "none"@,
            CrashPoint::WalAppend => "wal_append"@,
            CrashPoint::WalFlush => "wal_flush"@,
            CrashPoint::WalTruncate => "wal_truncate"@,
            CrashPoint::DataUpload => "data_upload"@,
            CrashPoint::IndexUpload => "index_upload"@,
            CrashPoint::ManifestCommit => "manifest_commit"@,
            CrashPoint::ManifestVisible => "manifest_visible"@,
            CrashPoint::CompactionStart => "compaction_start"@,
            CrashPoint::CompactionManifestSwap => "compaction_manifest_swap"@,
            CrashPoint::VacuumStart => "vacuum_start"@,
            CrashPoint::VacuumDelete => "vacuum_delete"@,
        }
    }

    /// Every injectable boundary, in lifecycle order.
    pub fn all() -> (r: Vec<CrashPoint>)
        ensures
            r.len() == 11,
            forall|i: int| 0 <= i < 11 ==> (#[trigger] r@[i]).code() == i + 1,
    {
        vec![
            CrashPoint::WalAppend,
            CrashPoint::WalFlush,
            CrashPoint::WalTruncate,
            CrashPoint::DataUpload,
            CrashPoint::IndexUpload,
            CrashPoint::ManifestCommit,
            CrashPoint::ManifestVisible,
            CrashPoint::CompactionStart,
            CrashPoint::CompactionManifestSwap,
            CrashPoint::VacuumStart,
            CrashPoint::VacuumDelete,
        ]
    }

    /// Stable, human-readable name (also used in the injected error message).
    pub fn as_str(&self) -> (r: &'static str)
        ensures
            r@ == self.name(),
    {
        match self {
            CrashPoint::Disarmed => "none",
            CrashPoint::WalAppend => "wal_append",
            CrashPoint::WalFlush => "wal_flush",
            CrashPoint::WalTruncate => "wal_truncate",
            CrashPoint::DataUpload => "data_upload",
            CrashPoint::IndexUpload => "index_upload",
            CrashPoint::ManifestCommit => "manifest_commit",
            CrashPoint::ManifestVisible => "manifest_visible",
            CrashPoint::CompactionStart => "compaction_start",
            CrashPoint::CompactionManifestSwap => "compaction_manifest_swap",
            CrashPoint::VacuumStart => "vacuum_start",
            CrashPoint::VacuumDelete => "vacuum_delete",
        }
    }

    /// The stable code of the point.
    pub fn to_u8(&self) -> (r: u8)
        ensures
            r == self.code(),
    {
        match self {
            CrashPoint::Disarmed => 0,
            CrashPoint::WalAppend => 1,
            CrashPoint::WalFlush => 2,
            CrashPoint::WalTruncate => 3,
            CrashPoint::DataUpload => 4,
            CrashPoint::IndexUpload => 5,
            CrashPoint::ManifestCommit => 6,
            CrashPoint::ManifestVisible => 7,
            CrashPoint::CompactionStart => 8,
            CrashPoint::CompactionManifestSwap => 9,
            CrashPoint::VacuumStart => 10,
            CrashPoint::VacuumDelete => 11,
        }
    }

    /// The point with code `v`; an unknown code is no point.
    pub fn from_u8(v: u8) -> (r: CrashPoint)
        ensures
            v <= 11 ==> r.code() == v,
            v > 11 ==> r == CrashPoint::Disarmed,
    {
        match v {
            1 => CrashPoint::WalAppend,
            2 => CrashPoint::WalFlush,
            3 => CrashPoint::WalTruncate,
            4 => CrashPoint::DataUpload,
            5 => CrashPoint::IndexUpload,
            6 => CrashPoint::ManifestCommit,
            7 => CrashPoint::ManifestVisible,
            8 => CrashPoint::CompactionStart,
            9 => CrashPoint::CompactionManifestSwap,
            10 => CrashPoint::VacuumStart,
            11 => CrashPoint::VacuumDelete,
            _ => CrashPoint::Disarmed,
        }
    }
}

/// Two points with the same code are the same point, so a code names at most
/// one point and reading a written code gives the point back.
pub proof fn law_codes_are_distinct(a: CrashPoint, b: CrashPoint)
    ensures
        a.code() == b.code() <==> a == b,
        a.code() <= 11,
{
}

/// The error of an operation that the injector aborted.
#[derive(Debug, Clone, Copy, PartialEq, Eq, Structural)]
pub struct InjectedCrash {
    pub point: CrashPoint,
}

impl InjectedCrash {
    /// The text of the error.
    pub fn message(&self) -> (r: String)
        ensures
            r@ == "injected crash at boundary '"@ + self.point.name() + "'"@,
    {
        let mut r: String = "injected crash at boundary '".to_owned();
        r.append(self.point.as_str());
        r.append("'");
        r
    }
}

/// The armed crash point and the number of injections that have fired.
#[derive(Debug, Clone, Copy, PartialEq, Eq, Structural)]
pub struct FaultInjector {
    pub armed: CrashPoint,
    pub hits: usize,
}

impl FaultInjector {
    /// A disarmed injector that has never fired.
    pub fn new() -> (r: FaultInjector)
        ensures
            r.armed == CrashPoint::Disarmed,
            r.hits == 0,
    {
        FaultInjector { armed: CrashPoint::Disarmed, hits: 0 }
    }
}

/// Arms the injector to fire at `point`. Fires at most once, then disarms
/// itself.
pub fn arm(injector: &mut FaultInjector, point: CrashPoint)
    ensures
        *final(injector) == (FaultInjector { armed: point, hits: old(injector).hits }),
{
    injector.armed = point;
}

/// Disarms the injector.
pub fn disarm(injector: &mut FaultInjector)
    ensures
        *final(injector) == (FaultInjector { armed: CrashPoint::Disarmed, hits: old(injector).hits }),
{
    injector.armed = CrashPoint::Disarmed;
}

/// The currently armed point, if any.
pub fn armed(injector: &FaultInjector) -> (r: Option<CrashPoint>)
    ensures
        r == if injector.armed == CrashPoint::Disarmed {
            None
        } else {
            Some(injector.armed)
        },
{
    match injector.armed {
        CrashPoint::Disarmed => None,
        point => Some(point),
    }
}

/// Number of times an injection has fired.
pub fn hits(injector: &FaultInjector) -> (r: usize)
    ensures
        r == injector.hits,
{
    injector.hits
}

/// Resets the hit counter.
pub fn reset_hits(injector: &mut FaultInjector)
    ensures
        *final(injector) == (FaultInjector { armed: old(injector).armed, hits: 0 }),
{
    injector.hits = 0;
}

/// Whether a check at `point` aborts the operation.
pub open spec fn fires(injector: FaultInjector, point: CrashPoint) -> bool {
    injector.armed != CrashPoint::Disarmed && injector.armed == point
}

/// The injector after a check at `point`.
pub open spec fn after_check(injector: FaultInjector, point: CrashPoint) -> FaultInjector {
    if fires(injector, point) {
        FaultInjector {
            armed: CrashPoint::Disarmed,
            hits: if injector.hits == usize::MAX {
                0
            } else {
                (injector.hits + 1) as usize
            },
        }
    } else {
        injector
    }
}

/// The crash-injection check, called at every boundary.
///
/// When armed for `point` it disarms, counts the hit and returns an error: the
/// operation aborts before its next durable step. Otherwise nothing changes.
pub fn check(injector: &mut FaultInjector, point: CrashPoint) -> (r: Result<(), InjectedCrash>)
    ensures
        *final(injector) == after_check(*old(injector), point),
        r == if fires(*old(injector), point) {
            Err::<(), InjectedCrash>(InjectedCrash { point })
        } else {
            Ok(())
        },
{
    if injector.armed == CrashPoint::Disarmed {
        return Ok(());
    }
    if injector.armed == point {
        injector.armed = CrashPoint::Disarmed;
        injector.hits = injector.hits.wrapping_add(1);
        return Err(InjectedCrash { point });
    }
    Ok(())
}

/// An armed injector fires at its own point, exactly once, and at no other
/// point: after it has fired no check fires, whatever the points are.
pub proof fn law_fires_once(
    injector: FaultInjector,
    point: CrashPoint,
    other: CrashPoint,
    later: CrashPoint,
)
    requires
        injector.armed == point,
        point != CrashPoint::Disarmed,
        other != point,
    ensures
        !fires(injector, other),
        after_check(injector, other) == injector,
        fires(injector, point),
        !fires(after_check(injector, point), later),
        after_check(after_check(injector, point), later) == after_check(injector, point),
{
}

} // verus!
