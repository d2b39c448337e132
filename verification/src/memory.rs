//! Heap memory discipline for long-lived processes.

use vstd::prelude::*;

use crate::resources;

verus! {

/// Returns freed heap pages to the operating system. The allocator does so by
/// itself, so nothing is left to release.
pub fn trim_heap() -> (r: bool)
    ensures
        !r,
{
    false
}

/// The resident set size in bytes, in the text of `/proc/self/status`.
pub open spec fn rss_in(status: Seq<char>) -> Option<int> {
    resources::kilobytes(status, "VmRSS:"@)
}

/// The resident set size in bytes, given the text of `/proc/self/status` where
/// it can be read.
pub fn rss_bytes(status: Option<&str>) -> (r: Option<u64>)
    requires
        status matches Some(s) ==> (rss_in(s@) matches Some(n) ==> n <= u64::MAX),
    ensures
        match (status, r) {
            (Some(s), Some(n)) => rss_in(s@) == Some(n as int),
            (Some(s), None) => rss_in(s@) is None,
            (None, _) => r is None,
        },
{
    match status {
        Some(s) => resources::kilobyte_field(s, "VmRSS:"),
        None => None,
    }
}

/// Trimming of the heap in a long-running loop, whenever the resident set size
/// is over a budget.
#[derive(Debug, Clone, Copy, PartialEq, Eq, Structural)]
pub struct HeapTrimPolicy {
    pub budget: u64,
    pub trim_count: u64,
    pub released: u64,
}

/// The resident set size is known and over the budget.
pub open spec fn over_budget(rss: Option<u64>, budget: u64) -> bool {
    rss matches Some(n) && n > budget
}

/// How much less the second size is than the first.
pub open spec fn released_between(before: Option<u64>, after: Option<u64>) -> int {
    match (before, after) {
        (Some(b), Some(a)) => if a < b {
            b - a
        } else {
            0
        },
        _ => 0,
    }
}

/// A policy after it was asked, with the memory in use before and after.
pub open spec fn after_trim(
    p: HeapTrimPolicy,
    before: Option<u64>,
    after: Option<u64>,
) -> HeapTrimPolicy {
    if over_budget(before, p.budget) {
        HeapTrimPolicy {
            budget: p.budget,
            trim_count: (p.trim_count + 1) as u64,
            released: (p.released + released_between(before, after)) as u64,
        }
    } else {
        p
    }
}

impl HeapTrimPolicy {
    /// A policy that trims whenever the resident set size exceeds a budget.
    pub fn new(budget_bytes: u64) -> (r: Self)
        ensures
            r == (HeapTrimPolicy { budget: budget_bytes, trim_count: 0, released: 0 }),
    {
        HeapTrimPolicy { budget: budget_bytes, trim_count: 0, released: 0 }
    }

    /// The policy of an explicit budget, else that of the environment. None
    /// where neither is set.
    pub fn from_budget_or_env(budget_bytes: Option<u64>, env_budget: Option<u64>) -> (r: Option<
        Self,
    >)
        ensures
            r == match (budget_bytes, env_budget) {
                (Some(b), _) => Some(HeapTrimPolicy { budget: b, trim_count: 0, released: 0 }),
                (None, Some(b)) => Some(HeapTrimPolicy { budget: b, trim_count: 0, released: 0 }),
                (None, None) => None,
            },
    {
        match budget_bytes {
            Some(b) => Some(HeapTrimPolicy::new(b)),
            None => match env_budget {
                Some(b) => Some(HeapTrimPolicy::new(b)),
                None => None,
            },
        }
    }

    /// Trims if the resident set size before is over the budget, and counts the
    /// trim and what it released. Says whether a trim ran.
    pub fn maybe_trim(&mut self, rss_before: Option<u64>, rss_after: Option<u64>) -> (r: bool)
        requires
            old(self).trim_count < u64::MAX,
            old(self).released + released_between(rss_before, rss_after) <= u64::MAX,
        ensures
            r == over_budget(rss_before, old(self).budget),
            *final(self) == after_trim(*old(self), rss_before, rss_after),
    {
        match rss_before {
            Some(rss) => {
                if rss <= self.budget {
                    return false;
                }
                let _ = trim_heap();
                self.trim_count = self.trim_count + 1;
                match rss_after {
                    Some(after) => {
                        if after < rss {
                            self.released = self.released + (rss - after);
                        }
                    },
                    None => {},
                }
                true
            },
            None => false,
        }
    }

    /// The number of trims.
    pub fn trims(&self) -> (r: u64)
        ensures
            r == self.trim_count,
    {
        self.trim_count
    }

    /// The bytes released by all trims.
    pub fn released_bytes(&self) -> (r: u64)
        ensures
            r == self.released,
    {
        self.released
    }

    /// The budget.
    pub fn budget_bytes(&self) -> (r: u64)
        ensures
            r == self.budget,
    {
        self.budget
    }
}

/// Memory is released exactly where more than the budget is known to be in use. Each time is
/// counted, and so are the bytes by which the use falls; a use that grows counts for none, and
/// the budget stays.
pub proof fn law_memory_above_the_budget_is_released(
    p: HeapTrimPolicy,
    before: u64,
    after: u64,
    reading: Option<u64>,
)
    requires
        p.trim_count < u64::MAX,
        p.released + before <= u64::MAX,
    ensures
        after_trim(p, None, reading) == p,
        before <= p.budget ==> after_trim(p, Some(before), reading) == p,
        before > p.budget ==> after_trim(p, Some(before), reading).trim_count == p.trim_count + 1,
        before > p.budget && after <= before ==> after_trim(p, Some(before), Some(after)).released
            - p.released == before - after,
        before > p.budget && after > before ==> after_trim(p, Some(before), Some(after)).released
            == p.released,
        after_trim(p, Some(before), reading).budget == p.budget,
{
}

} // verus!
