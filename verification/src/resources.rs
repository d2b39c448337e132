//! Limits on the memory and disk space that a process may use, derived from
//! what the operating system reports.

use vstd::prelude::*;
use vstd::string::*;

use crate::text;

verus! {

/// The memory budget where no limit can be detected: that of a small container.
pub const FALLBACK_MEMORY_BYTES: u64 = 0x1_0000_0000;

/// Limits from here on mean that there is none.
pub const NO_LIMIT: u64 = 0x1000_0000_0000_0000;

// ---------------------------------------------------------------------------
// Control groups
// ---------------------------------------------------------------------------

/// A limit that counts: zero and the very large stand for none.
pub open spec fn usable_limit(n: int) -> Option<int> {
    if n == 0 || n >= NO_LIMIT {
        None
    } else {
        Some(n)
    }
}

/// The limit in the text of a control group file.
pub open spec fn cgroup_limit(raw: Seq<char>) -> Option<int> {
    let t = text::trimmed(raw);
    if t.len() == 0 || text::lowered(t) == "max"@ {
        None
    } else {
        match text::number(t, u64::MAX as nat) {
            Some(n) => usable_limit(n as int),
            None => None,
        }
    }
}

/// Reads the limit in the text of a control group file: `None` where there is
/// no limit.
pub fn parse_cgroup_limit(raw: &str) -> (r: Option<u64>)
    ensures
        match r {
            Some(n) => cgroup_limit(raw@) == Some(n as int),
            None => cgroup_limit(raw@) is None,
        },
{
    let trimmed: String = text::trim(raw);
    let t: &str = trimmed.as_str();
    if t.is_empty() {
        return None;
    }
    let low: String = text::ascii_lowercase(t);
    if text::same(low.as_str(), "max") {
        return None;
    }
    match text::parse_u64(t) {
        Some(n) => if n == 0 || n >= NO_LIMIT {
            None
        } else {
            Some(n)
        },
        None => None,
    }
}

/// The path of an entry in a directory.
pub open spec fn entry_path(dir: Seq<char>, name: Seq<char>) -> Seq<char> {
    if dir.len() > 0 && dir.last() == '/' {
        dir + name
    } else {
        dir + "/"@ + name
    }
}

/// The file of a control group with a limit: the root's where the group is the
/// root itself.
pub open spec fn limit_file(root: Seq<char>, group: Seq<char>, file: Seq<char>) -> Seq<char> {
    let rel = text::without_leading(text::trimmed(group), '/');
    if rel.len() == 0 {
        entry_path(root, file)
    } else {
        entry_path(entry_path(root, rel), file)
    }
}

fn join_path(dir: &str, name: &str) -> (r: String)
    ensures
        r@ == entry_path(dir@, name@),
{
    let chars: Vec<char> = text::to_chars(dir);
    let mut path: String = dir.to_owned();
    if chars.len() == 0 || chars[chars.len() - 1] != '/' {
        path.append("/");
    }
    path.append(name);
    path
}

fn find_limit_file(root: &str, group: &str, file: &str) -> (r: String)
    ensures
        r@ == limit_file(root@, group@, file@),
{
    let trimmed: String = text::trim(group);
    let rel: String = text::trim_start_char(trimmed.as_str(), '/');
    if rel.as_str().is_empty() {
        join_path(root, file)
    } else {
        let dir: String = join_path(root, rel.as_str());
        join_path(dir.as_str(), file)
    }
}

/// The controllers and the group of a line `number:controllers:group`.
pub open spec fn legacy_parts(line: Seq<char>) -> Option<(Seq<char>, Seq<char>)> {
    match text::cut(line, ':') {
        Some((_, rest)) => text::cut(rest, ':'),
        None => None,
    }
}

/// The files with a limit that a line of `/proc/self/cgroup` leads to.
pub open spec fn files_of_line(line: Seq<char>) -> Seq<Seq<char>> {
    let unified = if "0::"@.is_prefix_of(line) {
        seq![limit_file("/sys/fs/cgroup"@, line.skip("0::"@.len() as int), "memory.max"@)]
    } else {
        Seq::empty()
    };
    let legacy = match legacy_parts(line) {
        Some((controllers, group)) => if text::pieces(controllers, ',').contains("memory"@) {
            seq![limit_file("/sys/fs/cgroup/memory"@, group, "memory.limit_in_bytes"@)]
        } else {
            Seq::empty()
        },
        None => Seq::empty(),
    };
    unified + legacy
}

/// The files with a limit that the first lines lead to.
pub open spec fn files_of_lines(lines: Seq<Seq<char>>) -> Seq<Seq<char>>
    decreases lines.len(),
{
    if lines.len() == 0 {
        Seq::empty()
    } else {
        files_of_lines(lines.drop_last()) + files_of_line(lines.last())
    }
}

/// The files that may hold the limit of the process, in the order in which they
/// are asked: those of its own groups, then those of the root.
pub open spec fn limit_files(membership: Option<Seq<char>>) -> Seq<Seq<char>> {
    (match membership {
        Some(t) => files_of_lines(text::text_lines(t)),
        None => Seq::empty(),
    }) + seq!["/sys/fs/cgroup/memory.max"@, "/sys/fs/cgroup/memory/memory.limit_in_bytes"@]
}

fn split_legacy(line: &str) -> (r: Option<(String, String)>)
    ensures
        match r {
            Some(p) => legacy_parts(line@) == Some((p.0@, p.1@)),
            None => legacy_parts(line@) is None,
        },
{
    match text::split_once(line, ':') {
        Some((_, rest)) => text::split_once(rest.as_str(), ':'),
        None => None,
    }
}

fn add_files_of_line(files: &mut Vec<String>, line: &str)
    ensures
        text::texts(final(files)@) == text::texts(old(files)@) + files_of_line(line@),
{
    let ghost start = text::texts(files@);
    let ghost mut added: Seq<Seq<char>> = Seq::empty();
    match text::strip_prefix(line, "0::") {
        Some(rest) => {
            let file: String = find_limit_file("/sys/fs/cgroup", rest.as_str(), "memory.max");
            let ghost before = files@;
            files.push(file);
            proof {
                added = seq![file@];
                assert(text::texts(files@) =~= text::texts(before).push(file@));
            }
        },
        None => {},
    }
    assert(text::texts(files@) =~= start + added);
    let ghost unified = added;
    let ghost mid = text::texts(files@);
    proof {
        added = Seq::empty();
    }
    match split_legacy(line) {
        Some((controllers, group)) => {
            let names: Vec<String> = text::split(controllers.as_str(), ',');
            if text::list_has(&names, "memory") {
                let file: String = find_limit_file(
                    "/sys/fs/cgroup/memory",
                    group.as_str(),
                    "memory.limit_in_bytes",
                );
                let ghost before = files@;
                files.push(file);
                proof {
                    added = seq![file@];
                    assert(text::texts(files@) =~= text::texts(before).push(file@));
                }
            }
        },
        None => {},
    }
    assert(text::texts(files@) =~= mid + added);
    assert(files_of_line(line@) =~= unified + added);
    assert(text::texts(files@) =~= start + (unified + added));
}

/// The files that may hold the memory limit of the process, given the text of
/// `/proc/self/cgroup` where it can be read.
pub fn cgroup_limit_files(membership: Option<&str>) -> (r: Vec<String>)
    ensures
        text::texts(r@) == limit_files(
            match membership {
                Some(t) => Some(t@),
                None => None,
            },
        ),
{
    let mut files: Vec<String> = Vec::new();
    let ghost mut own: Seq<Seq<char>> = Seq::empty();
    assert(text::texts(files@) =~= own);
    match membership {
        Some(t) => {
            let lines: Vec<String> = text::lines(t);
            let ghost views = text::text_lines(t@);
            let mut i: usize = 0;
            assert(views.take(0) =~= Seq::<Seq<char>>::empty());
            while i < lines.len()
                invariant
                    i <= lines.len(),
                    text::texts(lines@) == views,
                    text::texts(files@) == files_of_lines(views.take(i as int)),
                decreases lines.len() - i,
            {
                proof {
                    assert(views.take(i + 1).drop_last() =~= views.take(i as int));
                    assert(views[i as int] == lines@[i as int]@);
                }
                add_files_of_line(&mut files, lines[i].as_str());
                i = i + 1;
            }
            proof {
                assert(views.take(i as int) =~= views);
                own = files_of_lines(views);
            }
        },
        None => {},
    }
    let ghost before = files@;
    files.push("/sys/fs/cgroup/memory.max".to_owned());
    files.push("/sys/fs/cgroup/memory/memory.limit_in_bytes".to_owned());
    assert(text::texts(files@) =~= own + seq![
        "/sys/fs/cgroup/memory.max"@,
        "/sys/fs/cgroup/memory/memory.limit_in_bytes"@,
    ]);
    files
}

/// The first limit in the texts of files, some of which could not be read.
pub open spec fn first_limit(contents: Seq<Option<String>>) -> Option<int>
    decreases contents.len(),
{
    if contents.len() == 0 {
        None
    } else {
        let own = match contents[0] {
            Some(t) => cgroup_limit(t@),
            None => None,
        };
        match own {
            Some(n) => Some(n),
            None => first_limit(contents.skip(1)),
        }
    }
}

/// The memory limit of the process's control groups, given the texts of the
/// files that may hold it.
pub fn cgroup_memory_limit_bytes(contents: &Vec<Option<String>>) -> (r: Option<u64>)
    ensures
        match r {
            Some(n) => first_limit(contents@) == Some(n as int),
            None => first_limit(contents@) is None,
        },
{
    let mut i: usize = 0;
    assert(contents@.skip(0) =~= contents@);
    while i < contents.len()
        invariant
            i <= contents.len(),
            first_limit(contents@) == first_limit(contents@.skip(i as int)),
        decreases contents.len() - i,
    {
        assert(contents@.skip(i as int).skip(1) =~= contents@.skip(i + 1));
        match &contents[i] {
            Some(t) => match parse_cgroup_limit(t.as_str()) {
                Some(n) => {
                    return Some(n);
                },
                None => {},
            },
            None => {},
        }
        i = i + 1;
    }
    None
}

/// The address-space ceiling of the process, given the current limit where it
/// can be read.
pub fn rlimit_address_space_bytes(current: Option<u64>) -> (r: Option<u64>)
    ensures
        match (current, r) {
            (Some(c), Some(n)) => usable_limit(c as int) == Some(n as int),
            (Some(c), None) => usable_limit(c as int) is None,
            (None, _) => r is None,
        },
{
    match current {
        Some(c) => if c == 0 || c >= NO_LIMIT {
            None
        } else {
            Some(c)
        },
        None => None,
    }
}

// ---------------------------------------------------------------------------
// Memory of the host
// ---------------------------------------------------------------------------

/// The first line that starts with a key, without the key.
pub open spec fn field_line(lines: Seq<Seq<char>>, key: Seq<char>) -> Option<Seq<char>>
    decreases lines.len(),
{
    if lines.len() == 0 {
        None
    } else if key.is_prefix_of(lines[0]) {
        Some(lines[0].skip(key.len() as int))
    } else {
        field_line(lines.skip(1), key)
    }
}

/// The bytes of a field that is given in kilobytes.
pub open spec fn kilobytes(t: Seq<char>, key: Seq<char>) -> Option<int> {
    match field_line(text::text_lines(t), key) {
        Some(rest) => match text::word(rest) {
            Some(w) => match text::number(w, u64::MAX as nat) {
                Some(kb) => Some((kb * 1024) as int),
                None => None,
            },
            None => None,
        },
        None => None,
    }
}

/// Reads a field that is given in kilobytes.
pub fn kilobyte_field(t: &str, key: &str) -> (r: Option<u64>)
    requires
        kilobytes(t@, key@) matches Some(n) ==> n <= u64::MAX,
    ensures
        match r {
            Some(n) => kilobytes(t@, key@) == Some(n as int),
            None => kilobytes(t@, key@) is None,
        },
{
    let lines: Vec<String> = text::lines(t);
    let ghost views = text::text_lines(t@);
    let mut i: usize = 0;
    assert(views.skip(0) =~= views);
    while i < lines.len()
        invariant
            i <= lines.len(),
            text::texts(lines@) == views,
            views == text::text_lines(t@),
            field_line(views, key@) == field_line(views.skip(i as int), key@),
            kilobytes(t@, key@) matches Some(n) ==> n <= u64::MAX,
        decreases lines.len() - i,
    {
        proof {
            assert(views.skip(i as int).skip(1) =~= views.skip(i + 1));
            assert(views[i as int] == lines@[i as int]@);
            assert(views.skip(i as int)[0] == lines@[i as int]@);
        }
        match text::strip_prefix(lines[i].as_str(), key) {
            Some(rest) => {
                return match text::first_word(rest.as_str()) {
                    Some(w) => match text::parse_u64(w.as_str()) {
                        Some(kb) => Some(kb * 1024),
                        None => None,
                    },
                    None => None,
                };
            },
            None => {},
        }
        i = i + 1;
    }
    None
}

/// What the operating system reports of memory: the texts of the files with the
/// limits of control groups, the address-space limit, and the text of
/// `/proc/meminfo`, each where it can be read.
#[derive(Debug)]
pub struct MemoryReadings {
    pub cgroup_files: Vec<Option<String>>,
    pub address_space: Option<u64>,
    pub meminfo: Option<String>,
}

/// The first of two amounts that is known.
pub open spec fn first_known(a: Option<int>, b: Option<int>) -> Option<int> {
    if a is Some {
        a
    } else {
        b
    }
}

impl MemoryReadings {
    /// The fields of the host's memory fit into 64 bits.
    pub open spec fn wf(self) -> bool {
        self.meminfo matches Some(t) ==> {
            &&& kilobytes(t@, "MemTotal:"@) matches Some(n) ==> n <= u64::MAX
            &&& kilobytes(t@, "MemAvailable:"@) matches Some(n) ==> n <= u64::MAX
        }
    }

    /// The limit that is set on the process: that of its control groups, else
    /// the address-space limit.
    pub open spec fn hard_limit(self) -> Option<int> {
        first_known(
            first_limit(self.cgroup_files@),
            match self.address_space {
                Some(c) => usable_limit(c as int),
                None => None,
            },
        )
    }

    /// The memory of the host.
    pub open spec fn host(self) -> Option<int> {
        match self.meminfo {
            Some(t) => kilobytes(t@, "MemTotal:"@),
            None => None,
        }
    }

    /// The memory of the host that is available.
    pub open spec fn available(self) -> Option<int> {
        match self.meminfo {
            Some(t) => kilobytes(t@, "MemAvailable:"@),
            None => None,
        }
    }

    /// All memory visible to the process.
    pub open spec fn total(self) -> Option<int> {
        first_known(self.hard_limit(), self.host())
    }

    /// The memory that the process can use.
    pub open spec fn usable(self) -> Option<int> {
        first_known(self.hard_limit(), first_known(self.available(), self.host()))
    }

    fn limit(&self) -> (r: Option<u64>)
        ensures
            match r {
                Some(n) => self.hard_limit() == Some(n as int),
                None => self.hard_limit() is None,
            },
    {
        match cgroup_memory_limit_bytes(&self.cgroup_files) {
            Some(n) => Some(n),
            None => rlimit_address_space_bytes(self.address_space),
        }
    }
}

/// The memory of the host.
pub fn host_memory_bytes(readings: &MemoryReadings) -> (r: Option<u64>)
    requires
        readings.wf(),
    ensures
        match r {
            Some(n) => readings.host() == Some(n as int),
            None => readings.host() is None,
        },
{
    match &readings.meminfo {
        Some(t) => kilobyte_field(t.as_str(), "MemTotal:"),
        None => None,
    }
}

/// The memory of the host that is available for new allocations.
pub fn host_available_memory_bytes(readings: &MemoryReadings) -> (r: Option<u64>)
    requires
        readings.wf(),
    ensures
        match r {
            Some(n) => readings.available() == Some(n as int),
            None => readings.available() is None,
        },
{
    match &readings.meminfo {
        Some(t) => kilobyte_field(t.as_str(), "MemAvailable:"),
        None => None,
    }
}

/// All memory visible to the process: the limit of its control groups, else the
/// address-space limit, else the memory of the host.
pub fn total_memory_bytes(readings: &MemoryReadings) -> (r: Option<u64>)
    requires
        readings.wf(),
    ensures
        match r {
            Some(n) => readings.total() == Some(n as int),
            None => readings.total() is None,
        },
{
    match readings.limit() {
        Some(n) => Some(n),
        None => host_memory_bytes(readings),
    }
}

/// The memory that the process can use: a limit as it is, else what the host
/// has available, else all of the host's.
pub fn usable_memory_bytes(readings: &MemoryReadings) -> (r: Option<u64>)
    requires
        readings.wf(),
    ensures
        match r {
            Some(n) => readings.usable() == Some(n as int),
            None => readings.usable() is None,
        },
{
    match readings.limit() {
        Some(n) => Some(n),
        None => match host_available_memory_bytes(readings) {
            Some(n) => Some(n),
            None => host_memory_bytes(readings),
        },
    }
}

/// The memory budget: the usable memory, or that of a small container where
/// nothing can be detected.
pub fn effective_memory_bytes(readings: &MemoryReadings) -> (r: u64)
    requires
        readings.wf(),
    ensures
        r == match readings.usable() {
            Some(n) => n,
            None => FALLBACK_MEMORY_BYTES as int,
        },
{
    match usable_memory_bytes(readings) {
        Some(n) => n,
        None => FALLBACK_MEMORY_BYTES,
    }
}

/// The usable memory is known whenever the total is, and is no more than it as
/// long as the host has no more available than it has.
pub proof fn law_usable_is_within_total(readings: MemoryReadings)
    requires
        readings.available() matches Some(a) ==> (readings.host() matches Some(h) && a <= h),
    ensures
        readings.usable() is Some <==> readings.total() is Some,
        readings.usable() matches Some(u) ==> u <= readings.total()->0,
{
}

/// Limits that are set are never zero and never the mark for none.
pub proof fn law_limits_are_finite(contents: Seq<Option<String>>)
    ensures
        first_limit(contents) matches Some(n) ==> 0 < n < NO_LIMIT,
    decreases contents.len(),
{
    if contents.len() > 0 {
        law_limits_are_finite(contents.skip(1));
    }
}

// ---------------------------------------------------------------------------
// Disk space
// ---------------------------------------------------------------------------

/// The smaller of a number and the largest 64-bit one.
pub open spec fn capped(n: int) -> int {
    if n > u64::MAX {
        u64::MAX as int
    } else {
        n
    }
}

/// The free space of a file system, given its free blocks and their size where
/// they can be read.
pub fn free_disk_bytes(blocks: Option<(u64, u64)>) -> (r: Option<u64>)
    ensures
        match (blocks, r) {
            (Some(b), Some(n)) => n == capped(b.0 * b.1),
            (None, None) => true,
            _ => false,
        },
{
    match blocks {
        Some((count, size)) => {
            assert(count * size <= 0xffff_ffff_ffff_ffff * 0xffff_ffff_ffff_ffff) by (nonlinear_arith)
                requires
                    count <= 0xffff_ffff_ffff_ffff,
                    size <= 0xffff_ffff_ffff_ffff,
            ;
            let product: u128 = (count as u128) * (size as u128);
            if product > u64::MAX as u128 {
                Some(u64::MAX)
            } else {
                Some(product as u64)
            }
        },
        None => None,
    }
}

/// What is found at a path: whether it exists, and the free blocks of its file
/// system with their size, where they can be read.
#[derive(Debug, Clone, Copy)]
pub struct DiskProbe {
    pub exists: bool,
    pub blocks: Option<(u64, u64)>,
}

/// The first probe of something that exists.
pub open spec fn first_existing(probes: Seq<DiskProbe>) -> Option<DiskProbe>
    decreases probes.len(),
{
    if probes.len() == 0 {
        None
    } else if probes[0].exists {
        Some(probes[0])
    } else {
        first_existing(probes.skip(1))
    }
}

/// The free space of the file system that will hold a file, given what is found
/// at its path and then at each parent of it: that of the nearest that exists.
pub fn free_disk_bytes_for_new_file(probes: &Vec<DiskProbe>) -> (r: Option<u64>)
    ensures
        match first_existing(probes@) {
            Some(p) => match (p.blocks, r) {
                (Some(b), Some(n)) => n == capped(b.0 * b.1),
                (None, None) => true,
                _ => false,
            },
            None => r is None,
        },
{
    let mut i: usize = 0;
    assert(probes@.skip(0) =~= probes@);
    while i < probes.len()
        invariant
            i <= probes.len(),
            first_existing(probes@) == first_existing(probes@.skip(i as int)),
        decreases probes.len() - i,
    {
        assert(probes@.skip(i as int).skip(1) =~= probes@.skip(i + 1));
        assert(probes@.skip(i as int)[0] == probes@[i as int]);
        if probes[i].exists {
            return free_disk_bytes(probes[i].blocks);
        }
        i = i + 1;
    }
    None
}

/// Too little free space.
#[derive(Debug, Clone, Copy, PartialEq, Eq, Structural)]
pub struct LowDisk {
    pub free_bytes: u64,
    pub min_bytes: u64,
}

/// The disk is full enough to stop, as far as it is known.
pub open spec fn disk_check(free: Option<u64>, min_bytes: u64) -> Result<(), LowDisk> {
    match free {
        Some(n) => if n < min_bytes {
            Err(LowDisk { free_bytes: n, min_bytes })
        } else {
            Ok(())
        },
        None => Ok(()),
    }
}

/// Refuses work where the free space is known to be below the threshold.
pub fn check_min_free_disk(free: Option<u64>, min_bytes: u64) -> (r: Result<(), LowDisk>)
    ensures
        r == disk_check(free, min_bytes),
{
    match free {
        Some(n) => if n < min_bytes {
            Err(LowDisk { free_bytes: n, min_bytes })
        } else {
            Ok(())
        },
        None => Ok(()),
    }
}

/// The limit of the first file that has one counts; a file that is missing or has no limit is
/// passed over.
pub proof fn law_the_first_limit_counts(contents: Seq<Option<String>>, i: int)
    requires
        0 <= i <= contents.len(),
        forall|j: int|
            0 <= j < i ==> (#[trigger] contents[j] matches Some(t) ==> cgroup_limit(t@) is None),
    ensures
        i == contents.len() ==> first_limit(contents) is None,
        i < contents.len() ==> (contents[i] matches Some(t) ==> (cgroup_limit(t@) is Some
            ==> first_limit(contents) == cgroup_limit(t@))),
    decreases i,
{
    if i > 0 {
        let rest = contents.skip(1);
        assert(contents[0] matches Some(t) ==> cgroup_limit(t@) is None);
        assert forall|j: int| 0 <= j < i - 1 implies (#[trigger] rest[j] matches Some(t)
            ==> cgroup_limit(t@) is None) by {
            assert(rest[j] == contents[j + 1]);
        }
        law_the_first_limit_counts(rest, i - 1);
        if i < contents.len() {
            assert(rest[i - 1] == contents[i]);
        }
    }
}

/// A number in a limit file is the limit in bytes, unless it is zero or so large that it
/// stands for none.
pub proof fn law_limits_are_read(n: nat)
    requires
        n <= u64::MAX,
    ensures
        cgroup_limit(text::decimal(n)) == if 0 < n < 0x1000_0000_0000_0000 {
            Some(n as int)
        } else {
            None
        },
{
    text::law_decimal_reads_back(n, u64::MAX as nat);
    text::law_decimal_is_bare(n);
    let d = text::decimal(n);
    assert(text::trimmed(d) == d);
    assert(text::lowered(d) != "max"@) by {
        reveal_strlit("max");
        assert(text::lowered(d)[0] == d[0]);
    }
}

/// The limit of a group lies in its directory: below the root, under the path of the group,
/// with or without the slash that it begins with.
pub proof fn law_limits_lie_with_their_groups(root: Seq<char>, group: Seq<char>, file: Seq<char>)
    requires
        root.len() > 0,
        root.last() != '/',
        group.len() > 0,
        group[0] != '/',
        group.last() != '/',
        forall|i: int| 0 <= i < group.len() ==> !text::is_space(#[trigger] group[i]),
    ensures
        limit_file(root, group, file) == root + "/"@ + group + "/"@ + file,
        limit_file(root, "/"@ + group, file) == root + "/"@ + group + "/"@ + file,
        limit_file(root, "/"@, file) == root + "/"@ + file,
{
    reveal_strlit("/");
    let g = "/"@ + group;
    assert(text::trimmed(group) == group);
    assert(!text::is_space('/'));
    assert(g.last() == group.last());
    assert(g[0] == '/');
    assert(text::trimmed(g) == g);
    assert(g.skip(1) =~= group);
    assert(text::trimmed("/"@) == "/"@);
    assert("/"@.skip(1) =~= Seq::<char>::empty());
    assert(text::without_leading("/"@, '/') =~= Seq::<char>::empty()) by {
        assert(text::without_leading("/"@.skip(1), '/') == "/"@.skip(1));
    }
    let dir = root + "/"@ + group;
    assert(dir.last() == group.last());
}

/// A field of kilobytes is the number behind its name, in the first line that begins with the
/// name.
pub proof fn law_fields_are_found_by_their_names(lines: Seq<Seq<char>>, key: Seq<char>, i: int)
    requires
        0 <= i <= lines.len(),
        forall|j: int| 0 <= j < i ==> !key.is_prefix_of(#[trigger] lines[j]),
    ensures
        i == lines.len() ==> field_line(lines, key) is None,
        forall|rest: Seq<char>|
            i < lines.len() && lines[i] == #[trigger] (key + rest) ==> field_line(lines, key)
                == Some(rest),
    decreases i,
{
    if i > 0 {
        let tail = lines.skip(1);
        assert(!key.is_prefix_of(lines[0]));
        assert forall|j: int| 0 <= j < i - 1 implies !key.is_prefix_of(#[trigger] tail[j]) by {
            assert(tail[j] == lines[j + 1]);
        }
        law_fields_are_found_by_their_names(tail, key, i - 1);
        if i < lines.len() {
            assert(tail[i - 1] == lines[i]);
        }
    } else {
        assert forall|rest: Seq<char>|
            i < lines.len() && lines[i] == #[trigger] (key + rest) implies field_line(lines, key)
            == Some(rest) by {
            assert((key + rest).subrange(0, key.len() as int) =~= key);
            assert((key + rest).skip(key.len() as int) =~= rest);
        }
    }
}

/// The disk of the first directory that exists counts.
pub proof fn law_the_first_existing_directory_counts(probes: Seq<DiskProbe>, i: int)
    requires
        0 <= i <= probes.len(),
        forall|j: int| 0 <= j < i ==> !(#[trigger] probes[j]).exists,
    ensures
        i == probes.len() ==> first_existing(probes) is None,
        i < probes.len() && probes[i].exists ==> first_existing(probes) == Some(probes[i]),
    decreases i,
{
    if i > 0 {
        let rest = probes.skip(1);
        assert(!probes[0].exists);
        assert forall|j: int| 0 <= j < i - 1 implies !(#[trigger] rest[j]).exists by {
            assert(rest[j] == probes[j + 1]);
        }
        law_the_first_existing_directory_counts(rest, i - 1);
        if i < probes.len() {
            assert(rest[i - 1] == probes[i]);
        }
    }
}

/// A limit that is set counts before what the host has.
pub proof fn law_limits_come_before_the_host(readings: MemoryReadings)
    ensures
        readings.hard_limit() is Some ==> readings.total() == readings.hard_limit()
            && readings.usable() == readings.hard_limit(),
        readings.hard_limit() is None ==> readings.total() == readings.host(),
        readings.hard_limit() is None && readings.available() is Some ==> readings.usable()
            == readings.available(),
        readings.hard_limit() is None && readings.available() is None ==> readings.usable()
            == readings.host(),
        first_limit(readings.cgroup_files@) is Some ==> readings.hard_limit() == first_limit(
            readings.cgroup_files@,
        ),
        first_limit(readings.cgroup_files@) is None ==> (readings.address_space matches Some(c)
            ==> (0 < c < 0x1000_0000_0000_0000 ==> readings.hard_limit() == Some(c as int))),
{
}

/// Writing stops exactly where less is known to be free than is asked for; more free bytes never
/// stop it, and fewer never let it go on.
pub proof fn law_low_disks_stop_writing(free: u64, more: u64, min_bytes: u64)
    requires
        free <= more,
    ensures
        disk_check(None, min_bytes) is Ok,
        disk_check(Some(min_bytes), min_bytes) is Ok,
        disk_check(Some(free), min_bytes) is Err <==> free < min_bytes,
        disk_check(Some(free), min_bytes) is Ok ==> disk_check(Some(more), min_bytes) is Ok,
        disk_check(Some(free), min_bytes) matches Err(e) ==> e.free_bytes == free && e.min_bytes
            == min_bytes,
{
}

} // verus!
