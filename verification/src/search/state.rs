//! What the server keeps: where tables are stored, which are open, and how it
//! is set up by its environment.

use vstd::prelude::*;
use vstd::string::*;

use crate::index::gpu::ComputeContext;
use crate::order;
use crate::text;
use crate::textmap::TextMap;

verus! {

/// What the handlers of the server share.
#[derive(Debug)]
pub struct AppState {
    /// The root under which each index is a table.
    pub storage_root: String,
    /// The name of the cluster.
    pub cluster_uuid: String,
    /// Where distances are computed.
    pub compute: ComputeContext,
    /// The namespace of tables in an external catalog.
    pub catalog_namespace: String,
    /// The collections that aliases stand for.
    pub aliases: TextMap<String>,
}

impl AppState {
    /// A server that computes on the processor.
    pub fn new(storage_root: String, cluster_uuid: String) -> (r: Self)
        ensures
            r.storage_root == storage_root,
            r.cluster_uuid == cluster_uuid,
            r.compute.backend == crate::index::gpu::ComputeBackend::Cpu,
            r.compute.device_id == -1,
            r.catalog_namespace@ == "default"@,
            r.aliases.wf(),
            r.aliases@ == Map::<Seq<char>, String>::empty(),
    {
        AppState::with_compute(storage_root, cluster_uuid, ComputeContext::default())
    }

    /// A server that computes on a device.
    pub fn with_compute(
        storage_root: String,
        cluster_uuid: String,
        compute: ComputeContext,
    ) -> (r: Self)
        ensures
            r.storage_root == storage_root,
            r.cluster_uuid == cluster_uuid,
            r.compute == compute,
            r.catalog_namespace@ == "default"@,
            r.aliases.wf(),
            r.aliases@ == Map::<Seq<char>, String>::empty(),
    {
        AppState::with_catalog(storage_root, cluster_uuid, compute, "default".to_owned())
    }

    /// A server whose tables are in a namespace of an external catalog.
    pub fn with_catalog(
        storage_root: String,
        cluster_uuid: String,
        compute: ComputeContext,
        catalog_namespace: String,
    ) -> (r: Self)
        ensures
            r.storage_root == storage_root,
            r.cluster_uuid == cluster_uuid,
            r.compute == compute,
            r.catalog_namespace == catalog_namespace,
            r.aliases.wf(),
            r.aliases@ == Map::<Seq<char>, String>::empty(),
    {
        AppState {
            storage_root,
            cluster_uuid,
            compute,
            catalog_namespace,
            aliases: TextMap::new(),
        }
    }

    /// Where the table of an index is stored.
    pub fn index_uri(&self, index: &str) -> (r: String)
        ensures
            r@ == text::without_trailing(self.storage_root@, '/') + "/"@ + index@,
    {
        let mut uri: String = text::trim_end_char(self.storage_root.as_str(), '/');
        uri.append("/");
        uri.append(index);
        uri
    }
}

// ---------------------------------------------------------------------------
// Open tables
// ---------------------------------------------------------------------------

/// The names of the open tables, each at the place where its table is kept, and
/// how often a table was and was not found open.
#[derive(Debug)]
pub struct TableCache {
    pub names: Vec<String>,
    pub hits: u64,
    pub misses: u64,
}

/// No name is listed twice.
pub open spec fn names_once(names: Seq<String>) -> bool {
    forall|i: int, j: int|
        #![trigger names[i], names[j]]
        0 <= i < j < names.len() ==> names[i]@ != names[j]@
}

impl TableCache {
    /// No table is listed twice.
    pub open spec fn wf(self) -> bool {
        names_once(self.names@)
    }

    /// A table is open.
    pub open spec fn has(self, index: Seq<char>) -> bool {
        text::texts(self.names@).contains(index)
    }

    /// Nothing is open.
    pub fn new() -> (r: Self)
        ensures
            r.wf(),
            r.names@.len() == 0,
            r.hits == 0,
            r.misses == 0,
    {
        TableCache { names: Vec::new(), hits: 0, misses: 0 }
    }

    fn place(&self, index: &str) -> (r: Option<usize>)
        ensures
            match r {
                Some(i) => i < self.names.len() && self.names@[i as int]@ == index@,
                None => !self.has(index@),
            },
    {
        let mut i: usize = 0;
        while i < self.names.len()
            invariant
                i <= self.names.len(),
                forall|k: int| 0 <= k < i ==> (#[trigger] self.names@[k])@ != index@,
            decreases self.names.len() - i,
        {
            if text::same(self.names[i].as_str(), index) {
                return Some(i);
            }
            i = i + 1;
        }
        proof {
            let all = text::texts(self.names@);
            assert forall|k: int| 0 <= k < all.len() implies all[k] != index@ by {
                assert(all[k] == self.names@[k]@);
            }
        }
        None
    }

    /// The place of an open table, counted as found or not found.
    pub fn lookup(&mut self, index: &str) -> (r: Option<usize>)
        requires
            old(self).wf(),
            old(self).hits < u64::MAX,
            old(self).misses < u64::MAX,
        ensures
            final(self).names == old(self).names,
            match r {
                Some(i) => {
                    &&& i < old(self).names.len()
                    &&& old(self).names@[i as int]@ == index@
                    &&& final(self).hits == old(self).hits + 1
                    &&& final(self).misses == old(self).misses
                },
                None => {
                    &&& !old(self).has(index@)
                    &&& final(self).hits == old(self).hits
                    &&& final(self).misses == old(self).misses + 1
                },
            },
    {
        match self.place(index) {
            Some(i) => {
                self.hits = self.hits + 1;
                Some(i)
            },
            None => {
                self.misses = self.misses + 1;
                None
            },
        }
    }

    /// The place of a table that was opened: that of the one that was opened
    /// first, if there is one, else a new place at the end.
    pub fn publish(&mut self, index: &str) -> (r: usize)
        requires
            old(self).wf(),
        ensures
            final(self).wf(),
            r < final(self).names.len(),
            final(self).names@[r as int]@ == index@,
            final(self).hits == old(self).hits,
            final(self).misses == old(self).misses,
            if old(self).has(index@) {
                final(self).names == old(self).names
            } else {
                &&& r == old(self).names.len()
                &&& final(self).names@.len() == old(self).names@.len() + 1
                &&& final(self).names@.take(r as int) == old(self).names@
            },
    {
        match self.place(index) {
            Some(i) => {
                proof {
                    assert(text::texts(self.names@)[i as int] == index@);
                }
                i
            },
            None => {
                let ghost before = self.names@;
                self.names.push(index.to_owned());
                proof {
                    let now = self.names@;
                    assert forall|a: int, b: int|
                        #![trigger now[a], now[b]]
                        0 <= a < b < now.len() implies now[a]@ != now[b]@ by {
                        if b == before.len() {
                            assert(text::texts(before)[a] == now[a]@);
                        }
                    }
                    assert(now.take(before.len() as int) =~= before);
                }
                self.names.len() - 1
            },
        }
    }

    /// Forgets a table; the tables behind it move up.
    pub fn remove(&mut self, index: &str) -> (r: Option<usize>)
        requires
            old(self).wf(),
        ensures
            final(self).wf(),
            final(self).hits == old(self).hits,
            final(self).misses == old(self).misses,
            match r {
                Some(i) => {
                    &&& i < old(self).names.len()
                    &&& old(self).names@[i as int]@ == index@
                    &&& final(self).names@ == old(self).names@.remove(i as int)
                },
                None => !old(self).has(index@) && final(self).names == old(self).names,
            },
    {
        match self.place(index) {
            Some(i) => {
                let ghost before = self.names@;
                let _ = self.names.remove(i);
                proof {
                    let now = self.names@;
                    assert forall|a: int, b: int|
                        #![trigger now[a], now[b]]
                        0 <= a < b < now.len() implies now[a]@ != now[b]@ by {
                        let x = if a < i {
                            a
                        } else {
                            a + 1
                        };
                        let y = if b < i {
                            b
                        } else {
                            b + 1
                        };
                        assert(now[a] == before[x] && now[b] == before[y]);
                    }
                }
                Some(i)
            },
            None => None,
        }
    }
}

/// A table that was removed is not found open any more.
pub proof fn law_removed_tables_are_closed(names: Seq<String>, i: int)
    requires
        names_once(names),
        0 <= i < names.len(),
    ensures
        !text::texts(names.remove(i)).contains(names[i]@),
{
    let rest = names.remove(i);
    let all = text::texts(rest);
    assert forall|k: int| 0 <= k < all.len() implies all[k] != names[i]@ by {
        let x = if k < i {
            k
        } else {
            k + 1
        };
        assert(rest[k] == names[x]);
        assert(all[k] == rest[k]@);
        if x < i {
            assert(names[x]@ != names[i]@);
        } else {
            assert(names[i]@ != names[x]@);
        }
    }
}

/// What the creation of a table came to.
#[derive(Debug, Clone, Copy, PartialEq, Eq, Structural)]
pub enum CreateOutcome {
    /// The table is there and can be opened.
    Open,
    /// The creation failed.
    Fail,
}

/// What the creation of a table came to, given the error where there was one:
/// a table that another request has created is opened.
pub fn after_create(error: Option<&str>) -> (r: CreateOutcome)
    ensures
        r == match error {
            Some(e) => if text::occurs(e@, "already exists"@) {
                CreateOutcome::Open
            } else {
                CreateOutcome::Fail
            },
            None => CreateOutcome::Open,
        },
{
    match error {
        Some(e) => if text::contains(e, "already exists") {
            CreateOutcome::Open
        } else {
            CreateOutcome::Fail
        },
        None => CreateOutcome::Open,
    }
}

// ---------------------------------------------------------------------------
// Stored indexes
// ---------------------------------------------------------------------------

/// The index that an object marks as a table: `index/metadata/version-hint.text`
/// and what lies under it.
pub open spec fn marked_index(path: Seq<char>) -> Option<Seq<char>> {
    let parts = text::pieces(path, '/');
    if parts.len() >= 3 && parts[1] == "metadata"@ && parts[2] == "version-hint.text"@ {
        Some(parts[0])
    } else {
        None
    }
}

/// An index is marked by one of the objects.
pub open spec fn is_marked(paths: Seq<Seq<char>>, index: Seq<char>) -> bool {
    exists|i: int| 0 <= i < paths.len() && marked_index(#[trigger] paths[i]) == Some(index)
}

fn find_mark(path: &str) -> (r: Option<String>)
    ensures
        match r {
            Some(n) => marked_index(path@) == Some(n@),
            None => marked_index(path@) is None,
        },
{
    let parts: Vec<String> = text::split(path, '/');
    let ghost views = text::pieces(path@, '/');
    assert(text::texts(parts@) == views);
    assert(parts.len() == views.len());
    if parts.len() >= 3 {
        proof {
            assert(views[0] == parts@[0]@);
            assert(views[1] == parts@[1]@);
            assert(views[2] == parts@[2]@);
        }
        if text::same(parts[1].as_str(), "metadata") && text::same(
            parts[2].as_str(),
            "version-hint.text",
        ) {
            return Some(parts[0].clone());
        }
    }
    None
}

/// Names in strictly ascending order.
pub open spec fn names_rise(names: Seq<Seq<char>>) -> bool {
    forall|i: int, j: int|
        #![trigger names[i], names[j]]
        0 <= i < j < names.len() ==> text::text_less(names[i], names[j])
}

/// The names of the indexes under the root, given the paths of all objects:
/// each once, in ascending order.
pub fn list_indexes(paths: &Vec<String>) -> (r: Vec<String>)
    ensures
        names_rise(text::texts(r@)),
        forall|n: Seq<char>| #[trigger]
            text::texts(r@).contains(n) <==> is_marked(text::texts(paths@), n),
{
    let ghost views = text::texts(paths@);
    let mut found: Vec<String> = Vec::new();
    let mut i: usize = 0;
    while i < paths.len()
        invariant
            i <= paths.len(),
            views == text::texts(paths@),
            forall|n: Seq<char>| #[trigger]
                text::texts(found@).contains(n) <==> is_marked(views.take(i as int), n),
        decreases paths.len() - i,
    {
        let ghost before = text::texts(found@);
        let ghost now = views.take(i as int);
        let ghost next = views.take(i + 1);
        assert(views[i as int] == paths@[i as int]@);
        let mark: Option<String> = find_mark(paths[i].as_str());
        let ghost own = marked_index(views[i as int]);
        match mark {
            Some(n) => {
                let ghost f0 = found@;
                found.push(n);
                assert(text::texts(found@) =~= text::texts(f0).push(n@));
            },
            None => {},
        }
        proof {
            let all = text::texts(found@);
            assert forall|n: Seq<char>| #[trigger] all.contains(n) <==> is_marked(next, n) by {
                assert(before.contains(n) <==> is_marked(now, n));
                if is_marked(now, n) {
                    let k = choose|k: int|
                        0 <= k < now.len() && marked_index(#[trigger] now[k]) == Some(n);
                    assert(next[k] == now[k]);
                }
                if is_marked(next, n) {
                    let k = choose|k: int|
                        0 <= k < next.len() && marked_index(#[trigger] next[k]) == Some(n);
                    if k < i {
                        assert(now[k] == next[k]);
                    } else {
                        assert(own == Some(n));
                        assert(all[all.len() - 1] == n);
                    }
                }
                if own == Some(n) {
                    assert(marked_index(next[i as int]) == Some(n));
                }
                if before.contains(n) {
                    let k = choose|k: int| 0 <= k < before.len() && before[k] == n;
                    assert(all[k] == n);
                }
                if all.contains(n) {
                    let k = choose|k: int| 0 <= k < all.len() && all[k] == n;
                    if k < before.len() {
                        assert(before[k] == n);
                    }
                }
            }
        }
        i = i + 1;
    }
    assert(views.take(i as int) =~= views);
    sorted_names(&found)
}

/// Names without repetition, in ascending order.
pub fn sorted_names(names: &Vec<String>) -> (r: Vec<String>)
    ensures
        names_rise(text::texts(r@)),
        forall|n: Seq<char>| #[trigger]
            text::texts(r@).contains(n) <==> text::texts(names@).contains(n),
{
    let ghost views = text::texts(names@);
    let sorted: Vec<usize> = order::sorted_order(names);
    let mut r: Vec<String> = Vec::new();
    let mut p: usize = 0;
    while p < sorted.len()
        invariant
            p <= sorted.len(),
            views == text::texts(names@),
            order::is_sorted_order(names@, sorted@),
            names_rise(text::texts(r@)),
            forall|k: int| 0 <= k < r.len() ==> views.contains((#[trigger] r@[k])@),
            forall|q: int|
                0 <= q < p ==> text::texts(r@).contains(names@[#[trigger] sorted@[q] as int]@),
            p > 0 ==> r.len() > 0 && r@[r.len() - 1]@ == names@[sorted@[p - 1] as int]@,
            p == 0 ==> r.len() == 0,
        decreases sorted.len() - p,
    {
        let at: usize = sorted[p];
        assert(sorted@[p as int] < names.len());
        let ghost before = r@;
        let fresh: bool = r.len() == 0 || !text::same(
            r[r.len() - 1].as_str(),
            names[at].as_str(),
        );
        if fresh {
            let name: String = names[at].clone();
            r.push(name);
        }
        proof {
            assert(views[at as int] == names@[at as int]@);
            let all = text::texts(r@);
            let was = text::texts(before);
            assert(r@[r.len() - 1]@ == names@[at as int]@);
            assert(all[all.len() - 1] == names@[at as int]@);
            assert forall|q: int| 0 <= q < p + 1 implies all.contains(
                names@[#[trigger] sorted@[q] as int]@,
            ) by {
                if q < p {
                    let k = choose|k: int|
                        0 <= k < was.len() && was[k] == names@[sorted@[q] as int]@;
                    assert(all[k] == was[k]);
                }
            }
            if fresh {
                text::lemma_text_order();
                assert forall|a: int, b: int|
                    #![trigger all[a], all[b]]
                    0 <= a < b < all.len() implies text::text_less(all[a], all[b]) by {
                    if b < was.len() {
                        assert(all[a] == was[a] && all[b] == was[b]);
                    } else {
                        assert(order::comes_before(
                            names@,
                            sorted@[p - 1] as int,
                            sorted@[p as int] as int,
                        ));
                        let last = was[was.len() - 1];
                        assert(last == names@[sorted@[p - 1] as int]@);
                        assert(text::text_less(last, all[b])) by {
                            if !text::text_less(last, all[b]) {
                                text::lemma_text_less_total(last, all[b]);
                            }
                        }
                        assert(all[a] == was[a]);
                        if a < was.len() - 1 {
                            assert(text::text_less(was[a], last));
                        }
                    }
                }
            } else {
                assert(all =~= was);
            }
        }
        p = p + 1;
    }
    proof {
        let all = text::texts(r@);
        assert forall|n: Seq<char>| #[trigger] all.contains(n) <==> views.contains(n) by {
            if all.contains(n) {
                let k = choose|k: int| 0 <= k < all.len() && all[k] == n;
                assert(r@[k]@ == n);
            }
            if views.contains(n) {
                let j = choose|j: int| 0 <= j < views.len() && views[j] == n;
                assert(sorted@.contains(j as usize));
                let q = choose|q: int| 0 <= q < sorted@.len() && sorted@[q] == j as usize;
                assert(all.contains(names@[sorted@[q] as int]@));
            }
        }
    }
    r
}

// ---------------------------------------------------------------------------
// Settings
// ---------------------------------------------------------------------------

/// The root of storage where none is set: a directory in the home directory.
pub open spec fn default_uri(home: Option<Seq<char>>) -> Seq<char> {
    match home {
        Some(h) => "file://"@ + h + "/.benostreamdb/search"@,
        None => "file:///tmp/.benostreamdb/search"@,
    }
}

/// The text of an optional text.
pub open spec fn setting(s: Option<&str>) -> Option<Seq<char>> {
    match s {
        Some(t) => Some(t@),
        None => None,
    }
}

/// The root of storage where none is set, given the home directory.
pub fn default_storage_uri(home: Option<&str>) -> (r: String)
    ensures
        r@ == default_uri(setting(home)),
{
    match home {
        Some(h) => {
            let mut uri: String = "file://".to_owned();
            uri.append(h);
            uri.append("/.benostreamdb/search");
            uri
        },
        None => "file:///tmp/.benostreamdb/search".to_owned(),
    }
}

/// The root of storage: trailing slashes are dropped, and a leading `~` stands
/// for the home directory.
pub open spec fn storage_uri(
    search: Option<Seq<char>>,
    stream: Option<Seq<char>>,
    home: Option<Seq<char>>,
) -> Seq<char> {
    let raw = match search {
        Some(u) => u,
        None => match stream {
            Some(u) => u,
            None => default_uri(home),
        },
    };
    let uri = text::without_trailing(raw, '/');
    if uri == "~"@ || "~/"@.is_prefix_of(uri) {
        (match home {
            Some(h) => h,
            None => Seq::empty(),
        }) + uri.skip(1)
    } else {
        uri
    }
}

/// The root of storage, given the two settings for it in order of precedence
/// and the home directory.
pub fn resolve_storage_uri(
    search: Option<&str>,
    stream: Option<&str>,
    home: Option<&str>,
) -> (r: String)
    ensures
        r@ == storage_uri(setting(search), setting(stream), setting(home)),
{
    let raw: String = match search {
        Some(u) => u.to_owned(),
        None => match stream {
            Some(u) => u.to_owned(),
            None => default_storage_uri(home),
        },
    };
    let uri: String = text::trim_end_char(raw.as_str(), '/');
    if text::same(uri.as_str(), "~") || text::starts_with(uri.as_str(), "~/") {
        proof {
            reveal_strlit("~");
            reveal_strlit("~/");
        }
        let chars: Vec<char> = text::to_chars(uri.as_str());
        let rest: String = text::slice_text(&chars, 1, chars.len());
        assert(rest@ =~= uri@.skip(1));
        match home {
            Some(h) => {
                let mut full: String = h.to_owned();
                full.append(rest.as_str());
                full
            },
            None => {
                assert(Seq::<char>::empty() + uri@.skip(1) =~= rest@);
                rest
            },
        }
    } else {
        uri
    }
}

/// When writes are on disk.
#[derive(Debug, Clone, Copy, PartialEq, Eq, Structural)]
pub enum WalDurability {
    /// Every write is on disk when it returns.
    Sync,
    /// Writes go to disk in the background.
    Async,
}

/// How writes are logged: as the search setting says, else as the setting of the database says.
pub open spec fn durability(search: Option<Seq<char>>, stream: Option<Seq<char>>) -> WalDurability {
    match (search, stream) {
        (Some(v), _) => if text::lowered(v) == "sync"@ {
            WalDurability::Sync
        } else {
            WalDurability::Async
        },
        (None, Some(v)) => if text::lowered(v) == "sync"@ {
            WalDurability::Sync
        } else {
            WalDurability::Async
        },
        (None, None) => WalDurability::Async,
    }
}

/// The durability that is asked for, given the two settings for it in order of
/// precedence; in the background unless `sync` is asked for.
pub fn resolve_wal_durability(search: Option<&str>, stream: Option<&str>) -> (r: WalDurability)
    ensures
        r == durability(setting(search), setting(stream)),
{
    let value: Option<&str> = match search {
        Some(v) => Some(v),
        None => stream,
    };
    match value {
        Some(v) => {
            let low: String = text::ascii_lowercase(v);
            if text::same(low.as_str(), "sync") {
                WalDurability::Sync
            } else {
                WalDurability::Async
            }
        },
        None => WalDurability::Async,
    }
}

/// A port that is set, else the default.
pub open spec fn port(value: Option<Seq<char>>, default: u16) -> u16 {
    match value {
        Some(v) => match text::number(v, u16::MAX as nat) {
            Some(n) => n as u16,
            None => default,
        },
        None => default,
    }
}

/// The port that is asked for, or a default where it is no port.
pub fn port_or(value: Option<&str>, default: u16) -> (r: u16)
    ensures
        r == port(setting(value), default),
{
    match value {
        Some(v) => match text::parse_u64(v) {
            Some(n) => if n <= u16::MAX as u64 {
                n as u16
            } else {
                default
            },
            None => default,
        },
        None => default,
    }
}

/// The address of a server.
pub fn socket_text(bind: &str, port: u16) -> (r: String)
    ensures
        r@ == bind@ + ":"@ + text::decimal(port as nat),
{
    let mut s: String = bind.to_owned();
    s.append(":");
    s.append(text::u64_text(port as u64).as_str());
    s
}

/// A number of threads that is set, else the default.
pub open spec fn threads(value: Option<Seq<char>>, processors: Option<usize>) -> usize {
    match value {
        Some(v) => match text::number(v, usize::MAX as nat) {
            Some(n) => n as usize,
            None => default_threads(processors),
        },
        None => default_threads(processors),
    }
}

/// The number of worker threads: the one asked for, else half the processors,
/// and at least one.
pub fn worker_threads(value: Option<&str>, processors: Option<usize>) -> (r: usize)
    ensures
        r == threads(setting(value), processors),
{
    let half: usize = match processors {
        Some(n) => n / 2,
        None => 0,
    };
    let default: usize = if half < 1 {
        1
    } else {
        half
    };
    match value {
        Some(v) => match text::parse_usize(v) {
            Some(n) => n,
            None => default,
        },
        None => default,
    }
}

/// Half the processors, and at least one.
pub open spec fn default_threads(processors: Option<usize>) -> usize {
    match processors {
        Some(n) => if n / 2 < 1 {
            1
        } else {
            n / 2
        },
        None => 1,
    }
}

/// The seconds between automatic refreshes, where they are asked for.
pub fn auto_refresh_secs(value: Option<&str>) -> (r: Option<u64>)
    ensures
        match setting(value) {
            Some(v) => match text::number(v, u64::MAX as nat) {
                Some(n) => if n > 0 {
                    r == Some(n as u64)
                } else {
                    r is None
                },
                None => r is None,
            },
            None => r is None,
        },
{
    match value {
        Some(v) => match text::parse_u64(v) {
            Some(n) => if n > 0 {
                Some(n)
            } else {
                None
            },
            None => None,
        },
        None => None,
    }
}

/// The version hint of a table marks its directory as an index, and nothing else does.
pub proof fn law_version_hints_mark_indexes(index: Seq<char>, path: Seq<char>)
    ensures
        !index.contains('/') ==> marked_index(index + "/metadata/version-hint.text"@)
            == Some(index),
        marked_index(path) matches Some(n) ==> !n.contains('/') && (n
            + "/metadata/version-hint.text"@).is_prefix_of(path),
{
    reveal_strlit("/metadata/version-hint.text");
    reveal_strlit("metadata");
    reveal_strlit("version-hint.text");
    let m = "metadata"@;
    let v = "version-hint.text"@;
    let tail = "/metadata/version-hint.text"@;
    assert(tail =~= seq!['/'] + m + seq!['/'] + v);
    if !index.contains('/') {
        assert(!m.contains('/'));
        assert(!v.contains('/'));
        text::lemma_piece_behind(Seq::empty(), index, '/');
        text::lemma_piece_behind(index, m, '/');
        text::lemma_piece_behind(index.push('/') + m, v, '/');
        assert((index.push('/') + m).push('/') + v =~= index + tail);
        let parts = text::pieces(index + tail, '/');
        assert(parts =~= seq![index, m, v]);
    }
    if let Some(n) = marked_index(path) {
        let parts = text::pieces(path, '/');
        text::law_pieces_join(path, '/');
        assert(!parts[0].contains('/'));
        lemma_three_pieces(parts);
        let three = n + seq!['/'] + m + seq!['/'] + v;
        assert(three =~= n + tail);
    }
}

proof fn lemma_three_pieces(parts: Seq<Seq<char>>)
    requires
        parts.len() >= 3,
    ensures
        (parts[0] + seq!['/'] + parts[1] + seq!['/'] + parts[2]).is_prefix_of(
            text::joined(parts, seq!['/']),
        ),
    decreases parts.len(),
{
    let all = text::joined(parts, seq!['/']);
    let front = parts.drop_last();
    let three = parts[0] + seq!['/'] + parts[1] + seq!['/'] + parts[2];
    if parts.len() == 3 {
        assert(front.drop_last() =~= seq![parts[0]]);
        assert(text::joined(seq![parts[0]], seq!['/']) == parts[0]);
        assert(text::joined(front, seq!['/']) == parts[0] + seq!['/'] + parts[1]);
        assert(all =~= three);
        assert(three.is_prefix_of(all)) by {
            assert(all.subrange(0, three.len() as int) =~= three);
        }
    } else {
        lemma_three_pieces(front);
        let before = text::joined(front, seq!['/']);
        assert(all =~= before + seq!['/'] + parts.last());
        assert(three.is_prefix_of(all)) by {
            assert(all.subrange(0, three.len() as int) =~= before.subrange(0, three.len() as int));
        }
    }
}

/// Data lies where the search setting says, else where the setting of the database says, else
/// below the home directory; a tilde stands for the home directory, and slashes at the end do
/// not count.
pub proof fn law_storage_lies_where_it_is_set(
    search: Seq<char>,
    stream: Seq<char>,
    other: Option<Seq<char>>,
    home: Seq<char>,
    path: Seq<char>,
)
    ensures
        storage_uri(Some(search), other, Some(home)) == storage_uri(Some(search), None, Some(home)),
        storage_uri(None, Some(stream), Some(home)) == storage_uri(Some(stream), None, Some(home)),
        storage_uri(None, None, Some(home)) == "file://"@ + home + "/.benostreamdb/search"@,
        storage_uri(Some(search + "/"@), other, Some(home)) == storage_uri(
            Some(search),
            other,
            Some(home),
        ),
        search.len() > 0 && search[0] != '~' && search.last() != '/' ==> storage_uri(
            Some(search),
            other,
            Some(home),
        ) == search,
        storage_uri(Some("~"@), other, Some(home)) == home,
        path.len() > 0 && path.last() != '/' ==> storage_uri(Some("~/"@ + path), other, Some(home))
            == home + "/"@ + path,
{
    reveal_strlit("~");
    reveal_strlit("~/");
    reveal_strlit("/");
    reveal_strlit("file://");
    reveal_strlit("/.benostreamdb/search");
    let d = default_uri(Some(home));
    assert(d.last() == 'h');
    assert(d[0] == 'f');
    assert(!("~/"@.is_prefix_of(d))) by {
        if "~/"@.is_prefix_of(d) {
            assert(d[0] == "~/"@[0]);
        }
    }
    assert((search + "/"@).drop_last() =~= search);
    assert((search + "/"@).last() == '/');
    if search.len() > 0 && search[0] != '~' {
        if "~/"@.is_prefix_of(search) {
            assert(search[0] == "~/"@[0]);
        }
    }
    assert("~"@.skip(1) =~= Seq::<char>::empty());
    assert(home + "~"@.skip(1) =~= home);
    if path.len() > 0 && path.last() != '/' {
        let t = "~/"@ + path;
        assert(t.last() == path.last());
        assert("~/"@.is_prefix_of(t)) by {
            assert(t.subrange(0, 2) =~= "~/"@);
        }
        assert(home + t.skip(1) =~= home + "/"@ + path);
    }
}

/// Half of the processors work, and one at least.
pub proof fn law_half_of_the_processors_work(n: usize)
    ensures
        default_threads(Some(n)) >= 1,
        n >= 2 ==> 2 * default_threads(Some(n)) <= n < 2 * default_threads(Some(n)) + 2,
        default_threads(None) == 1,
{
}

/// What is set counts as it is written: a port, a number of threads, and whether writes are
/// logged at once, in whatever case that is spelt. The search setting counts before that of
/// the database, and writes are logged later where neither is set.
pub proof fn law_settings_count_as_they_are_written(
    n: u16,
    default: u16,
    processors: Option<usize>,
    value: Seq<char>,
    other: Option<Seq<char>>,
)
    ensures
        port(Some(text::decimal(n as nat)), default) == n,
        port(None, default) == default,
        threads(Some(text::decimal(n as nat)), processors) == n,
        threads(None, processors) == default_threads(processors),
        durability(Some(value), other) == durability(Some(value), None),
        durability(None, Some(value)) == durability(Some(value), None),
        durability(None, None) == WalDurability::Async,
        text::lowered(value) == "sync"@ <==> durability(Some(value), None) == WalDurability::Sync,
{
    text::law_decimal_reads_back(n as nat, u16::MAX as nat);
    text::law_decimal_reads_back(n as nat, usize::MAX as nat);
}

} // verus!
