//! Graphs over rows, in compressed sparse rows: for each node the range of its
//! edges in one list.

use std::hash::{DefaultHasher, Hash, Hasher};
use vstd::prelude::*;
use vstd::string::*;

use crate::le;
use crate::order;
use crate::text;

verus! {

/// An edge to a node, by its place in the dictionary, and the row that it
/// comes from.
#[derive(Debug, Clone, Copy, PartialEq, Eq, Structural)]
pub struct CsrEdge {
    pub dst_id: u64,
    pub row_id: u32,
}

/// An edge as it was collected: from, to, and the row that it comes from.
pub type RawEdge = (u64, u64, u32);

/// The size of a stored edge: eight bytes and four, and four that pad.
pub const EDGE_BYTES: usize = 16;

// ---------------------------------------------------------------------------
// Collected edges
// ---------------------------------------------------------------------------

/// The bytes of a collected edge.
pub open spec fn raw_edge_bytes(e: RawEdge) -> Seq<u8> {
    le::le64(e.0) + le::le64(e.1) + le::le32(e.2)
}

/// The bytes of collected edges, one behind the other.
pub open spec fn raw_bytes(edges: Seq<RawEdge>) -> Seq<u8>
    decreases edges.len(),
{
    if edges.len() == 0 {
        Seq::empty()
    } else {
        raw_bytes(edges.drop_last()) + raw_edge_bytes(edges.last())
    }
}

/// The edge at a position.
pub open spec fn raw_edge_at(b: Seq<u8>, at: int) -> RawEdge {
    (le::u64_at(b, at), le::u64_at(b, at + 8), le::u32_at(b, at + 16))
}

/// The collected edges in bytes; a last one that is cut off is left out.
pub open spec fn raw_edges(b: Seq<u8>) -> Seq<RawEdge> {
    Seq::new(b.len() / 20, |i: int| raw_edge_at(b, 20 * i))
}

/// Writes collected edges.
pub fn encode_edges(edges: &Vec<RawEdge>) -> (r: Vec<u8>)
    ensures
        r@ == raw_bytes(edges@),
{
    let mut out: Vec<u8> = Vec::new();
    let mut i: usize = 0;
    while i < edges.len()
        invariant
            i <= edges.len(),
            out@ == raw_bytes(edges@.take(i as int)),
        decreases edges.len() - i,
    {
        assert(edges@.take(i + 1).drop_last() =~= edges@.take(i as int));
        let ghost before = out@;
        le::write_u64(&mut out, edges[i].0);
        le::write_u64(&mut out, edges[i].1);
        le::write_u32(&mut out, edges[i].2);
        assert(out@ =~= before + raw_edge_bytes(edges@[i as int]));
        i = i + 1;
    }
    assert(edges@.take(i as int) =~= edges@);
    out
}

/// Reads collected edges.
pub fn decode_edges(b: &[u8]) -> (r: Vec<RawEdge>)
    ensures
        r@ == raw_edges(b@),
{
    let mut out: Vec<RawEdge> = Vec::new();
    let n: usize = b.len();
    let mut at: usize = 0;
    while n - at >= 20
        invariant
            n == b@.len(),
            at <= n,
            at == 20 * out.len(),
            forall|i: int| 0 <= i < out.len() ==> #[trigger] out@[i] == raw_edge_at(b@, 20 * i),
        decreases n - at,
    {
        out.push((le::read_u64(b, at), le::read_u64(b, at + 8), le::read_u32(b, at + 16)));
        at = at + 20;
    }
    assert(out@ =~= raw_edges(b@));
    out
}

proof fn lemma_raw_bytes(edges: Seq<RawEdge>, i: int)
    requires
        0 <= i < edges.len(),
    ensures
        raw_bytes(edges).len() == 20 * edges.len(),
        raw_bytes(edges).subrange(20 * i, 20 * i + 20) == raw_edge_bytes(edges[i]),
    decreases edges.len(),
{
    let front = edges.drop_last();
    if front.len() > 0 {
        lemma_raw_bytes(front, if i < front.len() { i } else { 0 });
    } else {
        assert(raw_bytes(front) =~= Seq::<u8>::empty());
    }
    let all = raw_bytes(edges);
    if i < front.len() {
        assert(all.subrange(20 * i, 20 * i + 20) =~= raw_bytes(front).subrange(
            20 * i,
            20 * i + 20,
        ));
    } else {
        assert(all.subrange(20 * i, 20 * i + 20) =~= raw_edge_bytes(edges[i]));
    }
}

proof fn lemma_raw_edge(b: Seq<u8>, at: int, e: RawEdge)
    requires
        0 <= at,
        at + 20 <= b.len(),
        b.subrange(at, at + 20) == raw_edge_bytes(e),
    ensures
        raw_edge_at(b, at) == e,
{
    let s = b.subrange(at, at + 20);
    assert(b.subrange(at, at + 8) =~= s.subrange(0, 8));
    assert(b.subrange(at + 8, at + 16) =~= s.subrange(8, 16));
    assert(b.subrange(at + 16, at + 20) =~= s.subrange(16, 20));
    assert(le::le64(e.0).len() == 8 && le::le64(e.1).len() == 8 && le::le32(e.2).len() == 4);
    assert(s.subrange(0, 8) =~= le::le64(e.0));
    assert(s.subrange(8, 16) =~= le::le64(e.1));
    assert(s.subrange(16, 20) =~= le::le32(e.2));
    le::law_u64_reads_back(b, at, e.0);
    le::law_u64_reads_back(b, at + 8, e.1);
    le::law_u32_reads_back(b, at + 16, e.2);
}

/// Collected edges are read back as they were written.
pub proof fn law_edges_read_back(edges: Seq<RawEdge>)
    ensures
        raw_edges(raw_bytes(edges)) == edges,
{
    let b = raw_bytes(edges);
    if edges.len() > 0 {
        lemma_raw_bytes(edges, 0);
    }
    assert(b.len() == 20 * edges.len());
    let back = raw_edges(b);
    assert forall|i: int| 0 <= i < edges.len() implies back[i] == edges[i] by {
        lemma_raw_bytes(edges, i);
        lemma_raw_edge(b, 20 * i, edges[i]);
    }
    assert(back =~= edges);
}

// ---------------------------------------------------------------------------
// Collecting
// ---------------------------------------------------------------------------

/// The nodes in a column: whole numbers, or the texts of other values.
#[derive(Debug)]
pub enum NodeColumn {
    Unsigned(Vec<Option<u64>>),
    Signed(Vec<Option<i64>>),
    Text(Vec<String>),
}

/// The column holds whole numbers.
pub open spec fn is_numeric(c: NodeColumn) -> bool {
    !(c is Text)
}

/// The number of rows.
pub open spec fn column_rows(c: NodeColumn) -> nat {
    match c {
        NodeColumn::Unsigned(v) => v@.len(),
        NodeColumn::Signed(v) => v@.len(),
        NodeColumn::Text(v) => v@.len(),
    }
}

/// The node of a row of whole numbers; none where the row is null.
pub open spec fn node_at(c: NodeColumn, i: int) -> Option<u64> {
    match c {
        NodeColumn::Unsigned(v) => v@[i],
        NodeColumn::Signed(v) => match v@[i] {
            Some(x) => Some(x as u64),
            None => None,
        },
        NodeColumn::Text(v) => None,
    }
}

fn read_node(c: &NodeColumn, i: usize) -> (r: Option<u64>)
    requires
        i < column_rows(*c),
    ensures
        r == node_at(*c, i as int),
{
    match c {
        NodeColumn::Unsigned(v) => v[i],
        NodeColumn::Signed(v) => match v[i] {
            Some(x) => Some(x as u64),
            None => None,
        },
        NodeColumn::Text(_) => None,
    }
}

/// The edges of the first `n` rows: rows with a null are passed over.
pub open spec fn edges_of_rows(
    src: spec_fn(int) -> Option<u64>,
    dst: spec_fn(int) -> Option<u64>,
    row_offset: int,
    n: int,
) -> Seq<RawEdge>
    decreases n,
{
    if n <= 0 {
        Seq::empty()
    } else {
        let before = edges_of_rows(src, dst, row_offset, n - 1);
        match (src(n - 1), dst(n - 1)) {
            (Some(s), Some(d)) => before.push((s, d, (row_offset + n - 1) as u32)),
            _ => before,
        }
    }
}

/// The edges of two columns of whole numbers.
pub open spec fn numeric_edges(src: NodeColumn, dst: NodeColumn, row_offset: int, n: int) -> Seq<
    RawEdge,
> {
    edges_of_rows(|i: int| node_at(src, i), |i: int| node_at(dst, i), row_offset, n)
}

/// Collects the edges of two columns of whole numbers.
pub fn collect_numeric(src: &NodeColumn, dst: &NodeColumn, row_offset: usize, rows: usize) -> (r:
    Vec<RawEdge>)
    requires
        rows <= column_rows(*src),
        rows <= column_rows(*dst),
        row_offset + rows <= usize::MAX,
    ensures
        r@ == numeric_edges(*src, *dst, row_offset as int, rows as int),
{
    let mut edges: Vec<RawEdge> = Vec::new();
    let mut i: usize = 0;
    while i < rows
        invariant
            i <= rows,
            rows <= column_rows(*src),
            rows <= column_rows(*dst),
            row_offset + rows <= usize::MAX,
            edges@ == numeric_edges(*src, *dst, row_offset as int, i as int),
        decreases rows - i,
    {
        match (read_node(src, i), read_node(dst, i)) {
            (Some(s), Some(d)) => {
                edges.push((s, d, (row_offset + i) as u32));
            },
            _ => {},
        }
        i = i + 1;
    }
    edges
}

/// The edges of two columns of hashes.
pub open spec fn hashed_edges(src: Seq<u64>, dst: Seq<u64>, row_offset: int) -> Seq<RawEdge> {
    Seq::new(src.len(), |i: int| (src[i], dst[i], (row_offset + i) as u32))
}

/// Collects the edges of two columns, given the hashes of their values.
pub fn collect_hashed(src: &Vec<u64>, dst: &Vec<u64>, row_offset: usize) -> (r: Vec<RawEdge>)
    requires
        src.len() == dst.len(),
        row_offset + src.len() <= usize::MAX,
    ensures
        r@ == hashed_edges(src@, dst@, row_offset as int),
{
    let mut edges: Vec<RawEdge> = Vec::new();
    let mut i: usize = 0;
    while i < src.len()
        invariant
            i <= src.len(),
            src.len() == dst.len(),
            row_offset + src.len() <= usize::MAX,
            edges.len() == i,
            forall|k: int|
                0 <= k < i ==> #[trigger] edges@[k] == (src@[k], dst@[k], (row_offset + k) as u32),
        decreases src.len() - i,
    {
        edges.push((src[i], dst[i], (row_offset + i) as u32));
        i = i + 1;
    }
    assert(edges@ =~= hashed_edges(src@, dst@, row_offset as int));
    edges
}

/// The hash of a text by `std::hash::DefaultHasher`, in the release of std that the
/// crate is built with.
pub uninterp spec fn text_hash(s: Seq<char>) -> u64;

/// The hash of a text (`std::hash::DefaultHasher`). All hashers that `new` makes
/// hash alike, so that the hash is that of the text alone. Which number it is, is
/// left open: the algorithm is not documented, and std does not promise that another
/// release gives the same one.
#[verifier::external_body]
fn hash_text(s: &str) -> (r: u64)
    ensures
        r == text_hash(s@),
{
    let mut hasher = DefaultHasher::new();
    s.hash(&mut hasher);
    hasher.finish()
}

/// The hashes of the first texts.
pub open spec fn hashes_of(texts: Seq<String>, n: int) -> Seq<u64> {
    Seq::new(n as nat, |i: int| text_hash(texts[i]@))
}

fn hash_texts(texts: &Vec<String>, n: usize) -> (r: Vec<u64>)
    requires
        n <= texts.len(),
    ensures
        r@ == hashes_of(texts@, n as int),
{
    let mut hashes: Vec<u64> = Vec::new();
    let mut i: usize = 0;
    while i < n
        invariant
            i <= n <= texts.len(),
            hashes@ == hashes_of(texts@, i as int),
        decreases n - i,
    {
        hashes.push(hash_text(texts[i].as_str()));
        i = i + 1;
        assert(hashes@ =~= hashes_of(texts@, i as int));
    }
    hashes
}

/// The edges of the first rows of two columns.
pub open spec fn collected_edges(src: NodeColumn, dst: NodeColumn, row_offset: int, rows: int) -> Seq<
    RawEdge,
> {
    match (src, dst) {
        (NodeColumn::Text(s), NodeColumn::Text(d)) => hashed_edges(
            hashes_of(s@, rows),
            hashes_of(d@, rows),
            row_offset,
        ),
        _ => numeric_edges(src, dst, row_offset, rows),
    }
}

/// Collects the edges of two columns: whole numbers are nodes themselves, other
/// values are hashed.
pub fn collect_edges(src: &NodeColumn, dst: &NodeColumn, row_offset: usize, rows: usize) -> (r:
    Vec<RawEdge>)
    requires
        is_numeric(*src) == is_numeric(*dst),
        rows <= column_rows(*src),
        rows <= column_rows(*dst),
        row_offset + rows <= usize::MAX,
    ensures
        r@ == collected_edges(*src, *dst, row_offset as int, rows as int),
{
    match (src, dst) {
        (NodeColumn::Text(s), NodeColumn::Text(d)) => {
            let hs: Vec<u64> = hash_texts(s, rows);
            let hd: Vec<u64> = hash_texts(d, rows);
            collect_hashed(&hs, &hd, row_offset)
        },
        _ => collect_numeric(src, dst, row_offset, rows),
    }
}

/// Rows with the same text start from the same node.
pub proof fn law_equal_texts_are_one_node(
    src: Vec<String>,
    dst: Vec<String>,
    row_offset: int,
    rows: int,
    i: int,
    j: int,
)
    requires
        0 <= i < rows,
        0 <= j < rows,
        src@[i]@ == src@[j]@,
    ensures
        ({
            let edges = collected_edges(NodeColumn::Text(src), NodeColumn::Text(dst), row_offset, rows);
            edges[i].0 == edges[j].0
        }),
{
}

/// The name of the file that the edges of a virtual column are collected in.
pub fn edge_file_name(segment_id: &str, column: &str) -> (r: String)
    ensures
        r@ == segment_id@ + "."@ + column@ + ".tmp.graph.bin"@,
{
    let mut name: String = segment_id.to_owned();
    name.append(".");
    name.append(column);
    name.append(".tmp.graph.bin");
    name
}

// ---------------------------------------------------------------------------
// Building
// ---------------------------------------------------------------------------

/// A graph, laid out: where the edges of each node start, the edges, and the
/// nodes in ascending order.
#[derive(Debug)]
pub struct CsrParts {
    pub offsets: Vec<u64>,
    pub edges: Vec<CsrEdge>,
    pub dict: Vec<u64>,
}

/// A node is an end of some edge.
pub open spec fn is_endpoint(raw: Seq<RawEdge>, id: u64) -> bool {
    exists|i: int| 0 <= i < raw.len() && ((#[trigger] raw[i]).0 == id || raw[i].1 == id)
}

/// Numbers in strictly ascending order.
pub open spec fn rises(v: Seq<u64>) -> bool {
    forall|i: int, j: int| #![trigger v[i], v[j]] 0 <= i < j < v.len() ==> v[i] < v[j]
}

/// The nodes of the edges, each once and in ascending order.
pub open spec fn is_dictionary(dict: Seq<u64>, raw: Seq<RawEdge>) -> bool {
    &&& rises(dict)
    &&& forall|id: u64| #[trigger] dict.contains(id) <==> is_endpoint(raw, id)
}

/// The first `o` keys are those below `s`.
pub open spec fn splits_at(keys: Seq<usize>, s: int, o: int) -> bool {
    &&& 0 <= o <= keys.len()
    &&& forall|q: int| 0 <= q < keys.len() ==> ((#[trigger] keys[q]) < s <==> q < o)
}

/// The edge at `p` is one of the node at place `s`.
pub open spec fn in_range_of(offsets: Seq<u64>, s: int, p: int) -> bool {
    offsets[s] <= p < offsets[s + 1]
}

/// The edges are those collected, in the order of their first nodes; the edges
/// of the node at place `s` are those from `offsets[s]` to `offsets[s + 1]`,
/// in the order in which they were collected.
pub open spec fn lays_out(parts: CsrParts, raw: Seq<RawEdge>, order: Seq<usize>) -> bool {
    &&& order::lists_range(order, 0, raw.len() as int)
    &&& parts.edges@.len() == raw.len()
    &&& forall|p: int|
        0 <= p < raw.len() ==> {
            &&& (#[trigger] parts.edges@[p]).dst_id < parts.dict@.len()
            &&& parts.dict@[parts.edges@[p].dst_id as int] == raw[order[p] as int].1
            &&& parts.edges@[p].row_id == raw[order[p] as int].2
        }
    &&& forall|s: int, p: int|
        0 <= s < parts.dict@.len() && 0 <= p < raw.len() ==> (#[trigger] in_range_of(
            parts.offsets@,
            s,
            p,
        ) <==> parts.dict@[s] == raw[order[p] as int].0)
    &&& forall|p: int, q: int|
        #![trigger order[p], order[q]]
        0 <= p < q < raw.len() && raw[order[p] as int].0 == raw[order[q] as int].0 ==> order[p]
            < order[q]
}

impl CsrParts {
    /// The number of nodes that have a range of edges. A graph without edges
    /// has one, without a node.
    pub open spec fn nodes(self) -> int {
        if self.dict@.len() == 0 {
            1
        } else {
            self.dict@.len() as int
        }
    }

    /// The ranges follow one another and cover the edges, every edge leads to a
    /// node, and the nodes ascend.
    pub open spec fn wf(self) -> bool {
        &&& rises(self.dict@)
        &&& self.offsets@.len() == self.nodes() + 1
        &&& self.offsets@[0] == 0
        &&& self.offsets@[self.nodes()] == self.edges@.len()
        &&& forall|i: int, j: int|
            #![trigger self.offsets@[i], self.offsets@[j]]
            0 <= i <= j < self.offsets@.len() ==> self.offsets@[i] <= self.offsets@[j]
        &&& forall|p: int|
            0 <= p < self.edges@.len() ==> (#[trigger] self.edges@[p]).dst_id < self.dict@.len()
    }
}

/// The place of a number in an ascending list.
fn place_in(dict: &Vec<u64>, id: u64) -> (r: Option<usize>)
    requires
        rises(dict@),
    ensures
        match r {
            Some(i) => i < dict.len() && dict@[i as int] == id,
            None => !dict@.contains(id),
        },
{
    let mut lo: usize = 0;
    let mut hi: usize = dict.len();
    while lo < hi
        invariant
            lo <= hi <= dict.len(),
            rises(dict@),
            forall|i: int| 0 <= i < lo ==> #[trigger] dict@[i] < id,
            forall|i: int| hi <= i < dict.len() ==> #[trigger] dict@[i] > id,
        decreases hi - lo,
    {
        let mid: usize = lo + (hi - lo) / 2;
        if dict[mid] == id {
            return Some(mid);
        }
        if dict[mid] < id {
            lo = mid + 1;
        } else {
            hi = mid;
        }
    }
    None
}

/// The nodes of the edges, each once and in ascending order.
fn build_dictionary(raw: &Vec<RawEdge>) -> (r: Vec<u64>)
    requires
        2 * raw.len() < usize::MAX,
    ensures
        is_dictionary(r@, raw@),
        r.len() <= 2 * raw.len(),
{
    let mut ids: Vec<u64> = Vec::new();
    let mut i: usize = 0;
    while i < raw.len()
        invariant
            i <= raw.len(),
            ids.len() == 2 * i,
            2 * raw.len() < usize::MAX,
            forall|k: int| 0 <= k < ids.len() ==> is_endpoint(raw@, #[trigger] ids@[k]),
            forall|k: int|
                0 <= k < i ==> ids@.contains((#[trigger] raw@[k]).0) && ids@.contains(raw@[k].1),
        decreases raw.len() - i,
    {
        let ghost before = ids@;
        ids.push(raw[i].0);
        ids.push(raw[i].1);
        proof {
            assert(raw@[i as int].0 == ids@[before.len() as int]);
            assert(raw@[i as int].1 == ids@[before.len() as int + 1]);
            assert forall|k: int| 0 <= k < i implies ids@.contains((#[trigger] raw@[k]).0)
                && ids@.contains(raw@[k].1) by {
                let a = choose|a: int| 0 <= a < before.len() && before[a] == raw@[k].0;
                assert(ids@[a] == raw@[k].0);
                let b = choose|b: int| 0 <= b < before.len() && before[b] == raw@[k].1;
                assert(ids@[b] == raw@[k].1);
            }
        }
        i = i + 1;
    }
    let sorted: Vec<usize> = order::sorted_order(&ids);
    let mut dict: Vec<u64> = Vec::new();
    let mut p: usize = 0;
    while p < sorted.len()
        invariant
            p <= sorted.len(),
            dict.len() <= p,
            order::is_sorted_order(ids@, sorted@),
            forall|k: int| 0 <= k < ids.len() ==> is_endpoint(raw@, #[trigger] ids@[k]),
            rises(dict@),
            forall|k: int| 0 <= k < dict.len() ==> is_endpoint(raw@, #[trigger] dict@[k]),
            forall|q: int| 0 <= q < p ==> dict@.contains(ids@[#[trigger] sorted@[q] as int]),
            p > 0 ==> dict.len() > 0 && dict@.last() == ids@[sorted@[p - 1] as int],
            p == 0 ==> dict.len() == 0,
        decreases sorted.len() - p,
    {
        assert(sorted@[p as int] < ids.len());
        let id: u64 = ids[sorted[p]];
        let ghost before = dict@;
        if p > 0 {
            assert(order::comes_before(ids@, sorted@[p - 1] as int, sorted@[p as int] as int));
        }
        if dict.len() == 0 || dict[dict.len() - 1] != id {
            dict.push(id);
            assert(dict@[dict.len() - 1] == id);
        }
        proof {
            assert(dict@.last() == id);
            assert(dict@[dict.len() - 1] == id);
            assert forall|q: int| 0 <= q < p + 1 implies dict@.contains(
                ids@[#[trigger] sorted@[q] as int],
            ) by {
                if q < p {
                    let k = choose|k: int|
                        0 <= k < before.len() && before[k] == ids@[sorted@[q] as int];
                    assert(dict@[k] == ids@[sorted@[q] as int]);
                }
            }
        }
        p = p + 1;
    }
    proof {
        assert forall|id: u64| #[trigger] dict@.contains(id) <==> is_endpoint(raw@, id) by {
            if is_endpoint(raw@, id) {
                let k = choose|k: int|
                    0 <= k < raw.len() && ((#[trigger] raw@[k]).0 == id || raw@[k].1 == id);
                assert(ids@.contains(raw@[k].0) && ids@.contains(raw@[k].1));
                let a = choose|a: int| 0 <= a < ids.len() && ids@[a] == id;
                assert(sorted@.contains(a as usize));
                let q = choose|q: int| 0 <= q < sorted@.len() && sorted@[q] == a as usize;
                assert(dict@.contains(ids@[sorted@[q] as int]));
            }
        }
    }
    dict
}

/// Where the edges of each node start, for keys in ascending order.
fn build_offsets(keys: &Vec<usize>, nodes: usize) -> (r: Vec<u64>)
    requires
        nodes > 0,
        nodes < usize::MAX,
        forall|i: int, j: int|
            #![trigger keys@[i], keys@[j]]
            0 <= i < j < keys.len() ==> keys@[i] <= keys@[j],
        forall|i: int| 0 <= i < keys.len() ==> #[trigger] keys@[i] < nodes,
    ensures
        r.len() == nodes + 1,
        forall|s: int| 0 <= s <= nodes ==> splits_at(keys@, s, #[trigger] r@[s] as int),
{
    let mut offsets: Vec<u64> = Vec::new();
    offsets.push(0);
    let mut p: usize = 0;
    while p < keys.len()
        invariant
            p <= keys.len(),
            0 < offsets.len() <= nodes,
            nodes < usize::MAX,
            forall|i: int, j: int|
                #![trigger keys@[i], keys@[j]]
                0 <= i < j < keys.len() ==> keys@[i] <= keys@[j],
            forall|i: int| 0 <= i < keys.len() ==> #[trigger] keys@[i] < nodes,
            forall|q: int| 0 <= q < p ==> #[trigger] keys@[q] < offsets.len(),
            forall|s: int|
                0 <= s < offsets.len() ==> splits_at(keys@, s, #[trigger] offsets@[s] as int),
        decreases keys.len() - p,
    {
        while offsets.len() <= keys[p]
            invariant
                p < keys.len(),
                0 < offsets.len() <= nodes,
                nodes < usize::MAX,
                forall|i: int, j: int|
                    #![trigger keys@[i], keys@[j]]
                    0 <= i < j < keys.len() ==> keys@[i] <= keys@[j],
                forall|i: int| 0 <= i < keys.len() ==> #[trigger] keys@[i] < nodes,
                forall|q: int| 0 <= q < p ==> #[trigger] keys@[q] < offsets.len(),
                forall|s: int|
                    0 <= s < offsets.len() ==> splits_at(keys@, s, #[trigger] offsets@[s] as int),
            decreases nodes - offsets.len(),
        {
            assert(splits_at(keys@, offsets.len() as int, p as int)) by {
                assert forall|q: int| 0 <= q < keys.len() implies ((#[trigger] keys@[q])
                    < offsets.len() <==> q < p) by {
                    if q > p {
                        assert(keys@[p as int] <= keys@[q]);
                    }
                }
            }
            offsets.push(p as u64);
        }
        p = p + 1;
    }
    while offsets.len() <= nodes
        invariant
            0 < offsets.len() <= nodes + 1,
            nodes < usize::MAX,
            forall|q: int| 0 <= q < keys.len() ==> #[trigger] keys@[q] < offsets.len(),
            forall|s: int|
                0 <= s < offsets.len() ==> splits_at(keys@, s, #[trigger] offsets@[s] as int),
        decreases nodes + 1 - offsets.len(),
    {
        assert(splits_at(keys@, offsets.len() as int, keys.len() as int));
        offsets.push(keys.len() as u64);
    }
    offsets
}

/// Lays out the graph of collected edges.
pub fn build(raw: &Vec<RawEdge>) -> (r: CsrParts)
    requires
        2 * raw.len() < usize::MAX,
    ensures
        r.wf(),
        is_dictionary(r.dict@, raw@),
        exists|order: Seq<usize>| #[trigger] lays_out(r, raw@, order),
{
    let dict: Vec<u64> = build_dictionary(raw);
    let mut keys: Vec<usize> = Vec::new();
    let mut i: usize = 0;
    while i < raw.len()
        invariant
            i <= raw.len(),
            is_dictionary(dict@, raw@),
            keys.len() == i,
            forall|k: int|
                0 <= k < i ==> #[trigger] keys@[k] < dict.len() && dict@[keys@[k] as int]
                    == raw@[k].0,
        decreases raw.len() - i,
    {
        proof {
            assert(is_endpoint(raw@, raw@[i as int].0));
            assert(dict@.contains(raw@[i as int].0));
        }
        match place_in(&dict, raw[i].0) {
            Some(s) => {
                keys.push(s);
            },
            None => {},
        }
        i = i + 1;
    }
    let by_src: Vec<usize> = order::sorted_order(&keys);
    let mut sorted_keys: Vec<usize> = Vec::new();
    let mut edges: Vec<CsrEdge> = Vec::new();
    let mut p: usize = 0;
    while p < by_src.len()
        invariant
            p <= by_src.len(),
            by_src.len() == raw.len(),
            keys.len() == raw.len(),
            is_dictionary(dict@, raw@),
            order::is_sorted_order(keys@, by_src@),
            sorted_keys.len() == p,
            edges.len() == p,
            forall|q: int|
                0 <= q < p ==> #[trigger] sorted_keys@[q] == keys@[by_src@[q] as int],
            forall|q: int|
                0 <= q < p ==> {
                    &&& (#[trigger] edges@[q]).dst_id < dict@.len()
                    &&& dict@[edges@[q].dst_id as int] == raw@[by_src@[q] as int].1
                    &&& edges@[q].row_id == raw@[by_src@[q] as int].2
                },
        decreases by_src.len() - p,
    {
        let at: usize = by_src[p];
        assert(by_src@[p as int] < raw.len());
        proof {
            assert(is_endpoint(raw@, raw@[at as int].1));
            assert(dict@.contains(raw@[at as int].1));
        }
        sorted_keys.push(keys[at]);
        match place_in(&dict, raw[at].1) {
            Some(d) => {
                edges.push(CsrEdge { dst_id: d as u64, row_id: raw[at].2 });
            },
            None => {},
        }
        p = p + 1;
    }
    proof {
        assert forall|a: int, b: int|
            #![trigger sorted_keys@[a], sorted_keys@[b]]
            0 <= a < b < sorted_keys.len() implies sorted_keys@[a] <= sorted_keys@[b] by {
            assert(order::comes_before(keys@, by_src@[a] as int, by_src@[b] as int));
        }
        assert forall|a: int| 0 <= a < sorted_keys.len() implies #[trigger] sorted_keys@[a]
            < dict.len() by {
            assert(keys@[by_src@[a] as int] < dict.len());
        }
    }
    let nodes: usize = if dict.len() == 0 {
        1
    } else {
        dict.len()
    };
    let offsets: Vec<u64> = build_offsets(&sorted_keys, nodes);
    let parts = CsrParts { offsets, edges, dict };
    proof {
        let o = parts.offsets@;
        let n = sorted_keys@.len() as int;
        assert forall|s: int| 0 <= s <= nodes implies splits_at(
            sorted_keys@,
            s,
            #[trigger] o[s] as int,
        ) by {}
        assert(o[0] == 0) by {
            assert(splits_at(sorted_keys@, 0, o[0] as int));
            if o[0] > 0 {
                assert(sorted_keys@[0] < 0);
            }
        }
        assert(o[nodes as int] == n) by {
            assert(splits_at(sorted_keys@, nodes as int, o[nodes as int] as int));
            if o[nodes as int] < n {
                assert(sorted_keys@[o[nodes as int] as int] < nodes);
            }
        }
        assert forall|a: int, b: int| #![trigger o[a], o[b]] 0 <= a <= b < o.len() implies o[a]
            <= o[b] by {
            assert(splits_at(sorted_keys@, a, o[a] as int));
            assert(splits_at(sorted_keys@, b, o[b] as int));
            if o[b] < o[a] {
                assert(sorted_keys@[o[b] as int] < a);
            }
        }
        assert forall|s: int, q: int| 0 <= s < parts.dict@.len() && 0 <= q < raw.len() implies (
        #[trigger] in_range_of(parts.offsets@, s, q) <==> parts.dict@[s]
            == raw@[by_src@[q] as int].0) by {
            assert(splits_at(sorted_keys@, s, o[s] as int));
            assert(splits_at(sorted_keys@, s + 1, o[s + 1] as int));
            let k = sorted_keys@[q];
            assert(k == keys@[by_src@[q] as int]);
            assert(dict@[k as int] == raw@[by_src@[q] as int].0);
            if k < s {
                assert(dict@[k as int] < dict@[s]);
            }
            if k > s {
                assert(dict@[s] < dict@[k as int]);
            }
        }
        assert forall|a: int, b: int|
            #![trigger by_src@[a], by_src@[b]]
            0 <= a < b < raw.len() && raw@[by_src@[a] as int].0
                == raw@[by_src@[b] as int].0 implies by_src@[a]
            < by_src@[b] by {
            assert(order::comes_before(keys@, by_src@[a] as int, by_src@[b] as int));
            let x = keys@[by_src@[a] as int] as int;
            let y = keys@[by_src@[b] as int] as int;
            assert(dict@[x] == dict@[y]);
            if x < y {
                assert(dict@[x] < dict@[y]);
            }
            if y < x {
                assert(dict@[y] < dict@[x]);
            }
        }
        assert(lays_out(parts, raw@, by_src@));
    }
    parts
}

// ---------------------------------------------------------------------------
// Files
// ---------------------------------------------------------------------------

/// The bytes of numbers, eight for each.
pub open spec fn le64_all(values: Seq<u64>) -> Seq<u8>
    decreases values.len(),
{
    if values.len() == 0 {
        Seq::empty()
    } else {
        le64_all(values.drop_last()) + le::le64(values.last())
    }
}

/// The bytes of an edge.
pub open spec fn edge_bytes(e: CsrEdge) -> Seq<u8> {
    le::le64(e.dst_id) + le::le32(e.row_id) + le::le32(0)
}

/// The bytes of edges.
pub open spec fn all_edge_bytes(edges: Seq<CsrEdge>) -> Seq<u8>
    decreases edges.len(),
{
    if edges.len() == 0 {
        Seq::empty()
    } else {
        all_edge_bytes(edges.drop_last()) + edge_bytes(edges.last())
    }
}

/// The numbers in bytes.
pub open spec fn numbers_in(b: Seq<u8>) -> Seq<u64> {
    Seq::new(b.len() / 8, |i: int| le::u64_at(b, 8 * i))
}

/// The edges in bytes.
pub open spec fn edges_in(b: Seq<u8>) -> Seq<CsrEdge> {
    Seq::new(
        b.len() / 16,
        |i: int| CsrEdge { dst_id: le::u64_at(b, 16 * i), row_id: le::u32_at(b, 16 * i + 8) },
    )
}

fn write_numbers(values: &Vec<u64>) -> (r: Vec<u8>)
    ensures
        r@ == le64_all(values@),
{
    let mut out: Vec<u8> = Vec::new();
    let mut i: usize = 0;
    while i < values.len()
        invariant
            i <= values.len(),
            out@ == le64_all(values@.take(i as int)),
        decreases values.len() - i,
    {
        assert(values@.take(i + 1).drop_last() =~= values@.take(i as int));
        le::write_u64(&mut out, values[i]);
        i = i + 1;
    }
    assert(values@.take(i as int) =~= values@);
    out
}

fn write_edges(edges: &Vec<CsrEdge>) -> (r: Vec<u8>)
    ensures
        r@ == all_edge_bytes(edges@),
{
    let mut out: Vec<u8> = Vec::new();
    let mut i: usize = 0;
    while i < edges.len()
        invariant
            i <= edges.len(),
            out@ == all_edge_bytes(edges@.take(i as int)),
        decreases edges.len() - i,
    {
        assert(edges@.take(i + 1).drop_last() =~= edges@.take(i as int));
        let ghost before = out@;
        le::write_u64(&mut out, edges[i].dst_id);
        le::write_u32(&mut out, edges[i].row_id);
        le::write_u32(&mut out, 0);
        assert(out@ =~= before + edge_bytes(edges@[i as int]));
        i = i + 1;
    }
    assert(edges@.take(i as int) =~= edges@);
    out
}

proof fn lemma_le64_all(values: Seq<u64>, i: int)
    requires
        0 <= i < values.len(),
    ensures
        le64_all(values).len() == 8 * values.len(),
        le64_all(values).subrange(8 * i, 8 * i + 8) == le::le64(values[i]),
    decreases values.len(),
{
    let front = values.drop_last();
    if front.len() > 0 {
        lemma_le64_all(front, if i < front.len() { i } else { 0 });
    } else {
        assert(le64_all(front) =~= Seq::<u8>::empty());
    }
    let all = le64_all(values);
    if i < front.len() {
        assert(all.subrange(8 * i, 8 * i + 8) =~= le64_all(front).subrange(8 * i, 8 * i + 8));
    } else {
        assert(all.subrange(8 * i, 8 * i + 8) =~= le::le64(values[i]));
    }
}

proof fn lemma_all_edge_bytes(edges: Seq<CsrEdge>, i: int)
    requires
        0 <= i < edges.len(),
    ensures
        all_edge_bytes(edges).len() == 16 * edges.len(),
        all_edge_bytes(edges).subrange(16 * i, 16 * i + 16) == edge_bytes(edges[i]),
    decreases edges.len(),
{
    let front = edges.drop_last();
    if front.len() > 0 {
        lemma_all_edge_bytes(front, if i < front.len() { i } else { 0 });
    } else {
        assert(all_edge_bytes(front) =~= Seq::<u8>::empty());
    }
    let all = all_edge_bytes(edges);
    if i < front.len() {
        assert(all.subrange(16 * i, 16 * i + 16) =~= all_edge_bytes(front).subrange(
            16 * i,
            16 * i + 16,
        ));
    } else {
        assert(all.subrange(16 * i, 16 * i + 16) =~= edge_bytes(edges[i]));
    }
}

/// The offsets and nodes of a graph are read back from their files.
pub proof fn law_numbers_file_reads_back(values: Seq<u64>)
    ensures
        le64_all(values).len() % 8 == 0,
        numbers_in(le64_all(values)) == values,
{
    let b = le64_all(values);
    if values.len() > 0 {
        lemma_le64_all(values, 0);
    }
    let back = numbers_in(b);
    assert forall|i: int| 0 <= i < values.len() implies back[i] == values[i] by {
        lemma_le64_all(values, i);
        le::law_u64_reads_back(b, 8 * i, values[i]);
    }
    assert(back =~= values);
}

proof fn lemma_edge(b: Seq<u8>, at: int, e: CsrEdge)
    requires
        0 <= at,
        at + 16 <= b.len(),
        b.subrange(at, at + 16) == edge_bytes(e),
    ensures
        le::u64_at(b, at) == e.dst_id,
        le::u32_at(b, at + 8) == e.row_id,
{
    let s = b.subrange(at, at + 16);
    assert(b.subrange(at, at + 8) =~= s.subrange(0, 8));
    assert(b.subrange(at + 8, at + 12) =~= s.subrange(8, 12));
    assert(le::le64(e.dst_id).len() == 8 && le::le32(e.row_id).len() == 4);
    assert(s.subrange(0, 8) =~= le::le64(e.dst_id));
    assert(s.subrange(8, 12) =~= le::le32(e.row_id));
    le::law_u64_reads_back(b, at, e.dst_id);
    le::law_u32_reads_back(b, at + 8, e.row_id);
}

/// The edges of a graph are read back from their file.
pub proof fn law_edge_file_reads_back(edges: Seq<CsrEdge>)
    ensures
        all_edge_bytes(edges).len() % 16 == 0,
        edges_in(all_edge_bytes(edges)) == edges,
{
    let b = all_edge_bytes(edges);
    if edges.len() > 0 {
        lemma_all_edge_bytes(edges, 0);
    }
    let back = edges_in(b);
    assert forall|i: int| 0 <= i < edges.len() implies back[i] == edges[i] by {
        lemma_all_edge_bytes(edges, i);
        lemma_edge(b, 16 * i, edges[i]);
    }
    assert(back =~= edges);
}

/// The files of a graph: their names and bytes.
#[derive(Debug)]
pub struct CsrFiles {
    pub offsets_path: String,
    pub offsets: Vec<u8>,
    pub edges_path: String,
    pub edges: Vec<u8>,
    pub dict_path: String,
    pub dict: Vec<u8>,
}

fn with_ending(base: &str, ending: &str) -> (r: String)
    ensures
        r@ == base@ + ending@,
{
    let mut path: String = base.to_owned();
    path.append(ending);
    path
}

/// The files of the graph of collected edges.
pub fn build_files(collected: &[u8], base_path: &str) -> (r: CsrFiles)
    requires
        collected@.len() < usize::MAX,
    ensures
        r.offsets_path@ == base_path@ + ".graph.csr.offsets"@,
        r.edges_path@ == base_path@ + ".graph.csr.edges"@,
        r.dict_path@ == base_path@ + ".graph.csr.dict"@,
        exists|parts: CsrParts, order: Seq<usize>|
            {
                &&& #[trigger] lays_out(parts, raw_edges(collected@), order)
                &&& parts.wf()
                &&& is_dictionary(parts.dict@, raw_edges(collected@))
                &&& r.offsets@ == le64_all(parts.offsets@)
                &&& r.edges@ == all_edge_bytes(parts.edges@)
                &&& r.dict@ == le64_all(parts.dict@)
            },
{
    let raw: Vec<RawEdge> = decode_edges(collected);
    let parts: CsrParts = build(&raw);
    CsrFiles {
        offsets_path: with_ending(base_path, ".graph.csr.offsets"),
        offsets: write_numbers(&parts.offsets),
        edges_path: with_ending(base_path, ".graph.csr.edges"),
        edges: write_edges(&parts.edges),
        dict_path: with_ending(base_path, ".graph.csr.dict"),
        dict: write_numbers(&parts.dict),
    }
}

// ---------------------------------------------------------------------------
// Reading
// ---------------------------------------------------------------------------

fn number_at(b: &[u8], i: usize) -> (r: u64)
    requires
        i < numbers_in(b@).len(),
    ensures
        r == numbers_in(b@)[i as int],
{
    let n: usize = b.len();
    assert(8 * i + 8 <= n);
    le::read_u64(b, 8 * i)
}

fn edge_at(b: &[u8], i: usize) -> (r: CsrEdge)
    requires
        i < edges_in(b@).len(),
    ensures
        r == edges_in(b@)[i as int],
{
    let n: usize = b.len();
    assert(16 * i + 16 <= n);
    CsrEdge { dst_id: le::read_u64(b, 16 * i), row_id: le::read_u32(b, 16 * i + 8) }
}

/// A graph that is read from the bytes of its files, where they lie.
#[derive(Debug)]
pub struct MmapCsrGraph<'a> {
    pub offsets: &'a [u8],
    pub edges: &'a [u8],
    pub dict: &'a [u8],
    /// Number of nodes.
    pub num_nodes: usize,
    /// Number of edges.
    pub num_edges: usize,
}

impl<'a> MmapCsrGraph<'a> {
    /// The graph in three files.
    pub fn from_mmaps(offsets: &'a [u8], edges: &'a [u8], dict: &'a [u8]) -> (r: Self)
        requires
            offsets@.len() >= 8,
        ensures
            r.offsets@ == offsets@,
            r.edges@ == edges@,
            r.dict@ == dict@,
            r.num_nodes == offsets@.len() / 8 - 1,
            r.num_edges == edges@.len() / 16,
    {
        let num_nodes: usize = offsets.len() / 8 - 1;
        let num_edges: usize = edges.len() / EDGE_BYTES;
        MmapCsrGraph { offsets, edges, dict, num_nodes, num_edges }
    }

    /// The parts that the files hold.
    pub open spec fn holds(self, offsets: Seq<u64>, edges: Seq<CsrEdge>, dict: Seq<u64>) -> bool {
        &&& numbers_in(self.offsets@) == offsets
        &&& edges_in(self.edges@) == edges
        &&& numbers_in(self.dict@) == dict
    }

    /// The nodes ascend, the ranges of edges lie in the list of edges one
    /// behind the other, and every edge leads to a node.
    pub open spec fn wf(self) -> bool {
        let offsets = numbers_in(self.offsets@);
        let edges = edges_in(self.edges@);
        let dict = numbers_in(self.dict@);
        &&& rises(dict)
        &&& offsets.len() == self.num_nodes + 1
        &&& self.num_edges == edges.len()
        &&& forall|i: int, j: int|
            #![trigger offsets[i], offsets[j]]
            0 <= i <= j < offsets.len() ==> offsets[i] <= offsets[j]
        &&& offsets[self.num_nodes as int] <= edges.len()
        &&& forall|p: int| 0 <= p < edges.len() ==> (#[trigger] edges[p]).dst_id < dict.len()
    }

    /// Whether the files hold a graph, so that its nodes and edges can be read.
    pub fn is_whole(&self) -> (r: bool)
        ensures
            r == self.wf(),
    {
        let ghost offsets = numbers_in(self.offsets@);
        let ghost edges = edges_in(self.edges@);
        let ghost dict = numbers_in(self.dict@);
        let offset_count: usize = self.offsets.len() / 8;
        let edge_count: usize = self.edges.len() / EDGE_BYTES;
        let node_count: usize = self.dict.len() / 8;
        if offset_count == 0 || self.num_nodes != offset_count - 1 || self.num_edges
            != edge_count {
            return false;
        }
        let mut i: usize = 1;
        while i < node_count
            invariant
                1 <= i,
                node_count == dict.len(),
                dict == numbers_in(self.dict@),
                forall|a: int, b: int| 0 <= a < b < i && b < dict.len() ==> dict[a] < dict[b],
            decreases node_count - i,
        {
            let before: u64 = number_at(self.dict, i - 1);
            let id: u64 = number_at(self.dict, i);
            assert(before == dict[i - 1] && id == dict[i as int]);
            if before >= id {
                return false;
            }
            i = i + 1;
        }
        let mut i: usize = 1;
        while i < offset_count
            invariant
                1 <= i <= offset_count,
                offset_count == offsets.len(),
                offsets == numbers_in(self.offsets@),
                forall|a: int, b: int|
                    #![trigger offsets[a], offsets[b]]
                    0 <= a <= b < i ==> offsets[a] <= offsets[b],
            decreases offset_count - i,
        {
            let before: u64 = number_at(self.offsets, i - 1);
            let at: u64 = number_at(self.offsets, i);
            assert(before == offsets[i - 1] && at == offsets[i as int]);
            if before > at {
                return false;
            }
            i = i + 1;
        }
        let last: u64 = number_at(self.offsets, self.num_nodes);
        assert(last == offsets[self.num_nodes as int]);
        if last > edge_count as u64 {
            return false;
        }
        let mut p: usize = 0;
        while p < edge_count
            invariant
                p <= edge_count,
                edge_count == edges.len(),
                node_count == dict.len(),
                edges == edges_in(self.edges@),
                dict == numbers_in(self.dict@),
                forall|k: int| 0 <= k < p ==> (#[trigger] edges[k]).dst_id < dict.len(),
            decreases edge_count - p,
        {
            let e: CsrEdge = edge_at(self.edges, p);
            assert(e == edges[p as int]);
            if e.dst_id >= node_count as u64 {
                return false;
            }
            p = p + 1;
        }
        true
    }

    /// The place of a node in the dictionary.
    pub fn to_dense(&self, original_id: u64) -> (r: Option<usize>)
        requires
            rises(numbers_in(self.dict@)),
        ensures
            match r {
                Some(i) => i < numbers_in(self.dict@).len() && numbers_in(self.dict@)[i as int]
                    == original_id,
                None => !numbers_in(self.dict@).contains(original_id),
            },
    {
        let ghost dict = numbers_in(self.dict@);
        let mut lo: usize = 0;
        let mut hi: usize = self.dict.len() / 8;
        while lo < hi
            invariant
                lo <= hi <= dict.len(),
                dict == numbers_in(self.dict@),
                rises(dict),
                forall|i: int| 0 <= i < lo ==> #[trigger] dict[i] < original_id,
                forall|i: int| hi <= i < dict.len() ==> #[trigger] dict[i] > original_id,
            decreases hi - lo,
        {
            let mid: usize = lo + (hi - lo) / 2;
            let id: u64 = number_at(self.dict, mid);
            assert(id == dict[mid as int]);
            if id == original_id {
                return Some(mid);
            }
            if id < original_id {
                lo = mid + 1;
            } else {
                hi = mid;
            }
        }
        None
    }

    /// The node at a place of the dictionary.
    pub fn to_original(&self, dense_id: usize) -> (r: u64)
        requires
            dense_id < numbers_in(self.dict@).len(),
        ensures
            r == numbers_in(self.dict@)[dense_id as int],
    {
        number_at(self.dict, dense_id)
    }

    /// The edges of the node at a place.
    pub open spec fn edges_of(self, dense: int) -> Seq<CsrEdge> {
        let offsets = numbers_in(self.offsets@);
        if 0 <= dense < self.num_nodes {
            edges_in(self.edges@).subrange(offsets[dense] as int, offsets[dense + 1] as int)
        } else {
            Seq::empty()
        }
    }

    /// The edges of the node at a place; none behind the last.
    pub fn get_neighbors_raw(&self, dense_node_id: usize) -> (r: Vec<CsrEdge>)
        requires
            self.wf(),
        ensures
            r@ == self.edges_of(dense_node_id as int),
    {
        let ghost offsets = numbers_in(self.offsets@);
        let ghost all = edges_in(self.edges@);
        let mut r: Vec<CsrEdge> = Vec::new();
        if dense_node_id >= self.num_nodes {
            return r;
        }
        assert(self.edges.len() <= usize::MAX);
        let start: usize = number_at(self.offsets, dense_node_id) as usize;
        let end: usize = number_at(self.offsets, dense_node_id + 1) as usize;
        proof {
            let s = offsets[dense_node_id as int];
            let e = offsets[dense_node_id as int + 1];
            assert(e <= offsets[self.num_nodes as int]);
            assert(s <= e);
            assert(all.len() == self.num_edges);
            assert(start == s && end == e);
        }
        let mut p: usize = start;
        while p < end
            invariant
                start <= p <= end,
                end <= all.len(),
                all == edges_in(self.edges@),
                r@ == all.subrange(start as int, p as int),
            decreases end - p,
        {
            r.push(edge_at(self.edges, p));
            p = p + 1;
            assert(r@ =~= all.subrange(start as int, p as int));
        }
        r
    }

    /// The neighbours of a node, one for each edge from it.
    pub open spec fn neighbors(self, node: u64) -> Seq<u64> {
        let dict = numbers_in(self.dict@);
        if dict.contains(node) {
            self.edges_of(dict.index_of(node)).map_values(|e: CsrEdge| dict[e.dst_id as int])
        } else {
            Seq::empty()
        }
    }

    /// The neighbours of a node; none of one that is not in the graph.
    pub fn get_neighbors(&self, node: u64) -> (r: Vec<u64>)
        requires
            self.wf(),
        ensures
            r@ == self.neighbors(node),
    {
        let ghost dict = numbers_in(self.dict@);
        let mut r: Vec<u64> = Vec::new();
        match self.to_dense(node) {
            Some(dense) => {
                let edges: Vec<CsrEdge> = self.get_neighbors_raw(dense);
                proof {
                    assert(dict.contains(node));
                    lemma_one_place(dict, dense as int, dict.index_of(node));
                    assert(dict.index_of(node) == dense);
                    let all = edges_in(self.edges@);
                    assert forall|k: int| 0 <= k < edges.len() implies (#[trigger] edges@[k]).dst_id
                        < dict.len() by {
                        let offsets = numbers_in(self.offsets@);
                        assert(offsets[dense as int + 1] <= offsets[self.num_nodes as int]);
                        assert(edges@[k] == all[offsets[dense as int] as int + k]);
                    }
                }
                let dict_file: usize = self.dict.len();
                let mut k: usize = 0;
                while k < edges.len()
                    invariant
                        k <= edges.len(),
                        dict == numbers_in(self.dict@),
                        dict.len() <= dict_file,
                        forall|k: int|
                            0 <= k < edges.len() ==> (#[trigger] edges@[k]).dst_id < dict.len(),
                        r@ == edges@.take(k as int).map_values(
                            |e: CsrEdge| dict[e.dst_id as int],
                        ),
                    decreases edges.len() - k,
                {
                    assert(edges@[k as int].dst_id < dict.len());
                    r.push(self.to_original(edges[k].dst_id as usize));
                    k = k + 1;
                    assert(r@ =~= edges@.take(k as int).map_values(
                        |e: CsrEdge| dict[e.dst_id as int],
                    ));
                }
                assert(edges@.take(k as int) =~= edges@);
                r
            },
            None => r,
        }
    }

    /// The number of edges from a node.
    pub fn get_degree(&self, node: u64) -> (r: usize)
        requires
            self.wf(),
        ensures
            r == self.neighbors(node).len(),
    {
        let ghost dict = numbers_in(self.dict@);
        match self.to_dense(node) {
            Some(dense) => {
                proof {
                    assert(dict.contains(node));
                    lemma_one_place(dict, dense as int, dict.index_of(node));
                    assert(dict.index_of(node) == dense);
                }
                if dense >= self.num_nodes {
                    return 0;
                }
                assert(self.edges.len() <= usize::MAX);
                let start: usize = number_at(self.offsets, dense) as usize;
                let end: usize = number_at(self.offsets, dense + 1) as usize;
                proof {
                    let offsets = numbers_in(self.offsets@);
                    assert(offsets[dense as int] <= offsets[dense as int + 1]);
                    assert(offsets[dense as int + 1] <= offsets[self.num_nodes as int]);
                    assert(start == offsets[dense as int] && end == offsets[dense as int + 1]);
                }
                end - start
            },
            None => 0,
        }
    }
}

proof fn lemma_one_place(v: Seq<u64>, i: int, j: int)
    requires
        rises(v),
        0 <= i < v.len(),
        0 <= j < v.len(),
        v[i] == v[j],
    ensures
        i == j,
{
}

/// The collected edges from a node, by their places in ascending order.
pub open spec fn lists_edges_from(raw: Seq<RawEdge>, node: u64, places: Seq<usize>) -> bool {
    &&& forall|k: int, l: int|
        #![trigger places[k], places[l]]
        0 <= k < l < places.len() ==> places[k] < places[l]
    &&& forall|k: int|
        0 <= k < places.len() ==> (#[trigger] places[k]) < raw.len() && raw[places[k] as int].0
            == node
    &&& forall|i: int|
        0 <= i < raw.len() && (#[trigger] raw[i]).0 == node ==> places.contains(i as usize)
}

/// The edges of a node that is in the dictionary.
spec fn part_edges(parts: CsrParts, s: int) -> Seq<CsrEdge> {
    parts.edges@.subrange(parts.offsets@[s] as int, parts.offsets@[s + 1] as int)
}

proof fn lemma_edges_from(
    parts: CsrParts,
    raw: Seq<RawEdge>,
    order: Seq<usize>,
    s: int,
) -> (places: Seq<usize>)
    requires
        parts.wf(),
        lays_out(parts, raw, order),
        raw.len() <= usize::MAX,
        0 <= s < parts.dict@.len(),
    ensures
        lists_edges_from(raw, parts.dict@[s], places),
        part_edges(parts, s).len() == places.len(),
        forall|k: int|
            0 <= k < places.len() ==> (#[trigger] part_edges(parts, s)[k]).dst_id
                < parts.dict@.len() && parts.dict@[part_edges(parts, s)[k].dst_id as int]
                == raw[places[k] as int].1,
{
    let offsets = parts.offsets@;
    let node = parts.dict@[s];
    let lo = offsets[s] as int;
    let hi = offsets[s + 1] as int;
    assert(offsets[s + 1] <= offsets[parts.nodes()]);
    assert(offsets[s] <= offsets[s + 1]);
    let places = order.subrange(lo, hi);
    assert forall|k: int| 0 <= k < places.len() implies (#[trigger] places[k]) < raw.len()
        && raw[places[k] as int].0 == node by {
        let p = lo + k;
        assert(places[k] == order[p]);
        assert(in_range_of(offsets, s, p));
    }
    assert forall|k: int, l: int|
        #![trigger places[k], places[l]]
        0 <= k < l < places.len() implies places[k] < places[l] by {
        assert(raw[places[k] as int].0 == node && raw[places[l] as int].0 == node);
        assert(places[k] == order[lo + k] && places[l] == order[lo + l]);
    }
    assert forall|i: int| 0 <= i < raw.len() && (#[trigger] raw[i]).0
        == node implies places.contains(
        i as usize,
    ) by {
        assert(order.contains(i as usize));
        let p = choose|p: int| 0 <= p < order.len() && order[p] == i as usize;
        assert(parts.dict@[s] == raw[order[p] as int].0);
        assert(in_range_of(offsets, s, p));
        assert(places[p - lo] == i as usize);
    }
    assert forall|k: int| 0 <= k < places.len() implies (#[trigger] part_edges(parts, s)[k]).dst_id
        < parts.dict@.len() && parts.dict@[part_edges(parts, s)[k].dst_id as int]
        == raw[places[k] as int].1 by {
        assert(part_edges(parts, s)[k] == parts.edges@[lo + k]);
        assert(places[k] == order[lo + k]);
    }
    places
}

/// A graph that is read from the files of its parts is well formed and holds
/// those parts.
pub proof fn law_graph_reads_back(g: MmapCsrGraph, parts: CsrParts)
    requires
        parts.wf(),
        g.offsets@ == le64_all(parts.offsets@),
        g.edges@ == all_edge_bytes(parts.edges@),
        g.dict@ == le64_all(parts.dict@),
        g.num_nodes == g.offsets@.len() / 8 - 1,
        g.num_edges == g.edges@.len() / 16,
    ensures
        g.holds(parts.offsets@, parts.edges@, parts.dict@),
        g.num_nodes == parts.nodes(),
        g.wf(),
{
    law_numbers_file_reads_back(parts.offsets@);
    law_numbers_file_reads_back(parts.dict@);
    law_edge_file_reads_back(parts.edges@);
    assert(numbers_in(g.offsets@).len() == g.offsets@.len() / 8);
    assert(edges_in(g.edges@).len() == g.edges@.len() / 16);
}

/// The neighbours of a node in a graph that is read from its files are the ends
/// of the collected edges from that node, in the order in which they were
/// collected.
pub proof fn law_graph_holds_the_collected_edges(
    g: MmapCsrGraph,
    parts: CsrParts,
    raw: Seq<RawEdge>,
    order: Seq<usize>,
    node: u64,
) -> (places: Seq<usize>)
    requires
        parts.wf(),
        is_dictionary(parts.dict@, raw),
        lays_out(parts, raw, order),
        raw.len() <= usize::MAX,
        g.holds(parts.offsets@, parts.edges@, parts.dict@),
        g.num_nodes == parts.nodes(),
    ensures
        lists_edges_from(raw, node, places),
        g.neighbors(node).len() == places.len(),
        forall|k: int|
            0 <= k < places.len() ==> #[trigger] g.neighbors(node)[k] == raw[places[k] as int].1,
{
    let dict = parts.dict@;
    if dict.contains(node) {
        let s = dict.index_of(node);
        assert(dict[s] == node);
        let places = lemma_edges_from(parts, raw, order, s);
        assert(g.edges_of(s) =~= part_edges(parts, s));
        assert forall|k: int| 0 <= k < places.len() implies #[trigger] g.neighbors(node)[k]
            == raw[places[k] as int].1 by {
            assert(g.edges_of(s)[k] == part_edges(parts, s)[k]);
        }
        places
    } else {
        assert forall|i: int| 0 <= i < raw.len() implies (#[trigger] raw[i]).0 != node by {
            if raw[i].0 == node {
                assert(is_endpoint(raw, node));
            }
        }
        Seq::empty()
    }
}

/// The place of a node and the node at a place are inverse to each other.
pub proof fn law_dense_places_are_unique(dict: Seq<u64>, i: int, id: u64)
    requires
        rises(dict),
        0 <= i < dict.len(),
        dict[i] == id,
    ensures
        dict.contains(id),
        dict.index_of(id) == i,
{
    assert(dict.contains(id));
    lemma_one_place(dict, i, dict.index_of(id));
}

// ---------------------------------------------------------------------------
// Graphs of several segments
// ---------------------------------------------------------------------------

/// The graphs of the segments of a table, as one.
#[derive(Debug)]
pub struct MultiSegmentCsrGraph<'a> {
    pub segments: Vec<MmapCsrGraph<'a>>,
}

/// The neighbours of a node in the first graphs, one graph behind the other.
pub open spec fn neighbors_in(segments: Seq<MmapCsrGraph>, node: u64) -> Seq<u64>
    decreases segments.len(),
{
    if segments.len() == 0 {
        Seq::empty()
    } else {
        neighbors_in(segments.drop_last(), node) + segments.last().neighbors(node)
    }
}

impl<'a> MultiSegmentCsrGraph<'a> {
    /// Every graph is well formed.
    pub open spec fn wf(self) -> bool {
        forall|i: int| 0 <= i < self.segments@.len() ==> (#[trigger] self.segments@[i]).wf()
    }

    /// The graph of several segments.
    pub fn new(segments: Vec<MmapCsrGraph<'a>>) -> (r: Self)
        ensures
            r.segments == segments,
    {
        MultiSegmentCsrGraph { segments }
    }

    /// The neighbours of a node in all segments.
    pub fn get_neighbors(&self, node: u64) -> (r: Vec<u64>)
        requires
            self.wf(),
        ensures
            r@ == neighbors_in(self.segments@, node),
    {
        let mut all: Vec<u64> = Vec::new();
        let mut i: usize = 0;
        while i < self.segments.len()
            invariant
                self.wf(),
                i <= self.segments.len(),
                all@ == neighbors_in(self.segments@.take(i as int), node),
            decreases self.segments.len() - i,
        {
            assert(self.segments@.take(i + 1).drop_last() =~= self.segments@.take(i as int));
            let mut own: Vec<u64> = self.segments[i].get_neighbors(node);
            all.append(&mut own);
            i = i + 1;
        }
        assert(self.segments@.take(i as int) =~= self.segments@);
        all
    }

    /// The number of edges from a node in all segments.
    pub fn get_degree(&self, node: u64) -> (r: usize)
        requires
            self.wf(),
            neighbors_in(self.segments@, node).len() <= usize::MAX,
        ensures
            r == neighbors_in(self.segments@, node).len(),
    {
        let mut sum: usize = 0;
        let mut i: usize = 0;
        while i < self.segments.len()
            invariant
                self.wf(),
                i <= self.segments.len(),
                neighbors_in(self.segments@, node).len() <= usize::MAX,
                sum == neighbors_in(self.segments@.take(i as int), node).len(),
            decreases self.segments.len() - i,
        {
            proof {
                assert(self.segments@.take(i + 1).drop_last() =~= self.segments@.take(i as int));
                lemma_neighbors_grow(self.segments@, node, i + 1);
            }
            sum = sum + self.segments[i].get_degree(node);
            i = i + 1;
        }
        assert(self.segments@.take(i as int) =~= self.segments@);
        sum
    }
}

proof fn lemma_neighbors_grow(segments: Seq<MmapCsrGraph>, node: u64, n: int)
    requires
        0 <= n <= segments.len(),
    ensures
        neighbors_in(segments.take(n), node).len() <= neighbors_in(segments, node).len(),
    decreases segments.len(),
{
    if n < segments.len() {
        assert(segments.drop_last().take(n) =~= segments.take(n));
        lemma_neighbors_grow(segments.drop_last(), node, n);
    } else {
        assert(segments.take(n) =~= segments);
    }
}

/// How often a node is among some nodes.
pub open spec fn times_listed(nodes: Seq<u64>, node: u64) -> nat {
    nodes.to_multiset().count(node)
}

/// The sum of the first `n` numbers.
pub open spec fn total(numbers: spec_fn(int) -> nat, n: int) -> nat
    decreases n,
{
    if n <= 0 {
        0
    } else {
        total(numbers, n - 1) + numbers(n - 1)
    }
}

/// The edges of a node are those of all segments together: the graphs of two tables
/// side by side list the neighbours of the one and then those of the other, and the
/// graph of one segment lists its own.
pub proof fn law_segments_are_side_by_side(
    a: Seq<MmapCsrGraph>,
    b: Seq<MmapCsrGraph>,
    g: MmapCsrGraph,
    node: u64,
)
    ensures
        neighbors_in(a + b, node) == neighbors_in(a, node) + neighbors_in(b, node),
        neighbors_in(seq![g], node) == g.neighbors(node),
    decreases b.len(),
{
    let one = seq![g];
    reveal_with_fuel(neighbors_in, 2);
    assert(one.drop_last() =~= Seq::<MmapCsrGraph>::empty());
    assert(one.last() == g);
    assert(neighbors_in(one, node) =~= g.neighbors(node));
    if b.len() == 0 {
        assert(a + b =~= a);
        assert(neighbors_in(a, node) + neighbors_in(b, node) =~= neighbors_in(a, node));
    } else {
        law_segments_are_side_by_side(a, b.drop_last(), g, node);
        assert((a + b).drop_last() =~= a + b.drop_last());
        assert((a + b).last() == b.last());
        assert(neighbors_in(a + b, node) =~= neighbors_in(a, node) + neighbors_in(b, node));
    }
}

/// A neighbour is listed for a node as often as the segments list it together, and the
/// degree of a node is the sum of its degrees in the segments.
pub proof fn law_every_segment_counts(segments: Seq<MmapCsrGraph>, node: u64, other: u64)
    ensures
        times_listed(neighbors_in(segments, node), other) == total(
            |i: int| times_listed(segments[i].neighbors(node), other),
            segments.len() as int,
        ),
        neighbors_in(segments, node).len() == total(
            |i: int| segments[i].neighbors(node).len(),
            segments.len() as int,
        ),
{
    assert(segments.take(segments.len() as int) =~= segments);
    lemma_every_segment_counts(segments, node, other, segments.len() as int);
}

proof fn lemma_every_segment_counts(
    segments: Seq<MmapCsrGraph>,
    node: u64,
    other: u64,
    n: int,
)
    requires
        0 <= n <= segments.len(),
    ensures
        times_listed(neighbors_in(segments.take(n), node), other) == total(
            |i: int| times_listed(segments[i].neighbors(node), other),
            n,
        ),
        neighbors_in(segments.take(n), node).len() == total(
            |i: int| segments[i].neighbors(node).len(),
            n,
        ),
    decreases n,
{
    broadcast use vstd::seq_lib::group_to_multiset_ensures;

    if n > 0 {
        let front = segments.take(n - 1);
        let now = segments.take(n);
        lemma_every_segment_counts(segments, node, other, n - 1);
        assert(now.drop_last() =~= front);
        let before = neighbors_in(front, node);
        let own = segments[n - 1].neighbors(node);
        vstd::seq_lib::lemma_multiset_commutative(before, own);
        assert(neighbors_in(now, node) == before + own);
    }
}

/// A node is a neighbour exactly where some segment lists it.
pub proof fn law_neighbors_come_from_segments(
    segments: Seq<MmapCsrGraph>,
    node: u64,
    other: u64,
)
    ensures
        neighbors_in(segments, node).contains(other) <==> exists|i: int|
            0 <= i < segments.len() && (#[trigger] segments[i]).neighbors(node).contains(other),
    decreases segments.len(),
{
    if segments.len() > 0 {
        let front = segments.drop_last();
        let before = neighbors_in(front, node);
        let own = segments.last().neighbors(node);
        let all = neighbors_in(segments, node);
        law_neighbors_come_from_segments(front, node, other);
        if all.contains(other) {
            let k = choose|k: int| 0 <= k < all.len() && all[k] == other;
            if k < before.len() {
                assert(before[k] == other);
                let i = choose|i: int|
                    0 <= i < front.len() && (#[trigger] front[i]).neighbors(node).contains(other);
                assert(segments[i] == front[i]);
            } else {
                assert(own[k - before.len()] == other);
                assert(segments[segments.len() - 1].neighbors(node).contains(other));
            }
        }
        if exists|i: int|
            0 <= i < segments.len() && (#[trigger] segments[i]).neighbors(node).contains(other) {
            let i = choose|i: int|
                0 <= i < segments.len() && (#[trigger] segments[i]).neighbors(node).contains(other);
            if i < front.len() {
                assert(front[i] == segments[i]);
                let k = choose|k: int| 0 <= k < before.len() && before[k] == other;
                assert(all[k] == other);
            } else {
                let k = choose|k: int| 0 <= k < own.len() && own[k] == other;
                assert(all[before.len() + k] == other);
            }
        }
    }
}

/// A row with both of its ends is an edge from the one to the other that knows its row; a row
/// that lacks an end is none; and the edges come in the order of the rows.
pub proof fn law_rows_with_both_ends_are_edges(
    src: spec_fn(int) -> Option<u64>,
    dst: spec_fn(int) -> Option<u64>,
    row_offset: int,
    n: int,
    i: int,
)
    requires
        0 <= row_offset,
        0 <= i < n,
        row_offset + n <= u32::MAX,
    ensures
        ({
            let edges = edges_of_rows(src, dst, row_offset, n);
            &&& src(i) is Some && dst(i) is Some ==> edges.contains(
                (src(i)->0, dst(i)->0, (row_offset + i) as u32),
            )
            &&& forall|k: int|
                0 <= k < edges.len() ==> {
                    let row = (#[trigger] edges[k]).2 - row_offset;
                    &&& 0 <= row < n
                    &&& src(row) == Some(edges[k].0)
                    &&& dst(row) == Some(edges[k].1)
                }
            &&& forall|k: int, l: int|
                #![trigger edges[k], edges[l]]
                0 <= k < l < edges.len() ==> edges[k].2 < edges[l].2
        }),
{
    lemma_edges_of_rows(src, dst, row_offset, n);
    if src(i) is Some && dst(i) is Some {
        lemma_row_is_an_edge(src, dst, row_offset, n, i);
    }
}

proof fn lemma_edges_of_rows(
    src: spec_fn(int) -> Option<u64>,
    dst: spec_fn(int) -> Option<u64>,
    row_offset: int,
    n: int,
)
    requires
        0 <= row_offset,
        0 <= n,
        row_offset + n <= u32::MAX,
    ensures
        ({
            let edges = edges_of_rows(src, dst, row_offset, n);
            &&& forall|k: int|
                0 <= k < edges.len() ==> {
                    let row = (#[trigger] edges[k]).2 - row_offset;
                    &&& 0 <= row < n
                    &&& src(row) == Some(edges[k].0)
                    &&& dst(row) == Some(edges[k].1)
                }
            &&& forall|k: int, l: int|
                #![trigger edges[k], edges[l]]
                0 <= k < l < edges.len() ==> edges[k].2 < edges[l].2
        }),
    decreases n,
{
    if n > 0 {
        lemma_edges_of_rows(src, dst, row_offset, n - 1);
        let before = edges_of_rows(src, dst, row_offset, n - 1);
        let edges = edges_of_rows(src, dst, row_offset, n);
        assert forall|k: int| 0 <= k < edges.len() implies {
            let row = (#[trigger] edges[k]).2 - row_offset;
            &&& 0 <= row < n
            &&& src(row) == Some(edges[k].0)
            &&& dst(row) == Some(edges[k].1)
        } by {
            if k < before.len() {
                assert(edges[k] == before[k]);
            }
        }
    }
}

proof fn lemma_row_is_an_edge(
    src: spec_fn(int) -> Option<u64>,
    dst: spec_fn(int) -> Option<u64>,
    row_offset: int,
    n: int,
    i: int,
)
    requires
        0 <= i < n,
        src(i) is Some,
        dst(i) is Some,
    ensures
        edges_of_rows(src, dst, row_offset, n).contains(
            (src(i)->0, dst(i)->0, (row_offset + i) as u32),
        ),
    decreases n,
{
    let edge = (src(i)->0, dst(i)->0, (row_offset + i) as u32);
    let edges = edges_of_rows(src, dst, row_offset, n);
    let before = edges_of_rows(src, dst, row_offset, n - 1);
    if i < n - 1 {
        lemma_row_is_an_edge(src, dst, row_offset, n - 1, i);
        let k = choose|k: int| 0 <= k < before.len() && before[k] == edge;
        assert(edges[k] == edge);
    } else {
        assert(edges[edges.len() - 1] == edge);
    }
}

/// A numbered node keeps its number, and a row without a number has no node.
pub proof fn law_numbered_nodes_keep_their_numbers(
    unsigned: Vec<Option<u64>>,
    signed: Vec<Option<i64>>,
    i: int,
)
    ensures
        node_at(NodeColumn::Unsigned(unsigned), i) == unsigned@[i],
        signed@[i] matches Some(x) ==> (x >= 0 ==> node_at(NodeColumn::Signed(signed), i) == Some(
            x as u64,
        )),
        signed@[i] is None ==> node_at(NodeColumn::Signed(signed), i) is None,
{
}

/// Rows of texts are edges one by one, each with its row, and a text is one node whether it
/// stands at the start of an edge or at its end.
pub proof fn law_a_text_is_one_node_at_either_end(
    src: Vec<String>,
    dst: Vec<String>,
    row_offset: int,
    rows: int,
    i: int,
    j: int,
)
    requires
        0 <= row_offset,
        0 <= i < rows,
        0 <= j < rows,
        row_offset + rows <= u32::MAX,
    ensures
        ({
            let edges = collected_edges(
                NodeColumn::Text(src),
                NodeColumn::Text(dst),
                row_offset,
                rows,
            );
            &&& edges.len() == rows
            &&& edges[i].2 == row_offset + i
            &&& src@[i]@ == dst@[j]@ ==> edges[i].0 == edges[j].1
            &&& dst@[i]@ == dst@[j]@ ==> edges[i].1 == edges[j].1
        }),
{
}

} // verus!
