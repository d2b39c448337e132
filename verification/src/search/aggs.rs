//! Aggregations: what a request asks for, and the SQL that computes it.
//!
//! The table is queried under the name `t`. Numbers are held by their text.

use vstd::prelude::*;
use vstd::string::*;

use crate::search::qdrant;
use crate::search::qdrant_types::{self, JsonValue};
use crate::search::sql;
use crate::text;
use crate::textmap::TextMap;

verus! {

// ---------------------------------------------------------------------------
// Requests
// ---------------------------------------------------------------------------

/// A JSON value with its parts. A number is held by its text, and the members of
/// an object stand in order.
#[derive(Debug)]
pub enum JsonTree {
    Null,
    Bool(bool),
    Number(String),
    Text(String),
    List(Vec<JsonTree>),
    Object(Vec<(String, JsonTree)>),
}

/// The place of the first member with a name.
pub open spec fn place_of(members: Seq<(String, JsonTree)>, name: Seq<char>) -> Option<int>
    decreases members.len(),
{
    if members.len() == 0 {
        None
    } else if members[0].0@ == name {
        Some(0)
    } else {
        match place_of(members.skip(1), name) {
            Some(i) => Some(i + 1),
            None => None,
        }
    }
}

proof fn lemma_place(members: Seq<(String, JsonTree)>, name: Seq<char>, i: int)
    requires
        0 <= i <= members.len(),
        forall|j: int| 0 <= j < i ==> (#[trigger] members[j]).0@ != name,
        i < members.len() ==> members[i].0@ == name,
    ensures
        place_of(members, name) == if i < members.len() {
            Some(i)
        } else {
            None
        },
    decreases i,
{
    if i > 0 {
        assert(members[0].0@ != name);
        let rest = members.skip(1);
        assert forall|j: int| 0 <= j < i - 1 implies (#[trigger] rest[j]).0@ != name by {
            assert(rest[j] == members[j + 1]);
        }
        lemma_place(rest, name, i - 1);
    }
}

impl JsonTree {
    /// The member of an object with a name.
    pub open spec fn member(self, name: Seq<char>) -> Option<JsonTree> {
        match self {
            JsonTree::Object(members) => match place_of(members@, name) {
                Some(i) => Some(members@[i].1),
                None => None,
            },
            _ => None,
        }
    }

    /// The member of an object with a name.
    pub fn get(&self, name: &str) -> (r: Option<&JsonTree>)
        ensures
            match r {
                Some(v) => self.member(name@) == Some(*v),
                None => self.member(name@) is None,
            },
    {
        match self {
            JsonTree::Object(members) => {
                let mut i: usize = 0;
                while i < members.len() && !text::same(members[i].0.as_str(), name)
                    invariant
                        i <= members.len(),
                        forall|j: int| 0 <= j < i ==> (#[trigger] members@[j]).0@ != name@,
                    decreases members.len() - i,
                {
                    i = i + 1;
                }
                proof {
                    lemma_place(members@, name@, i as int);
                }
                if i < members.len() {
                    Some(&members[i].1)
                } else {
                    None
                }
            },
            _ => None,
        }
    }
}

/// A text, and nothing else.
pub open spec fn text_in(v: Option<JsonTree>) -> Option<Seq<char>> {
    match v {
        Some(JsonTree::Text(s)) => Some(s@),
        _ => None,
    }
}

/// The text of a number, and nothing else.
pub open spec fn number_in(v: Option<JsonTree>) -> Option<Seq<char>> {
    match v {
        Some(JsonTree::Number(s)) => Some(s@),
        _ => None,
    }
}

fn get_text<'a>(body: &'a JsonTree, name: &str) -> (r: Option<&'a String>)
    ensures
        match r {
            Some(s) => text_in(body.member(name@)) == Some(s@),
            None => text_in(body.member(name@)) is None,
        },
{
    match body.get(name) {
        Some(JsonTree::Text(s)) => Some(s),
        _ => None,
    }
}

fn get_number<'a>(body: &'a JsonTree, name: &str) -> (r: Option<&'a String>)
    ensures
        match r {
            Some(s) => number_in(body.member(name@)) == Some(s@),
            None => number_in(body.member(name@)) is None,
        },
{
    match body.get(name) {
        Some(JsonTree::Number(s)) => Some(s),
        _ => None,
    }
}

/// A range of values and the name of its bucket, as far as they are given.
#[derive(Debug)]
pub struct RangeSpec {
    pub key: Option<String>,
    pub from: Option<String>,
    pub to: Option<String>,
}

/// An aggregation.
#[derive(Debug)]
pub enum Aggregation {
    Terms { field: String, size: u64 },
    Histogram { field: String, interval: String },
    DateHistogram { field: String, unit: String },
    Range { field: String, ranges: Vec<RangeSpec> },
    Filter,
    Missing { field: String },
    Metric { field: String, kind: String },
    Stats { field: String },
}

/// A range, by its texts.
pub ghost struct RangeView {
    pub key: Option<Seq<char>>,
    pub from: Option<Seq<char>>,
    pub to: Option<Seq<char>>,
}

/// An aggregation, by its texts.
pub ghost enum AggregationView {
    Terms { field: Seq<char>, size: u64 },
    Histogram { field: Seq<char>, interval: Seq<char> },
    DateHistogram { field: Seq<char>, unit: Seq<char> },
    Range { field: Seq<char>, ranges: Seq<RangeView> },
    Filter,
    Missing { field: Seq<char> },
    Metric { field: Seq<char>, kind: Seq<char> },
    Stats { field: Seq<char> },
}

/// An optional text.
pub open spec fn optional(s: Option<String>) -> Option<Seq<char>> {
    match s {
        Some(s) => Some(s@),
        None => None,
    }
}

impl View for RangeSpec {
    type V = RangeView;

    open spec fn view(&self) -> RangeView {
        RangeView {
            key: optional(self.key),
            from: optional(self.from),
            to: optional(self.to),
        }
    }
}

/// The ranges, by their texts.
pub open spec fn range_views(ranges: Seq<RangeSpec>) -> Seq<RangeView> {
    ranges.map_values(|r: RangeSpec| r@)
}

impl View for Aggregation {
    type V = AggregationView;

    open spec fn view(&self) -> AggregationView {
        match *self {
            Aggregation::Terms { field, size } => AggregationView::Terms { field: field@, size },
            Aggregation::Histogram { field, interval } => AggregationView::Histogram {
                field: field@,
                interval: interval@,
            },
            Aggregation::DateHistogram { field, unit } => AggregationView::DateHistogram {
                field: field@,
                unit: unit@,
            },
            Aggregation::Range { field, ranges } => AggregationView::Range {
                field: field@,
                ranges: range_views(ranges@),
            },
            Aggregation::Filter => AggregationView::Filter,
            Aggregation::Missing { field } => AggregationView::Missing { field: field@ },
            Aggregation::Metric { field, kind } => AggregationView::Metric {
                field: field@,
                kind: kind@,
            },
            Aggregation::Stats { field } => AggregationView::Stats { field: field@ },
        }
    }
}

/// The field of an aggregation: it is given and has the form of a name.
pub open spec fn field_in(body: JsonTree) -> Result<Seq<char>, Seq<char>> {
    match text_in(body.member("field"@)) {
        Some(f) => if sql::is_field_name(f) {
            Ok(f)
        } else {
            Err("invalid field name '"@ + f + "'"@)
        },
        None => Err("aggregation: 'field' must be a string"@),
    }
}

/// The field of an aggregation, or why there is none.
pub fn field_of(body: &JsonTree) -> (r: Result<String, String>)
    ensures
        match r {
            Ok(f) => field_in(*body) == Ok::<Seq<char>, Seq<char>>(f@),
            Err(e) => field_in(*body) == Err::<Seq<char>, Seq<char>>(e@),
        },
{
    match get_text(body, "field") {
        Some(f) => {
            if sql::valid_field(f.as_str()) {
                Ok(f.clone())
            } else {
                let mut e: String = "invalid field name '".to_owned();
                e.append(f.as_str());
                e.append("'");
                Err(e)
            }
        },
        None => Err("aggregation: 'field' must be a string".to_owned()),
    }
}

/// The unit by which dates are cut off.
pub open spec fn date_unit(name: Seq<char>) -> Seq<char> {
    if name == "minute"@ || name == "1m"@ {
        "minute"@
    } else if name == "hour"@ || name == "1h"@ {
        "hour"@
    } else if name == "week"@ || name == "1w"@ {
        "week"@
    } else if name == "month"@ || name == "1M"@ {
        "month"@
    } else if name == "quarter"@ || name == "1q"@ {
        "quarter"@
    } else if name == "year"@ || name == "1y"@ {
        "year"@
    } else {
        "day"@
    }
}

fn unit_of(name: &str) -> (r: String)
    ensures
        r@ == date_unit(name@),
{
    if text::same(name, "minute") || text::same(name, "1m") {
        "minute".to_owned()
    } else if text::same(name, "hour") || text::same(name, "1h") {
        "hour".to_owned()
    } else if text::same(name, "week") || text::same(name, "1w") {
        "week".to_owned()
    } else if text::same(name, "month") || text::same(name, "1M") {
        "month".to_owned()
    } else if text::same(name, "quarter") || text::same(name, "1q") {
        "quarter".to_owned()
    } else if text::same(name, "year") || text::same(name, "1y") {
        "year".to_owned()
    } else {
        "day".to_owned()
    }
}

/// The name of the interval of a date histogram: `calendar_interval` where it is
/// given, else `fixed_interval`; a day where that is no text.
pub open spec fn interval_name(body: JsonTree) -> Seq<char> {
    let given = match body.member("calendar_interval"@) {
        Some(v) => Some(v),
        None => body.member("fixed_interval"@),
    };
    match text_in(given) {
        Some(s) => s,
        None => "day"@,
    }
}

/// A range out of a request.
pub open spec fn range_in(v: JsonTree) -> RangeView {
    RangeView {
        key: text_in(v.member("key"@)),
        from: number_in(v.member("from"@)),
        to: number_in(v.member("to"@)),
    }
}

/// The ranges out of a request.
pub open spec fn ranges_in(list: Seq<JsonTree>) -> Seq<RangeView> {
    list.map_values(|v: JsonTree| range_in(v))
}

/// The aggregations of one number.
pub open spec fn is_metric(kind: Seq<char>) -> bool {
    ||| kind == "avg"@
    ||| kind == "sum"@
    ||| kind == "min"@
    ||| kind == "max"@
    ||| kind == "value_count"@
    ||| kind == "cardinality"@
}

/// The aggregation of a kind that a request describes, or why there is none.
pub open spec fn aggregation_in(kind: Seq<char>, body: JsonTree) -> Result<
    AggregationView,
    Seq<char>,
> {
    if kind == "filter"@ {
        Ok(AggregationView::Filter)
    } else if !(kind == "terms"@ || kind == "histogram"@ || kind == "date_histogram"@ || kind
        == "range"@ || kind == "missing"@ || kind == "stats"@ || kind == "extended_stats"@
        || is_metric(kind)) {
        Err("unsupported aggregation type '"@ + kind + "'"@)
    } else {
        match field_in(body) {
            Err(e) => Err(e),
            Ok(field) => if kind == "terms"@ {
                let size = match number_in(body.member("size"@)) {
                    Some(s) => match text::number(s, u64::MAX as nat) {
                        Some(n) => n as u64,
                        None => 10,
                    },
                    None => 10,
                };
                Ok(AggregationView::Terms { field, size })
            } else if kind == "histogram"@ {
                match number_in(body.member("interval"@)) {
                    Some(interval) => Ok(AggregationView::Histogram { field, interval }),
                    None => Err("histogram: 'interval' must be a number"@),
                }
            } else if kind == "date_histogram"@ {
                Ok(AggregationView::DateHistogram { field, unit: date_unit(interval_name(body)) })
            } else if kind == "range"@ {
                match body.member("ranges"@) {
                    Some(JsonTree::List(list)) => Ok(
                        AggregationView::Range { field, ranges: ranges_in(list@) },
                    ),
                    _ => Err("range: 'ranges' must be an array"@),
                }
            } else if kind == "missing"@ {
                Ok(AggregationView::Missing { field })
            } else if is_metric(kind) {
                Ok(AggregationView::Metric { field, kind })
            } else {
                Ok(AggregationView::Stats { field })
            },
        }
    }
}

/// A result is the aggregation, or the error, that is expected.
pub open spec fn agrees(
    r: Result<Aggregation, String>,
    s: Result<AggregationView, Seq<char>>,
) -> bool {
    match r {
        Ok(a) => s == Ok::<AggregationView, Seq<char>>(a@),
        Err(e) => s == Err::<AggregationView, Seq<char>>(e@),
    }
}

fn copy_text(s: Option<&String>) -> (r: Option<String>)
    ensures
        match s {
            Some(t) => optional(r) == Some(t@),
            None => r is None,
        },
{
    match s {
        Some(t) => Some(t.clone()),
        None => None,
    }
}

fn parse_ranges(list: &Vec<JsonTree>) -> (r: Vec<RangeSpec>)
    ensures
        range_views(r@) == ranges_in(list@),
{
    let mut ranges: Vec<RangeSpec> = Vec::new();
    let mut i: usize = 0;
    while i < list.len()
        invariant
            i <= list.len(),
            ranges.len() == i,
            forall|k: int| 0 <= k < i ==> (#[trigger] ranges@[k])@ == range_in(list@[k]),
        decreases list.len() - i,
    {
        let range = RangeSpec {
            key: copy_text(get_text(&list[i], "key")),
            from: copy_text(get_number(&list[i], "from")),
            to: copy_text(get_number(&list[i], "to")),
        };
        assert(range@ == range_in(list@[i as int]));
        ranges.push(range);
        i = i + 1;
    }
    assert(range_views(ranges@) =~= ranges_in(list@));
    ranges
}

fn metric_kind(kind: &str) -> (r: bool)
    ensures
        r == is_metric(kind@),
{
    text::same(kind, "avg") || text::same(kind, "sum") || text::same(kind, "min") || text::same(
        kind,
        "max",
    ) || text::same(kind, "value_count") || text::same(kind, "cardinality")
}


/// Reads an aggregation of a kind.
pub fn parse_kind(kind: &str, body: &JsonTree) -> (r: Result<Aggregation, String>)
    ensures
        agrees(r, aggregation_in(kind@, *body)),
{
    if text::same(kind, "filter") {
        return Ok(Aggregation::Filter);
    }
    let metric: bool = metric_kind(kind);
    let known: bool = text::same(kind, "terms") || text::same(kind, "histogram") || text::same(
        kind,
        "date_histogram",
    ) || text::same(kind, "range") || text::same(kind, "missing") || text::same(kind, "stats")
        || text::same(kind, "extended_stats") || metric;
    if !known {
        let mut e: String = "unsupported aggregation type '".to_owned();
        e.append(kind);
        e.append("'");
        return Err(e);
    }
    let field: String = match field_of(body) {
        Ok(f) => f,
        Err(e) => {
            return Err(e);
        },
    };
    if text::same(kind, "terms") {
        let size: u64 = match get_number(body, "size") {
            Some(s) => match text::parse_u64(s.as_str()) {
                Some(n) => n,
                None => 10,
            },
            None => 10,
        };
        Ok(Aggregation::Terms { field, size })
    } else if text::same(kind, "histogram") {
        match get_number(body, "interval") {
            Some(interval) => Ok(Aggregation::Histogram { field, interval: interval.clone() }),
            None => Err("histogram: 'interval' must be a number".to_owned()),
        }
    } else if text::same(kind, "date_histogram") {
        let given: Option<&JsonTree> = match body.get("calendar_interval") {
            Some(v) => Some(v),
            None => body.get("fixed_interval"),
        };
        let unit: String = match given {
            Some(JsonTree::Text(s)) => unit_of(s.as_str()),
            _ => unit_of("day"),
        };
        Ok(Aggregation::DateHistogram { field, unit })
    } else if text::same(kind, "range") {
        match body.get("ranges") {
            Some(JsonTree::List(list)) => Ok(
                Aggregation::Range { field, ranges: parse_ranges(list) },
            ),
            _ => Err("range: 'ranges' must be an array".to_owned()),
        }
    } else if text::same(kind, "missing") {
        Ok(Aggregation::Missing { field })
    } else if metric {
        Ok(Aggregation::Metric { field, kind: kind.to_owned() })
    } else {
        Ok(Aggregation::Stats { field })
    }
}

/// A member that names no kind of aggregation.
pub open spec fn is_aside(name: Seq<char>) -> bool {
    name == "aggs"@ || name == "aggregations"@ || name == "meta"@
}

/// The place of the first member that names a kind.
pub open spec fn kind_place(members: Seq<(String, JsonTree)>) -> Option<int>
    decreases members.len(),
{
    if members.len() == 0 {
        None
    } else if !is_aside(members[0].0@) {
        Some(0)
    } else {
        match kind_place(members.skip(1)) {
            Some(i) => Some(i + 1),
            None => None,
        }
    }
}

proof fn lemma_kind_place(members: Seq<(String, JsonTree)>, i: int)
    requires
        0 <= i <= members.len(),
        forall|j: int| 0 <= j < i ==> is_aside((#[trigger] members[j]).0@),
        i < members.len() ==> !is_aside(members[i].0@),
    ensures
        kind_place(members) == if i < members.len() {
            Some(i)
        } else {
            None
        },
    decreases i,
{
    if i > 0 {
        assert(is_aside(members[0].0@));
        let rest = members.skip(1);
        assert forall|j: int| 0 <= j < i - 1 implies is_aside((#[trigger] rest[j]).0@) by {
            assert(rest[j] == members[j + 1]);
        }
        lemma_kind_place(rest, i - 1);
    }
}

/// The aggregation that a request describes, or why there is none.
pub open spec fn requested(request: JsonTree) -> Result<AggregationView, Seq<char>> {
    match request {
        JsonTree::Object(members) => match kind_place(members@) {
            Some(i) => aggregation_in(members@[i].0@, members@[i].1),
            None => Err("aggregation: missing type"@),
        },
        _ => Err("aggregation: expected an object"@),
    }
}

/// The aggregations that are computed in each bucket.
pub open spec fn nested_in(request: JsonTree) -> Option<JsonTree> {
    match request.member("aggs"@) {
        Some(v) => Some(v),
        None => request.member("aggregations"@),
    }
}

/// Reads an aggregation. Its kind is the name of the first member that is not
/// about nested aggregations or remarks.
pub fn parse_aggregation(request: &JsonTree) -> (r: Result<Aggregation, String>)
    ensures
        agrees(r, requested(*request)),
{
    match request {
        JsonTree::Object(members) => {
            let mut i: usize = 0;
            while i < members.len() && (text::same(members[i].0.as_str(), "aggs") || text::same(
                members[i].0.as_str(),
                "aggregations",
            ) || text::same(members[i].0.as_str(), "meta"))
                invariant
                    i <= members.len(),
                    forall|j: int| 0 <= j < i ==> is_aside((#[trigger] members@[j]).0@),
                decreases members.len() - i,
            {
                i = i + 1;
            }
            proof {
                lemma_kind_place(members@, i as int);
            }
            if i < members.len() {
                parse_kind(members[i].0.as_str(), &members[i].1)
            } else {
                Err("aggregation: missing type".to_owned())
            }
        },
        _ => Err("aggregation: expected an object".to_owned()),
    }
}

/// The aggregations that are computed in each bucket.
pub fn nested_of(request: &JsonTree) -> (r: Option<&JsonTree>)
    ensures
        match r {
            Some(v) => nested_in(*request) == Some(*v),
            None => nested_in(*request) is None,
        },
{
    match request.get("aggs") {
        Some(v) => Some(v),
        None => request.get("aggregations"),
    }
}

/// The aggregations of a request by their names, or why there are none.
pub fn named_aggregations(request: &JsonTree) -> (r: Result<&Vec<(String, JsonTree)>, String>)
    ensures
        match r {
            Ok(members) => *request == JsonTree::Object(*members),
            Err(e) => !(*request is Object) && e@ == "aggregations: expected an object"@,
        },
{
    match request {
        JsonTree::Object(members) => Ok(members),
        _ => Err("aggregations: expected an object".to_owned()),
    }
}

/// Refuses an interval that is not greater than zero.
pub fn check_interval(positive: bool) -> (r: Result<(), String>)
    ensures
        match r {
            Ok(()) => positive,
            Err(e) => !positive && e@ == "histogram: 'interval' must be > 0"@,
        },
{
    if positive {
        Ok(())
    } else {
        Err("histogram: 'interval' must be > 0".to_owned())
    }
}

// ---------------------------------------------------------------------------
// Queries
// ---------------------------------------------------------------------------

/// A filter says something.
pub open spec fn filters(filter: Option<Seq<char>>) -> bool {
    match filter {
        Some(f) => text::trimmed(f).len() > 0,
        None => false,
    }
}

/// The view of an optional text.
pub open spec fn given(filter: Option<&str>) -> Option<Seq<char>> {
    match filter {
        Some(f) => Some(f@),
        None => None,
    }
}

fn effective(filter: Option<&str>) -> (r: bool)
    ensures
        r == filters(given(filter)),
{
    match filter {
        Some(f) => {
            let body: String = text::trim(f);
            body.as_str().unicode_len() > 0
        },
        None => false,
    }
}

/// The `WHERE` of a query.
pub open spec fn where_sql(filter: Option<Seq<char>>) -> Seq<char> {
    if filters(filter) {
        " WHERE ("@ + filter->0 + ")"@
    } else {
        Seq::empty()
    }
}

/// The `WHERE` of a query; a filter of spaces is none.
pub fn where_clause(filter: Option<&str>) -> (r: String)
    ensures
        r@ == where_sql(given(filter)),
{
    if effective(filter) {
        match filter {
            Some(f) => {
                let mut out: String = " WHERE (".to_owned();
                out.append(f);
                out.append(")");
                out
            },
            None => String::new(),
        }
    } else {
        let out: String = String::new();
        assert(out@ =~= Seq::<char>::empty());
        out
    }
}

/// A filter and a condition.
pub open spec fn both_sql(filter: Option<Seq<char>>, extra: Seq<char>) -> Seq<char> {
    if filters(filter) {
        "("@ + filter->0 + ") AND ("@ + extra + ")"@
    } else {
        extra
    }
}

/// A filter and a condition.
pub fn and_filter(filter: Option<&str>, extra: &str) -> (r: String)
    ensures
        r@ == both_sql(given(filter), extra@),
{
    if effective(filter) {
        match filter {
            Some(f) => {
                let mut out: String = "(".to_owned();
                out.append(f);
                out.append(") AND (");
                out.append(extra);
                out.append(")");
                out
            },
            None => extra.to_owned(),
        }
    } else {
        extra.to_owned()
    }
}

/// The query of the values of a field, the most frequent first.
pub open spec fn terms_query(field: Seq<char>, filter: Option<Seq<char>>, size: nat) -> Seq<char> {
    "SELECT "@ + field + " AS key, COUNT(*) AS doc_count FROM t"@ + where_sql(filter)
        + " GROUP BY "@ + field + " ORDER BY doc_count DESC LIMIT "@ + text::decimal(size)
}

/// Counts the values of a field, the most frequent first.
pub fn terms_sql(field: &str, filter: Option<&str>, size: u64) -> (r: String)
    ensures
        r@ == terms_query(field@, given(filter), size as nat),
{
    let clause: String = where_clause(filter);
    let size: String = text::u64_text(size);
    let mut out: String = "SELECT ".to_owned();
    out.append(field);
    out.append(" AS key, COUNT(*) AS doc_count FROM t");
    out.append(clause.as_str());
    out.append(" GROUP BY ");
    out.append(field);
    out.append(" ORDER BY doc_count DESC LIMIT ");
    out.append(size.as_str());
    out
}

/// The query of the values of a field by intervals.
pub open spec fn histogram_query(
    field: Seq<char>,
    interval: Seq<char>,
    filter: Option<Seq<char>>,
) -> Seq<char> {
    "SELECT floor("@ + field + " / "@ + interval + ") * "@ + interval
        + " AS key, COUNT(*) AS doc_count FROM t"@ + where_sql(filter)
        + " GROUP BY key ORDER BY key"@
}

/// Counts the values of a field by intervals.
pub fn histogram_sql(field: &str, interval: &str, filter: Option<&str>) -> (r: String)
    ensures
        r@ == histogram_query(field@, interval@, given(filter)),
{
    let clause: String = where_clause(filter);
    let mut out: String = "SELECT floor(".to_owned();
    out.append(field);
    out.append(" / ");
    out.append(interval);
    out.append(") * ");
    out.append(interval);
    out.append(" AS key, COUNT(*) AS doc_count FROM t");
    out.append(clause.as_str());
    out.append(" GROUP BY key ORDER BY key");
    out
}

/// The query of the dates of a field by units.
pub open spec fn date_histogram_query(
    unit: Seq<char>,
    field: Seq<char>,
    filter: Option<Seq<char>>,
) -> Seq<char> {
    "SELECT date_trunc('"@ + unit + "', "@ + field
        + ") AS key, COUNT(*) AS doc_count FROM t"@ + where_sql(filter)
        + " GROUP BY key ORDER BY key"@
}

/// Counts the dates of a field by units.
pub fn date_histogram_sql(unit: &str, field: &str, filter: Option<&str>) -> (r: String)
    ensures
        r@ == date_histogram_query(unit@, field@, given(filter)),
{
    let clause: String = where_clause(filter);
    let mut out: String = "SELECT date_trunc('".to_owned();
    out.append(unit);
    out.append("', ");
    out.append(field);
    out.append(") AS key, COUNT(*) AS doc_count FROM t");
    out.append(clause.as_str());
    out.append(" GROUP BY key ORDER BY key");
    out
}

/// The query of the number of rows that meet a condition.
pub open spec fn count_query(condition: Seq<char>) -> Seq<char> {
    "SELECT COUNT(*) FROM t WHERE ("@ + condition + ")"@
}

/// Counts the rows that meet a condition.
pub fn count_sql(condition: &str) -> (r: String)
    ensures
        r@ == count_query(condition@),
{
    let mut out: String = "SELECT COUNT(*) FROM t WHERE (".to_owned();
    out.append(condition);
    out.append(")");
    out
}

/// The function of a metric and what follows its field.
pub open spec fn metric_parts(kind: Seq<char>) -> Option<Seq<char>> {
    if kind == "avg"@ {
        Some("AVG("@)
    } else if kind == "sum"@ {
        Some("SUM("@)
    } else if kind == "min"@ {
        Some("MIN("@)
    } else if kind == "max"@ {
        Some("MAX("@)
    } else if kind == "value_count"@ {
        Some("COUNT("@)
    } else if kind == "cardinality"@ {
        Some("COUNT(DISTINCT "@)
    } else {
        None
    }
}

/// The query of a metric; none where it is not supported.
pub open spec fn metric_query(
    kind: Seq<char>,
    field: Seq<char>,
    filter: Option<Seq<char>>,
) -> Option<Seq<char>> {
    match metric_parts(kind) {
        Some(function) => Some(
            "SELECT "@ + function + field + ") AS value FROM t"@ + where_sql(filter),
        ),
        None => None,
    }
}

/// Computes one number of a field, or says that the metric is not supported.
pub fn metric_sql(kind: &str, field: &str, filter: Option<&str>) -> (r: Result<String, String>)
    ensures
        match r {
            Ok(s) => metric_query(kind@, field@, given(filter)) == Some(s@),
            Err(e) => metric_query(kind@, field@, given(filter)) is None && e@
                == "unsupported metric '"@ + kind@ + "'"@,
        },
{
    let function: &str = if text::same(kind, "avg") {
        "AVG("
    } else if text::same(kind, "sum") {
        "SUM("
    } else if text::same(kind, "min") {
        "MIN("
    } else if text::same(kind, "max") {
        "MAX("
    } else if text::same(kind, "value_count") {
        "COUNT("
    } else if text::same(kind, "cardinality") {
        "COUNT(DISTINCT "
    } else {
        let mut e: String = "unsupported metric '".to_owned();
        e.append(kind);
        e.append("'");
        return Err(e);
    };
    let clause: String = where_clause(filter);
    let mut out: String = "SELECT ".to_owned();
    out.append(function);
    out.append(field);
    out.append(") AS value FROM t");
    out.append(clause.as_str());
    Ok(out)
}

/// The `WHERE` of a filter as it is written out.
pub open spec fn is_where(filter: Option<Seq<char>>, clause: Seq<char>) -> bool {
    match filter {
        None => clause.len() == 0,
        Some(f) => {
            ||| clause == " WHERE ("@ + f + ")"@ && exists|i: int|
                0 <= i < f.len() && !text::is_space(#[trigger] f[i])
            ||| clause.len() == 0 && forall|i: int|
                0 <= i < f.len() ==> text::is_space(#[trigger] f[i])
        },
    }
}

/// A filter is asked for in parentheses behind `WHERE`; none, or one of white space alone,
/// is not asked for.
pub proof fn law_filters_stand_behind_where(filter: Option<Seq<char>>)
    ensures
        is_where(filter, where_sql(filter)),
        filters(filter) <==> where_sql(filter).len() > 0,
{
    reveal_strlit(" WHERE (");
    if let Some(f) = filter {
        lemma_blank(f);
    }
}

proof fn lemma_blank(f: Seq<char>)
    ensures
        text::trimmed(f).len() == 0 <==> forall|i: int|
            0 <= i < f.len() ==> text::is_space(#[trigger] f[i]),
{
    text::law_white_space_is_trimmed(f);
    let (i, j) = choose|i: int, j: int|
        {
            &&& 0 <= i <= j <= f.len()
            &&& text::trimmed(f) == #[trigger] f.subrange(i, j)
            &&& forall|k: int| 0 <= k < i || j <= k < f.len() ==> text::is_space(#[trigger] f[k])
        };
    if i < j {
        assert(text::trimmed(f)[0] == f[i]);
    }
}

/// Each metric is the function of that name, of the field and over the rows of the filter:
/// `avg`, `sum`, `min` and `max` are those functions, a value count counts the values and a
/// cardinality the distinct ones. Nothing else is a metric.
pub proof fn law_metrics_are_their_functions(
    field: Seq<char>,
    filter: Option<Seq<char>>,
    kind: Seq<char>,
)
    ensures
        metric_query("avg"@, field, filter) == Some(
            "SELECT AVG("@ + field + ") AS value FROM t"@ + where_sql(filter),
        ),
        metric_query("sum"@, field, filter) == Some(
            "SELECT SUM("@ + field + ") AS value FROM t"@ + where_sql(filter),
        ),
        metric_query("min"@, field, filter) == Some(
            "SELECT MIN("@ + field + ") AS value FROM t"@ + where_sql(filter),
        ),
        metric_query("max"@, field, filter) == Some(
            "SELECT MAX("@ + field + ") AS value FROM t"@ + where_sql(filter),
        ),
        metric_query("value_count"@, field, filter) == Some(
            "SELECT COUNT("@ + field + ") AS value FROM t"@ + where_sql(filter),
        ),
        metric_query("cardinality"@, field, filter) == Some(
            "SELECT COUNT(DISTINCT "@ + field + ") AS value FROM t"@ + where_sql(filter),
        ),
        metric_query(kind, field, filter) is Some <==> kind == "avg"@ || kind == "sum"@ || kind
            == "min"@ || kind == "max"@ || kind == "value_count"@ || kind == "cardinality"@,
{
    lemma_metric_names();
    lemma_select("AVG("@, "SELECT AVG("@, field, filter);
    lemma_select("SUM("@, "SELECT SUM("@, field, filter);
    lemma_select("MIN("@, "SELECT MIN("@, field, filter);
    lemma_select("MAX("@, "SELECT MAX("@, field, filter);
    lemma_select("COUNT("@, "SELECT COUNT("@, field, filter);
    lemma_select("COUNT(DISTINCT "@, "SELECT COUNT(DISTINCT "@, field, filter);
}

proof fn lemma_select(
    function: Seq<char>,
    start: Seq<char>,
    field: Seq<char>,
    filter: Option<Seq<char>>,
)
    requires
        start == "SELECT "@ + function,
    ensures
        "SELECT "@ + function + field + ") AS value FROM t"@ + where_sql(filter) == start + field
            + ") AS value FROM t"@ + where_sql(filter),
{
}

proof fn lemma_metric_names()
    ensures
        "avg"@ != "sum"@,
        "avg"@ != "min"@,
        "avg"@ != "max"@,
        "sum"@ != "min"@,
        "sum"@ != "max"@,
        "min"@ != "max"@,
        "value_count"@.len() == 11 && "cardinality"@.len() == 11 && "avg"@.len() == 3
            && "sum"@.len() == 3 && "min"@.len() == 3 && "max"@.len() == 3,
        "value_count"@ != "cardinality"@,
        "SELECT AVG("@ == "SELECT "@ + "AVG("@,
        "SELECT SUM("@ == "SELECT "@ + "SUM("@,
        "SELECT MIN("@ == "SELECT "@ + "MIN("@,
        "SELECT MAX("@ == "SELECT "@ + "MAX("@,
        "SELECT COUNT("@ == "SELECT "@ + "COUNT("@,
        "SELECT COUNT(DISTINCT "@ == "SELECT "@ + "COUNT(DISTINCT "@,
{
    reveal_strlit("avg");
    reveal_strlit("sum");
    reveal_strlit("min");
    reveal_strlit("max");
    reveal_strlit("value_count");
    reveal_strlit("cardinality");
    reveal_strlit("SELECT ");
    reveal_strlit("AVG(");
    reveal_strlit("SUM(");
    reveal_strlit("MIN(");
    reveal_strlit("MAX(");
    reveal_strlit("COUNT(");
    reveal_strlit("COUNT(DISTINCT ");
    reveal_strlit("SELECT AVG(");
    reveal_strlit("SELECT SUM(");
    reveal_strlit("SELECT MIN(");
    reveal_strlit("SELECT MAX(");
    reveal_strlit("SELECT COUNT(");
    reveal_strlit("SELECT COUNT(DISTINCT ");
    assert("avg"@[0] == 'a' && "sum"@[0] == 's' && "min"@[1] == 'i' && "max"@[1] == 'a');
    assert("min"@[0] == 'm' && "max"@[0] == 'm');
    assert("value_count"@[0] == 'v' && "cardinality"@[0] == 'c');
    assert("SELECT AVG("@ =~= "SELECT "@ + "AVG("@);
    assert("SELECT SUM("@ =~= "SELECT "@ + "SUM("@);
    assert("SELECT MIN("@ =~= "SELECT "@ + "MIN("@);
    assert("SELECT MAX("@ =~= "SELECT "@ + "MAX("@);
    assert("SELECT COUNT("@ =~= "SELECT "@ + "COUNT("@);
    assert("SELECT COUNT(DISTINCT "@ =~= "SELECT "@ + "COUNT(DISTINCT "@);
}

/// The statistics of a field are its metrics: what the query of the statistics calls by a
/// name is the function by which the metric of that name is computed.
pub proof fn law_statistics_are_the_metrics(field: Seq<char>, filter: Option<Seq<char>>)
    ensures
        ({
            let stats = stats_query(field, filter);
            &&& metric_parts("value_count"@) matches Some(f) && text::occurs(
                stats,
                f + field + ") AS count"@,
            )
            &&& metric_parts("min"@) matches Some(f) && text::occurs(
                stats,
                f + field + ") AS min"@,
            )
            &&& metric_parts("max"@) matches Some(f) && text::occurs(
                stats,
                f + field + ") AS max"@,
            )
            &&& metric_parts("avg"@) matches Some(f) && text::occurs(
                stats,
                f + field + ") AS avg"@,
            )
            &&& metric_parts("sum"@) matches Some(f) && text::occurs(
                stats,
                f + field + ") AS sum"@,
            ) && text::occurs(stats, f + field + " * "@ + field + ") AS sum_sq"@)
            &&& exists|head: Seq<char>| stats == head + where_sql(filter)
        }),
{
    lemma_metric_names();
    let stats = stats_query(field, filter);
    let t = lemma_stats_columns(field, filter);
    let t0 = "SELECT "@;
    let t1 = t.0;
    let t2 = t.1;
    let t3 = t.2;
    let t4 = t.3;
    let t5 = t.4;
    lemma_squares(t5, field, where_sql(filter), stats);
    lemma_column_occurs(t4, "SUM("@, field, ") AS sum"@, t5, stats);
    lemma_column_occurs(t3, "AVG("@, field, ") AS avg"@, t4, stats);
    lemma_column_occurs(t2, "MAX("@, field, ") AS max"@, t3, stats);
    lemma_column_occurs(t1, "MIN("@, field, ") AS min"@, t2, stats);
    lemma_column_occurs(t0, "COUNT("@, field, ") AS count"@, t1, stats);
}

/// A column stands behind a text, and a comma behind it.
#[verifier::opaque]
spec fn is_column(t: Seq<char>, column: Seq<char>, r: Seq<char>) -> bool {
    r == t + column + ", "@
}

proof fn lemma_stats_columns(field: Seq<char>, filter: Option<Seq<char>>) -> (t: (
    Seq<char>,
    Seq<char>,
    Seq<char>,
    Seq<char>,
    Seq<char>,
))
    ensures
        is_column("SELECT "@, "COUNT("@ + field + ") AS count"@, t.0),
        is_column(t.0, "MIN("@ + field + ") AS min"@, t.1),
        is_column(t.1, "MAX("@ + field + ") AS max"@, t.2),
        is_column(t.2, "AVG("@ + field + ") AS avg"@, t.3),
        is_column(t.3, "SUM("@ + field + ") AS sum"@, t.4),
        stats_query(field, filter) == t.4 + "SUM("@ + field + " * "@ + field + (") AS sum_sq"@
            + " FROM t"@) + where_sql(filter),
{
    lemma_metric_names();
    lemma_stats_pieces();
    let t1 = lemma_column("SELECT "@, "COUNT("@, field, ") AS count"@, "MIN("@);
    let t2 = lemma_column(t1, "MIN("@, field, ") AS min"@, "MAX("@);
    let t3 = lemma_column(t2, "MAX("@, field, ") AS max"@, "AVG("@);
    let t4 = lemma_column(t3, "AVG("@, field, ") AS avg"@, "SUM("@);
    let t5 = lemma_column(t4, "SUM("@, field, ") AS sum"@, "SUM("@);
    (t1, t2, t3, t4, t5)
}

proof fn lemma_column(
    t: Seq<char>,
    function: Seq<char>,
    field: Seq<char>,
    name: Seq<char>,
    next: Seq<char>,
) -> (r: Seq<char>)
    ensures
        is_column(t, function + field + name, r),
        t + function + field + (name + ", "@ + next) == r + next,
{
    reveal(is_column);
    let r = t + (function + field + name) + ", "@;
    assert(t + function + field + (name + ", "@ + next) =~= r + next);
    r
}

proof fn lemma_column_occurs(
    t: Seq<char>,
    function: Seq<char>,
    field: Seq<char>,
    name: Seq<char>,
    r: Seq<char>,
    all: Seq<char>,
)
    requires
        is_column(t, function + field + name, r),
        r.is_prefix_of(all),
    ensures
        text::occurs(all, function + field + name),
        t.is_prefix_of(all),
{
    reveal(is_column);
    let b = function + field + name;
    let rest = all.skip(r.len() as int);
    assert(all =~= r + rest);
    assert(t + b + (", "@ + rest) =~= all);
    lemma_occurs(t, b, ", "@ + rest, all);
    assert(t.is_prefix_of(all)) by {
        assert(all.subrange(0, t.len() as int) =~= t);
    }
}

proof fn lemma_squares(t: Seq<char>, field: Seq<char>, tail: Seq<char>, all: Seq<char>)
    requires
        all == t + "SUM("@ + field + " * "@ + field + (") AS sum_sq"@ + " FROM t"@) + tail,
    ensures
        text::occurs(all, "SUM("@ + field + " * "@ + field + ") AS sum_sq"@),
        t.is_prefix_of(all),
        exists|head: Seq<char>| all == head + tail,
{
    let b = "SUM("@ + field + " * "@ + field + ") AS sum_sq"@;
    assert(t + b + (" FROM t"@ + tail) =~= all);
    lemma_occurs(t, b, " FROM t"@ + tail, all);
    assert(all.subrange(0, t.len() as int) =~= t);
}

proof fn lemma_occurs(a: Seq<char>, b: Seq<char>, c: Seq<char>, t: Seq<char>)
    requires
        a + b + c =~= t,
    ensures
        text::occurs(t, b),
{
    assert(t.subrange(a.len() as int, a.len() as int + b.len()) =~= b);
    assert(text::occurs_at(t, b, a.len() as int));
}

proof fn lemma_stats_pieces()
    ensures
        "SELECT COUNT("@ == "SELECT "@ + "COUNT("@,
        ") AS count, MIN("@ == ") AS count"@ + ", "@ + "MIN("@,
        ") AS min, MAX("@ == ") AS min"@ + ", "@ + "MAX("@,
        ") AS max, AVG("@ == ") AS max"@ + ", "@ + "AVG("@,
        ") AS avg, SUM("@ == ") AS avg"@ + ", "@ + "SUM("@,
        ") AS sum, SUM("@ == ") AS sum"@ + ", "@ + "SUM("@,
        ") AS sum_sq FROM t"@ == ") AS sum_sq"@ + " FROM t"@,
{
    lemma_metric_names();
    reveal_strlit(") AS count, MIN(");
    reveal_strlit(") AS count");
    reveal_strlit(", ");
    reveal_strlit("MIN(");
    reveal_strlit(") AS min, MAX(");
    reveal_strlit(") AS min");
    reveal_strlit("MAX(");
    reveal_strlit(") AS max, AVG(");
    reveal_strlit(") AS max");
    reveal_strlit("AVG(");
    reveal_strlit(") AS avg, SUM(");
    reveal_strlit(") AS avg");
    reveal_strlit("SUM(");
    reveal_strlit(") AS sum, SUM(");
    reveal_strlit(") AS sum");
    reveal_strlit(") AS sum_sq FROM t");
    reveal_strlit(") AS sum_sq");
    reveal_strlit(" FROM t");
    assert(") AS count, MIN("@ =~= ") AS count"@ + ", "@ + "MIN("@);
    assert(") AS min, MAX("@ =~= ") AS min"@ + ", "@ + "MAX("@);
    assert(") AS max, AVG("@ =~= ") AS max"@ + ", "@ + "AVG("@);
    assert(") AS avg, SUM("@ =~= ") AS avg"@ + ", "@ + "SUM("@);
    assert(") AS sum, SUM("@ =~= ") AS sum"@ + ", "@ + "SUM("@);
    assert(") AS sum_sq FROM t"@ =~= ") AS sum_sq"@ + " FROM t"@);
}

/// Every query of buckets names what its rows have in common `key` and counts them as
/// `doc_count`, over the rows of the filter alone: the values of a field, the multiples of
/// an interval below them, or the starts of the units that they lie in. Values come by
/// their counts, the most frequent first, and as many as are asked for; intervals and units
/// come in their order.
pub proof fn law_bucket_queries(
    field: Seq<char>,
    interval: Seq<char>,
    filter: Option<Seq<char>>,
    size: nat,
)
    ensures
        terms_query(field, filter, size) == "SELECT "@ + field + bucket_columns() + where_sql(
            filter,
        ) + (" GROUP BY "@ + field) + (" ORDER BY doc_count DESC"@ + (" LIMIT "@ + text::decimal(
            size,
        ))),
        histogram_query(field, interval, filter) == "SELECT "@ + ("floor("@ + field + " / "@
            + interval + ") * "@ + interval) + bucket_columns() + where_sql(filter) + (
        " GROUP BY key"@ + " ORDER BY key"@),
        date_histogram_query(interval, field, filter) == "SELECT "@ + ("date_trunc('"@ + interval
            + "', "@ + field + ")"@) + bucket_columns() + where_sql(filter) + (" GROUP BY key"@
            + " ORDER BY key"@),
        filters(filter) ==> count_query(filter->0) == "SELECT COUNT(*) FROM t"@ + where_sql(filter),
{
    reveal_strlit("SELECT ");
    reveal_strlit(" AS key, COUNT(*) AS doc_count FROM t");
    reveal_strlit(") AS key, COUNT(*) AS doc_count FROM t");
    reveal_strlit(" AS key");
    reveal_strlit(", COUNT(*) AS doc_count");
    reveal_strlit(" FROM t");
    reveal_strlit(" ORDER BY doc_count DESC LIMIT ");
    reveal_strlit(" ORDER BY doc_count DESC");
    reveal_strlit(" LIMIT ");
    reveal_strlit(" GROUP BY key ORDER BY key");
    reveal_strlit(" GROUP BY key");
    reveal_strlit(" ORDER BY key");
    reveal_strlit("SELECT floor(");
    reveal_strlit("floor(");
    reveal_strlit("SELECT date_trunc('");
    reveal_strlit("date_trunc('");
    reveal_strlit(")");
    reveal_strlit("SELECT COUNT(*) FROM t WHERE (");
    reveal_strlit("SELECT COUNT(*) FROM t");
    reveal_strlit(" WHERE (");
    assert(" AS key, COUNT(*) AS doc_count FROM t"@ =~= bucket_columns());
    assert(") AS key, COUNT(*) AS doc_count FROM t"@ =~= ")"@ + bucket_columns());
    assert(" ORDER BY doc_count DESC LIMIT "@ =~= " ORDER BY doc_count DESC"@ + " LIMIT "@);
    assert(" GROUP BY key ORDER BY key"@ =~= " GROUP BY key"@ + " ORDER BY key"@);
    assert("SELECT floor("@ =~= "SELECT "@ + "floor("@);
    assert("SELECT date_trunc('"@ =~= "SELECT "@ + "date_trunc('"@);
    assert("SELECT COUNT(*) FROM t WHERE ("@ =~= "SELECT COUNT(*) FROM t"@ + " WHERE ("@);
    let columns = bucket_columns();
    assert(terms_query(field, filter, size) =~= "SELECT "@ + field + columns + where_sql(filter) + (
    " GROUP BY "@ + field) + (" ORDER BY doc_count DESC"@ + (" LIMIT "@ + text::decimal(size))));
    assert(histogram_query(field, interval, filter) =~= "SELECT "@ + ("floor("@ + field + " / "@
        + interval + ") * "@ + interval) + columns + where_sql(filter) + (" GROUP BY key"@
        + " ORDER BY key"@));
    assert(date_histogram_query(interval, field, filter) =~= "SELECT "@ + ("date_trunc('"@
        + interval
        + "', "@ + field + ")"@) + columns + where_sql(filter) + (" GROUP BY key"@
        + " ORDER BY key"@));
    if filters(filter) {
        assert(count_query(filter->0) =~= "SELECT COUNT(*) FROM t"@ + where_sql(filter));
    }
}

/// The columns of a query of buckets: what the rows have in common, and how many they are.
pub open spec fn bucket_columns() -> Seq<char> {
    " AS key"@ + ", COUNT(*) AS doc_count"@ + " FROM t"@
}

/// Dates are cut off at the unit that is named, in full or by its letter; an unknown unit
/// is a day.
pub proof fn law_units_go_by_their_names(name: Seq<char>)
    ensures
        date_unit("minute"@) == "minute"@ && date_unit("1m"@) == "minute"@,
        date_unit("hour"@) == "hour"@ && date_unit("1h"@) == "hour"@,
        date_unit("day"@) == "day"@ && date_unit("1d"@) == "day"@,
        date_unit("week"@) == "week"@ && date_unit("1w"@) == "week"@,
        date_unit("month"@) == "month"@ && date_unit("1M"@) == "month"@,
        date_unit("quarter"@) == "quarter"@ && date_unit("1q"@) == "quarter"@,
        date_unit("year"@) == "year"@ && date_unit("1y"@) == "year"@,
        date_unit(date_unit(name)) == date_unit(name),
        date_unit(name) == "day"@ || date_unit(name) == name || (name.len() == 2 && name[0] == '1'),
{
    reveal_strlit("minute");
    reveal_strlit("1m");
    reveal_strlit("hour");
    reveal_strlit("1h");
    reveal_strlit("day");
    reveal_strlit("1d");
    reveal_strlit("week");
    reveal_strlit("1w");
    reveal_strlit("month");
    reveal_strlit("1M");
    reveal_strlit("quarter");
    reveal_strlit("1q");
    reveal_strlit("year");
    reveal_strlit("1y");
    assert("1m"@[1] == 'm' && "1h"@[1] == 'h' && "1d"@[1] == 'd' && "1w"@[1] == 'w' && "1M"@[1]
        == 'M' && "1q"@[1] == 'q' && "1y"@[1] == 'y');
    assert("minute"@.len() == 6 && "hour"@[0] == 'h' && "week"@[0] == 'w' && "month"@.len() == 5
        && "quarter"@.len() == 7 && "year"@[0] == 'y' && "day"@.len() == 3);
}

/// The field of an aggregation is the one that the request names, and its kind the one that
/// it asks for; a terms aggregation has the size of the request, and ten where it gives none.
pub proof fn law_aggregations_are_those_requested(kind: Seq<char>, body: JsonTree)
    ensures
        aggregation_in(kind, body) matches Ok(a) ==> match a {
            AggregationView::Filter => kind == "filter"@,
            AggregationView::Terms { field, size } => kind == "terms"@ && names_field(body, field)
                && (body.member("size"@) is None ==> size == 10),
            AggregationView::Histogram { field, interval } => kind == "histogram"@ && names_field(
                body,
                field,
            ) && (body.member("interval"@) matches Some(JsonTree::Number(n)) && n@ == interval),
            AggregationView::DateHistogram { field, unit } => kind == "date_histogram"@
                && names_field(body, field) && (body.member("calendar_interval"@) matches Some(
                JsonTree::Text(s),
            ) ==> unit == date_unit(s@)),
            AggregationView::Range { field, ranges } => kind == "range"@ && names_field(
                body,
                field,
            ) && (body.member("ranges"@) matches Some(JsonTree::List(list)) && ranges.len()
                == list@.len()),
            AggregationView::Missing { field } => kind == "missing"@ && names_field(body, field),
            AggregationView::Metric { field, kind: metric } => metric == kind && names_field(
                body,
                field,
            ) && metric_query(kind, field, None) is Some,
            AggregationView::Stats { field } => (kind == "stats"@ || kind == "extended_stats"@)
                && names_field(body, field),
        },
{
}

/// A request names a field, which has the form of a name.
pub open spec fn names_field(body: JsonTree, field: Seq<char>) -> bool {
    &&& body.member("field"@) matches Some(JsonTree::Text(s)) && s@ == field
    &&& sql::is_field_name(field)
}

/// Every metric that a request can name has a query.
pub proof fn law_requested_metrics_are_computed(request: JsonTree)
    ensures
        requested(request) matches Ok(AggregationView::Metric { field, kind }) ==> metric_parts(
            kind,
        ) is Some && sql::is_field_name(field),
{
}

/// The query of the count, the bounds, the mean and the sums of a field.
pub open spec fn stats_query(field: Seq<char>, filter: Option<Seq<char>>) -> Seq<char> {
    "SELECT COUNT("@ + field + ") AS count, MIN("@ + field + ") AS min, MAX("@ + field
        + ") AS max, AVG("@ + field + ") AS avg, SUM("@ + field + ") AS sum, SUM("@ + field
        + " * "@ + field + ") AS sum_sq FROM t"@ + where_sql(filter)
}

/// Computes the count, the bounds, the mean and the sums of a field.
pub fn stats_sql(field: &str, filter: Option<&str>) -> (r: String)
    ensures
        r@ == stats_query(field@, given(filter)),
{
    let clause: String = where_clause(filter);
    let mut out: String = "SELECT COUNT(".to_owned();
    out.append(field);
    out.append(") AS count, MIN(");
    out.append(field);
    out.append(") AS min, MAX(");
    out.append(field);
    out.append(") AS max, AVG(");
    out.append(field);
    out.append(") AS avg, SUM(");
    out.append(field);
    out.append(") AS sum, SUM(");
    out.append(field);
    out.append(" * ");
    out.append(field);
    out.append(") AS sum_sq FROM t");
    out.append(clause.as_str());
    out
}

// ---------------------------------------------------------------------------
// Buckets
// ---------------------------------------------------------------------------

/// The condition of the bucket of a value.
pub open spec fn term_condition(field: Seq<char>, key: qdrant_types::JsonView) -> Seq<char> {
    field + " = "@ + qdrant::literal_of(key)
}

/// The filter of the bucket of a value.
pub fn term_filter(filter: Option<&str>, field: &str, key: &JsonValue) -> (r: String)
    ensures
        r@ == both_sql(given(filter), term_condition(field@, key@)),
{
    let literal: String = qdrant::sql_literal(key);
    let mut condition: String = field.to_owned();
    condition.append(" = ");
    condition.append(literal.as_str());
    and_filter(filter, condition.as_str())
}

/// The filter of the bucket of an interval, given its bounds.
pub fn interval_filter(filter: Option<&str>, field: &str, low: &str, high: &str) -> (r: String)
    ensures
        r@ == both_sql(given(filter), range_sql(field@, Some(low@), Some(high@))),
{
    let mut condition: String = field.to_owned();
    condition.append(" >= ");
    condition.append(low);
    condition.append(" AND ");
    condition.append(field);
    condition.append(" < ");
    condition.append(high);
    and_filter(filter, condition.as_str())
}

/// The condition of a range, given the texts of its bounds.
pub open spec fn range_sql(
    field: Seq<char>,
    from: Option<Seq<char>>,
    to: Option<Seq<char>>,
) -> Seq<char> {
    match (from, to) {
        (Some(f), Some(t)) => field + " >= "@ + f + " AND "@ + field + " < "@ + t,
        (Some(f), None) => field + " >= "@ + f,
        (None, Some(t)) => field + " < "@ + t,
        (None, None) => "true"@,
    }
}

/// The filter of the bucket of a range.
pub fn range_filter(filter: Option<&str>, field: &str, from: Option<&str>, to: Option<&str>) -> (r:
    String)
    ensures
        r@ == both_sql(given(filter), range_sql(field@, given(from), given(to))),
{
    let mut condition: String = String::new();
    assert(condition@ =~= Seq::<char>::empty());
    match from {
        Some(f) => {
            condition.append(field);
            condition.append(" >= ");
            condition.append(f);
            match to {
                Some(t) => {
                    condition.append(" AND ");
                    condition.append(field);
                    condition.append(" < ");
                    condition.append(t);
                },
                None => {},
            }
        },
        None => match to {
            Some(t) => {
                condition.append(field);
                condition.append(" < ");
                condition.append(t);
            },
            None => {
                condition.append("true");
            },
        },
    }
    assert(condition@ =~= range_sql(field@, given(from), given(to)));
    and_filter(filter, condition.as_str())
}

/// The key of the bucket of a range that has no name.
pub open spec fn range_name(from: Option<Seq<char>>, to: Option<Seq<char>>) -> Seq<char> {
    (match from {
        Some(f) => f,
        None => "*"@,
    }) + "-"@ + (match to {
        Some(t) => t,
        None => "*"@,
    })
}

/// The key of the bucket of a range: its name where it has one.
pub open spec fn range_label(
    name: Option<Seq<char>>,
    from: Option<Seq<char>>,
    to: Option<Seq<char>>,
) -> Seq<char> {
    match name {
        Some(k) => k,
        None => range_name(from, to),
    }
}

/// The key of the bucket of a range: its name where it has one.
pub fn range_key(name: Option<&str>, from: Option<&str>, to: Option<&str>) -> (r: String)
    ensures
        r@ == range_label(given(name), given(from), given(to)),
{
    match name {
        Some(k) => k.to_owned(),
        None => {
            let mut out: String = match from {
                Some(f) => f.to_owned(),
                None => "*".to_owned(),
            };
            out.append("-");
            match to {
                Some(t) => {
                    out.append(t);
                },
                None => {
                    out.append("*");
                },
            }
            out
        },
    }
}

/// The condition of the rows without a field.
pub open spec fn missing_condition(field: Seq<char>) -> Seq<char> {
    field + " IS NULL"@
}

/// The filter of the rows without a field.
pub fn missing_filter(filter: Option<&str>, field: &str) -> (r: String)
    ensures
        r@ == both_sql(given(filter), missing_condition(field@)),
{
    let mut condition: String = field.to_owned();
    condition.append(" IS NULL");
    and_filter(filter, condition.as_str())
}

/// A bucket: what its rows have in common, and how many they are.
#[derive(Debug)]
pub struct Bucket {
    pub key: JsonValue,
    pub doc_count: JsonValue,
}

/// A bucket out of a row of a result.
pub open spec fn is_bucket(b: Bucket, row: TextMap<JsonValue>) -> bool {
    &&& b.key@ == if row@.dom().contains("key"@) {
        row@["key"@]@
    } else {
        JsonValue::Null@
    }
    &&& if row@.dom().contains("doc_count"@) {
        b.doc_count@ == row@["doc_count"@]@
    } else {
        b.doc_count matches JsonValue::Number(n) && n@ == "0"@
    }
}

/// The buckets of the rows of a result, in their order. What a row does not have
/// is null, and its count zero.
pub fn buckets(rows: &Vec<TextMap<JsonValue>>) -> (r: Vec<Bucket>)
    requires
        forall|i: int| 0 <= i < rows.len() ==> (#[trigger] rows@[i]).wf(),
    ensures
        r.len() == rows.len(),
        forall|i: int| 0 <= i < rows.len() ==> is_bucket(#[trigger] r@[i], rows@[i]),
{
    let mut out: Vec<Bucket> = Vec::new();
    let mut i: usize = 0;
    while i < rows.len()
        invariant
            i <= rows.len(),
            forall|k: int| 0 <= k < rows.len() ==> (#[trigger] rows@[k]).wf(),
            out.len() == i,
            forall|k: int| 0 <= k < i ==> is_bucket(#[trigger] out@[k], rows@[k]),
        decreases rows.len() - i,
    {
        let key: JsonValue = match rows[i].get("key") {
            Some(v) => v.copy(),
            None => JsonValue::Null,
        };
        let doc_count: JsonValue = match rows[i].get("doc_count") {
            Some(v) => v.copy(),
            None => JsonValue::Number("0".to_owned()),
        };
        out.push(Bucket { key, doc_count });
        i = i + 1;
    }
    out
}

/// The first result that has a cell, given the rows and columns of each.
pub fn first_filled(shapes: &Vec<(usize, usize)>) -> (r: Option<usize>)
    ensures
        match r {
            Some(i) => i < shapes.len() && shapes@[i as int].0 > 0 && shapes@[i as int].1 > 0
                && forall|j: int|
                0 <= j < i ==> (#[trigger] shapes@[j]).0 == 0 || shapes@[j].1 == 0,
            None => forall|j: int|
                0 <= j < shapes.len() ==> (#[trigger] shapes@[j]).0 == 0 || shapes@[j].1 == 0,
        },
{
    let mut i: usize = 0;
    while i < shapes.len()
        invariant
            i <= shapes.len(),
            forall|j: int| 0 <= j < i ==> (#[trigger] shapes@[j]).0 == 0 || shapes@[j].1 == 0,
        decreases shapes.len() - i,
    {
        if shapes[i].0 > 0 && shapes[i].1 > 0 {
            return Some(i);
        }
        i = i + 1;
    }
    None
}

/// The bucket of a range is called by its name, else by its bounds, with a star for one that
/// is open; and the bucket of the rows without a field asks for just those.
pub proof fn law_buckets_are_named(
    name: Seq<char>,
    field: Seq<char>,
    from: Option<Seq<char>>,
    to: Option<Seq<char>>,
    low: Seq<char>,
    high: Seq<char>,
)
    ensures
        range_label(Some(name), from, to) == name,
        range_label(None, Some(low), Some(high)) == low + "-"@ + high,
        range_label(None, Some(low), None) == low + "-*"@,
        range_label(None, None, Some(high)) == "*-"@ + high,
        missing_condition(field) == field + " IS NULL"@,
        !filters(None),
        both_sql(None, missing_condition(field)) == field + " IS NULL"@,
{
    reveal_strlit("-");
    reveal_strlit("*");
    reveal_strlit("-*");
    reveal_strlit("*-");
    assert("-*"@ =~= "-"@ + "*"@);
    assert("*-"@ =~= "*"@ + "-"@);
    assert(range_label(None, Some(low), None) =~= low + "-*"@);
}

/// A member of an object is the first one of its name, and there is none where the name does
/// not stand.
pub proof fn law_members_go_by_their_names(
    members: Vec<(String, JsonTree)>,
    name: Seq<char>,
    i: int,
)
    requires
        0 <= i <= members@.len(),
        forall|j: int| 0 <= j < i ==> (#[trigger] members@[j]).0@ != name,
    ensures
        i == members@.len() ==> JsonTree::Object(members).member(name) is None,
        i < members@.len() && members@[i].0@ == name ==> JsonTree::Object(members).member(name)
            == Some(members@[i].1),
{
    if i == members@.len() || members@[i].0@ == name {
        lemma_place(members@, name, i);
    }
}

/// What a request says of an aggregation is what it is: the number of its buckets, the bounds
/// and names of its ranges. One that needs a field is refused without one.
pub proof fn law_requests_are_read(body: JsonTree, field: Seq<char>, n: nat, i: int)
    requires
        n <= u64::MAX,
    ensures
        names_field(body, field) && (body.member("size"@) matches Some(JsonTree::Number(s)) && s@
            == text::decimal(n)) ==> aggregation_in("terms"@, body) == Ok::<
            AggregationView,
            Seq<char>,
        >(AggregationView::Terms { field, size: n as u64 }),
        names_field(body, field) ==> (body.member("ranges"@) matches Some(JsonTree::List(list))
            ==> (
        aggregation_in("range"@, body) matches Ok(AggregationView::Range { field: f, ranges })
            && f == field && ranges.len() == list@.len() && (0 <= i < list@.len() ==> {
            &&& list@[i].member("from"@) matches Some(JsonTree::Number(x)) ==> ranges[i].from
                == Some(x@)
            &&& list@[i].member("to"@) matches Some(JsonTree::Number(x)) ==> ranges[i].to == Some(
                x@,
            )
            &&& list@[i].member("key"@) matches Some(JsonTree::Text(x)) ==> ranges[i].key == Some(
                x@,
            )
            &&& list@[i].member("from"@) is None ==> ranges[i].from is None
            &&& list@[i].member("to"@) is None ==> ranges[i].to is None
            &&& list@[i].member("key"@) is None ==> ranges[i].key is None
        }))),
        body.member("field"@) is None ==> aggregation_in("terms"@, body) is Err && aggregation_in(
            "range"@,
            body,
        ) is Err && aggregation_in("sum"@, body) is Err && aggregation_in("missing"@, body) is Err,
        aggregation_in("filter"@, body)
            == Ok::<AggregationView, Seq<char>>(AggregationView::Filter),
        names_field(body, field) ==> aggregation_in("sum"@, body) == Ok::<
            AggregationView,
            Seq<char>,
        >(AggregationView::Metric { field, kind: "sum"@ }),
{
    text::law_decimal_reads_back(n, u64::MAX as nat);
    reveal_strlit("filter");
    reveal_strlit("terms");
    reveal_strlit("range");
    reveal_strlit("sum");
    reveal_strlit("missing");
    reveal_strlit("histogram");
    reveal_strlit("date_histogram");
    assert("terms"@.len() == 5 && "terms"@[0] == 't' && "range"@.len() == 5 && "range"@[0] == 'r');
    assert("filter"@.len() == 6 && "sum"@.len() == 3 && "missing"@.len() == 7);
    assert("histogram"@.len() == 9 && "date_histogram"@.len() == 14);
}

} // verus!
