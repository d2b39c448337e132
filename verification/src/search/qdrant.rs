//! What the Qdrant interface decides: filters as SQL, changes of payloads,
//! vectors and aliases, and the order and pages of results.

use vstd::prelude::*;
use vstd::string::*;

use crate::index::gpu::VectorMetric;
use crate::order;
use crate::search::qdrant_types::{
    AliasAction, AliasDescription, AliasesListResult, BatchOperation, CollectionConfig,
    CollectionDescription, CollectionInfoResult, CollectionParams, CollectionsListResult, Condition,
    ConditionList, FieldCondition, Filter, HnswConfig, JsonValue, MatchCondition, Payload, PointId,
    PointStruct, PointVectors, RetrievedPoint, ScoredPoint, ServiceInfo, VectorInput, VectorsConfig,
    WithPayload,
};
use crate::search::qdrant_types;
use crate::search::sql;
use crate::text;
use crate::textmap::{self, TextMap};

verus! {

// ---------------------------------------------------------------------------
// Errors
// ---------------------------------------------------------------------------

/// The HTTP status of an error.
#[derive(Debug, Clone, Copy, PartialEq, Eq, Structural)]
pub enum ErrorStatus {
    NotFound,
    BadRequest,
    Internal,
}

/// An error and its status.
#[derive(Debug)]
pub struct QErr {
    pub msg: String,
    pub status: ErrorStatus,
}

impl QErr {
    /// Something that is not there.
    pub fn not_found(msg: String) -> (r: Self)
        ensures
            r == (QErr { msg, status: ErrorStatus::NotFound }),
    {
        QErr { msg, status: ErrorStatus::NotFound }
    }

    /// A request that makes no sense.
    pub fn bad(msg: String) -> (r: Self)
        ensures
            r == (QErr { msg, status: ErrorStatus::BadRequest }),
    {
        QErr { msg, status: ErrorStatus::BadRequest }
    }

    /// A failure of the server.
    pub fn internal(msg: String) -> (r: Self)
        ensures
            r == (QErr { msg, status: ErrorStatus::Internal }),
    {
        QErr { msg, status: ErrorStatus::Internal }
    }

    /// The HTTP status code.
    pub fn status_code(&self) -> (r: u16)
        ensures
            r == match self.status {
                ErrorStatus::NotFound => 404u16,
                ErrorStatus::BadRequest => 400,
                ErrorStatus::Internal => 500,
            },
    {
        match self.status {
            ErrorStatus::NotFound => 404,
            ErrorStatus::BadRequest => 400,
            ErrorStatus::Internal => 500,
        }
    }
}

// ---------------------------------------------------------------------------
// Distances
// ---------------------------------------------------------------------------

/// The metric of a distance name, whatever its case; Euclidean unless another
/// is named.
pub open spec fn metric_of(distance: Seq<char>) -> VectorMetric {
    let name = text::lowered(distance);
    if name == "cosine"@ {
        VectorMetric::Cosine
    } else if name == "dot"@ || name == "ip"@ || name == "inner_product"@ {
        VectorMetric::InnerProduct
    } else if name == "manhattan"@ || name == "l1"@ {
        VectorMetric::L1
    } else {
        VectorMetric::L2
    }
}

/// The metric of a distance name.
pub fn metric_for(distance: &str) -> (r: VectorMetric)
    ensures
        r == metric_of(distance@),
{
    let low: String = text::ascii_lowercase(distance);
    let name: &str = low.as_str();
    if text::same(name, "cosine") {
        VectorMetric::Cosine
    } else if text::same(name, "dot") || text::same(name, "ip") || text::same(
        name,
        "inner_product",
    ) {
        VectorMetric::InnerProduct
    } else if text::same(name, "manhattan") || text::same(name, "l1") {
        VectorMetric::L1
    } else {
        VectorMetric::L2
    }
}

/// Scores of the distance are similarities: a higher one is better.
pub open spec fn is_similarity(distance: Seq<char>) -> bool {
    let name = text::lowered(distance);
    name == "cosine"@ || name == "dot"@ || name == "ip"@ || name == "inner_product"@
}

/// Whether a higher score is better.
pub fn higher_is_better(distance: &str) -> (r: bool)
    ensures
        r == is_similarity(distance@),
{
    let low: String = text::ascii_lowercase(distance);
    let name: &str = low.as_str();
    text::same(name, "cosine") || text::same(name, "dot") || text::same(name, "ip") || text::same(
        name,
        "inner_product",
    )
}

/// Scores are similarities exactly for the cosine and the inner product.
pub proof fn law_similarities(distance: Seq<char>)
    ensures
        is_similarity(distance) <==> metric_of(distance) == VectorMetric::Cosine || metric_of(
            distance,
        ) == VectorMetric::InnerProduct,
{
}

// ---------------------------------------------------------------------------
// Filters
// ---------------------------------------------------------------------------

/// The SQL literal of a value.
pub open spec fn literal_of(v: qdrant_types::JsonView) -> Seq<char> {
    match v {
        qdrant_types::JsonView::Text(s) => sql::quoted(s),
        qdrant_types::JsonView::Bool(b) => if b {
            "true"@
        } else {
            "false"@
        },
        qdrant_types::JsonView::Number(n) => n,
        qdrant_types::JsonView::Null => "NULL"@,
        qdrant_types::JsonView::Composite(s) => sql::quoted(s),
    }
}

/// The SQL literal of a value.
pub fn sql_literal(v: &JsonValue) -> (r: String)
    ensures
        r@ == literal_of(v@),
{
    match v {
        JsonValue::Text(s) => sql::sql_string(s.as_str()),
        JsonValue::Bool(b) => if *b {
            "true".to_owned()
        } else {
            "false".to_owned()
        },
        JsonValue::Number(n) => n.clone(),
        JsonValue::Null => "NULL".to_owned(),
        JsonValue::Composite(s) => sql::sql_string(s.as_str()),
    }
}

/// The quoted texts.
pub open spec fn all_quoted(texts: Seq<Seq<char>>) -> Seq<Seq<char>> {
    texts.map_values(|t: Seq<char>| sql::quoted(t))
}

/// The condition that a point is one of those listed.
pub open spec fn ids_sql(ids: Seq<PointId>) -> Seq<char> {
    "_id IN ("@ + text::joined(all_quoted(qdrant_types::id_texts(ids)), ", "@) + ")"@
}

/// The condition that a point is one of those listed.
pub fn ids_filter(ids: &Vec<PointId>) -> (r: String)
    ensures
        r@ == ids_sql(ids@),
{
    let ghost views = all_quoted(qdrant_types::id_texts(ids@));
    let mut lits: Vec<String> = Vec::new();
    let mut i: usize = 0;
    while i < ids.len()
        invariant
            i <= ids.len(),
            views == all_quoted(qdrant_types::id_texts(ids@)),
            text::texts(lits@) == views.take(i as int),
        decreases ids.len() - i,
    {
        let ghost before = lits@;
        let id: String = ids[i].as_string();
        let lit: String = sql::sql_string(id.as_str());
        lits.push(lit);
        proof {
            assert(text::texts(lits@) =~= text::texts(before).push(lit@));
            assert(qdrant_types::id_texts(ids@)[i as int] == ids@[i as int].spec_text());
            assert(views[i as int] == lit@);
            assert(views.take(i + 1) =~= views.take(i as int).push(lit@));
        }
        i = i + 1;
    }
    assert(views.take(i as int) =~= views);
    let list: String = text::join(&lits, ", ");
    let mut f: String = "_id IN (".to_owned();
    f.append(list.as_str());
    f.append(")");
    f
}

/// The literals of values.
pub open spec fn literals_of(values: Seq<JsonValue>) -> Seq<Seq<char>> {
    values.map_values(|v: JsonValue| literal_of(v@))
}

/// The condition that a field has one of the values.
pub open spec fn match_sql(key: Seq<char>, m: MatchCondition) -> Seq<char> {
    match m {
        MatchCondition::Value { value } => key + " = "@ + literal_of(value@),
        MatchCondition::Any { any } => key + " IN ("@ + text::joined(literals_of(any@), ", "@)
            + ")"@,
        MatchCondition::Text { text: t } => key + " = "@ + sql::quoted(t@),
    }
}

fn match_to_sql(key: &str, m: &MatchCondition) -> (r: String)
    ensures
        r@ == match_sql(key@, *m),
{
    let mut part: String = key.to_owned();
    match m {
        MatchCondition::Value { value } => {
            part.append(" = ");
            part.append(sql_literal(value).as_str());
        },
        MatchCondition::Any { any } => {
            let ghost views = literals_of(any@);
            let mut lits: Vec<String> = Vec::new();
            let mut i: usize = 0;
            while i < any.len()
                invariant
                    i <= any.len(),
                    views == literals_of(any@),
                    text::texts(lits@) == views.take(i as int),
                decreases any.len() - i,
            {
                let ghost before = lits@;
                let lit: String = sql_literal(&any[i]);
                lits.push(lit);
                proof {
                    assert(text::texts(lits@) =~= text::texts(before).push(lit@));
                    assert(views[i as int] == lit@);
                    assert(views.take(i + 1) =~= views.take(i as int).push(lit@));
                }
                i = i + 1;
            }
            assert(views.take(i as int) =~= views);
            part.append(" IN (");
            part.append(text::join(&lits, ", ").as_str());
            part.append(")");
        },
        MatchCondition::Text { text: t } => {
            part.append(" = ");
            part.append(sql::sql_string(t.as_str()).as_str());
        },
    }
    part
}

/// The condition of one bound, where there is one.
pub open spec fn bound_sql(key: Seq<char>, operator: Seq<char>, bound: Option<String>) -> Seq<
    Seq<char>,
> {
    match bound {
        Some(v) => seq![key + operator + v@],
        None => Seq::empty(),
    }
}

/// The condition on the values, where there is one.
pub open spec fn match_part(key: Seq<char>, m: Option<MatchCondition>) -> Seq<Seq<char>> {
    match m {
        Some(m) => seq![match_sql(key, m)],
        None => Seq::empty(),
    }
}

/// The parts of a condition on a field.
pub open spec fn field_parts(fc: FieldCondition) -> Seq<Seq<char>> {
    let key = fc.key@;
    match_part(key, fc.match_) + match fc.range {
        Some(r) => bound_sql(key, " > "@, r.gt) + bound_sql(key, " >= "@, r.gte) + bound_sql(
            key,
            " < "@,
            r.lt,
        ) + bound_sql(key, " <= "@, r.lte),
        None => Seq::empty(),
    }
}

/// A condition on a field as SQL, or what is wrong with it.
pub open spec fn field_sql(fc: FieldCondition) -> Result<Seq<char>, Seq<char>> {
    if !sql::is_field_name(fc.key@) {
        Err("invalid field name '"@ + fc.key@ + "'"@)
    } else if field_parts(fc).len() == 0 {
        Err("condition on '"@ + fc.key@ + "' has neither 'match' nor 'range'"@)
    } else {
        Ok(text::joined(field_parts(fc), " AND "@))
    }
}

fn push_bound(parts: &mut Vec<String>, key: &str, operator: &str, bound: &Option<String>)
    ensures
        text::texts(final(parts)@) == text::texts(old(parts)@) + bound_sql(
            key@,
            operator@,
            *bound,
        ),
{
    match bound {
        Some(v) => {
            let ghost before = parts@;
            let mut part: String = key.to_owned();
            part.append(operator);
            part.append(v.as_str());
            parts.push(part);
            assert(text::texts(parts@) =~= text::texts(before).push(part@));
            assert(text::texts(parts@) =~= text::texts(before) + seq![part@]);
        },
        None => {
            assert(text::texts(parts@) =~= text::texts(parts@) + Seq::<Seq<char>>::empty());
        },
    }
}

/// A text or an error agrees with what is specified of it; errors of filters
/// are bad requests.
pub open spec fn agrees(r: Result<String, QErr>, s: Result<Seq<char>, Seq<char>>) -> bool {
    match (r, s) {
        (Ok(a), Ok(b)) => a@ == b,
        (Err(a), Err(b)) => a.msg@ == b && a.status == ErrorStatus::BadRequest,
        _ => false,
    }
}

/// A condition on a field as SQL.
pub fn field_condition_to_sql(fc: &FieldCondition) -> (r: Result<String, QErr>)
    ensures
        agrees(r, field_sql(*fc)),
{
    let key: &str = fc.key.as_str();
    if !sql::valid_field(key) {
        let mut m: String = "invalid field name '".to_owned();
        m.append(key);
        m.append("'");
        return Err(QErr::bad(m));
    }
    let mut parts: Vec<String> = Vec::new();
    let ghost first = match_part(key@, fc.match_);
    match &fc.match_ {
        Some(m) => {
            let part: String = match_to_sql(key, m);
            parts.push(part);
        },
        None => {},
    }
    assert(text::texts(parts@) =~= first);
    match &fc.range {
        Some(range) => {
            push_bound(&mut parts, key, " > ", &range.gt);
            push_bound(&mut parts, key, " >= ", &range.gte);
            push_bound(&mut parts, key, " < ", &range.lt);
            push_bound(&mut parts, key, " <= ", &range.lte);
            assert(text::texts(parts@) =~= field_parts(*fc));
        },
        None => {
            assert(text::texts(parts@) =~= field_parts(*fc));
        },
    }
    assert(text::texts(parts@).len() == parts.len());
    if parts.len() == 0 {
        let mut m: String = "condition on '".to_owned();
        m.append(key);
        m.append("' has neither 'match' nor 'range'");
        return Err(QErr::bad(m));
    }
    Ok(text::join(&parts, " AND "))
}

/// The first error among results, or all the texts.
pub open spec fn all_or_error(results: Seq<Result<Seq<char>, Seq<char>>>) -> Result<
    Seq<Seq<char>>,
    Seq<char>,
>
    decreases results.len(),
{
    if results.len() == 0 {
        Ok(Seq::empty())
    } else {
        match (all_or_error(results.drop_last()), results.last()) {
            (Err(e), _) => Err(e),
            (Ok(ts), Ok(t)) => Ok(ts.push(t)),
            (Ok(_), Err(e)) => Err(e),
        }
    }
}

/// Each text with `NOT` before it.
pub open spec fn negated(parts: Seq<Seq<char>>) -> Seq<Seq<char>> {
    parts.map_values(|p: Seq<char>| "NOT ("@ + p + ")"@)
}

/// The texts of conditions any of which is enough, as one.
pub open spec fn any_of(parts: Seq<Seq<char>>) -> Seq<Seq<char>> {
    if parts.len() == 0 {
        Seq::empty()
    } else {
        seq!["("@ + text::joined(parts, " OR "@) + ")"@]
    }
}

/// The parts of a filter, given those of its three lists: the first error
/// counts.
pub open spec fn combine(
    must: Result<Seq<Seq<char>>, Seq<char>>,
    should: Result<Seq<Seq<char>>, Seq<char>>,
    must_not: Result<Seq<Seq<char>>, Seq<char>>,
) -> Result<Option<Seq<char>>, Seq<char>> {
    match (must, should, must_not) {
        (Err(e), _, _) => Err(e),
        (Ok(_), Err(e), _) => Err(e),
        (Ok(_), Ok(_), Err(e)) => Err(e),
        (Ok(m), Ok(s), Ok(n)) => {
            let parts = m + any_of(s) + negated(n);
            if parts.len() == 0 {
                Ok(None)
            } else {
                Ok(Some(text::joined(parts, " AND "@)))
            }
        },
    }
}

/// A condition as SQL, or what is wrong with it. An empty filter is always met.
pub open spec fn condition_sql(c: Condition) -> Result<Seq<char>, Seq<char>>
    decreases c,
{
    match c {
        Condition::Field(fc) => field_sql(fc),
        Condition::HasId { has_id } => Ok(ids_sql(has_id@)),
        Condition::Filter(f) => match filter_sql(*f) {
            Ok(Some(s)) => Ok(s),
            Ok(None) => Ok("true"@),
            Err(e) => Err(e),
        },
    }
}

/// Each of the conditions as SQL.
pub open spec fn results_of(v: Seq<Condition>) -> Seq<Result<Seq<char>, Seq<char>>>
    decreases v,
{
    Seq::new(
        v.len(),
        |i: int|
            if 0 <= i < v.len() {
                condition_sql(v[i])
            } else {
                Ok(Seq::empty())
            },
    )
}

/// The conditions of a list as SQL.
pub open spec fn list_sql(l: Option<ConditionList>) -> Result<Seq<Seq<char>>, Seq<char>>
    decreases l,
{
    match l {
        None => Ok(Seq::empty()),
        Some(ConditionList::One(c)) => match condition_sql(*c) {
            Ok(t) => Ok(seq![t]),
            Err(e) => Err(e),
        },
        Some(ConditionList::Many(v)) => all_or_error(results_of(v@)),
    }
}

/// A filter as SQL; none where it has no condition.
pub open spec fn filter_sql(f: Filter) -> Result<Option<Seq<char>>, Seq<char>>
    decreases f,
{
    combine(list_sql(f.must), list_sql(f.should), list_sql(f.must_not))
}

/// A condition as SQL.
pub fn condition_to_sql(cond: &Condition) -> (r: Result<String, QErr>)
    ensures
        agrees(r, condition_sql(*cond)),
    decreases *cond,
{
    match cond {
        Condition::Field(fc) => field_condition_to_sql(fc),
        Condition::HasId { has_id } => Ok(ids_filter(has_id)),
        Condition::Filter(f) => match filter_to_sql(f) {
            Ok(Some(s)) => Ok(s),
            Ok(None) => Ok("true".to_owned()),
            Err(e) => Err(e),
        },
    }
}

fn list_to_sql(l: &Option<ConditionList>) -> (r: Result<Vec<String>, QErr>)
    ensures
        match (r, list_sql(*l)) {
            (Ok(a), Ok(b)) => text::texts(a@) == b,
            (Err(a), Err(b)) => a.msg@ == b && a.status == ErrorStatus::BadRequest,
            _ => false,
        },
    decreases *l,
{
    let mut parts: Vec<String> = Vec::new();
    match l {
        None => {
            assert(text::texts(parts@) =~= Seq::<Seq<char>>::empty());
        },
        Some(ConditionList::One(c)) => {
            match condition_to_sql(c) {
                Ok(t) => {
                    parts.push(t);
                    assert(text::texts(parts@) =~= seq![t@]);
                },
                Err(e) => {
                    return Err(e);
                },
            }
        },
        Some(ConditionList::Many(v)) => {
            let ghost results = results_of(v@);
            let mut i: usize = 0;
            assert(results.take(0) =~= Seq::<Result<Seq<char>, Seq<char>>>::empty());
            assert(text::texts(parts@) =~= Seq::<Seq<char>>::empty());
            assert(decreases_to!(*l => v@));
            while i < v.len()
                invariant
                    i <= v.len(),
                    decreases_to!(*l => v@),
                    results.len() == v@.len(),
                    forall|k: int| 0 <= k < v@.len() ==> #[trigger] results[k]
                        == condition_sql(v@[k]),
                    list_sql(*l) == all_or_error(results),
                    all_or_error(results.take(i as int)) == Ok::<Seq<Seq<char>>, Seq<char>>(
                        text::texts(parts@),
                    ),
                decreases v.len() - i,
            {
                proof {
                    assert(results.take(i + 1).drop_last() =~= results.take(i as int));
                    assert(results.take(i + 1).last() == results[i as int]);
                }
                assert(decreases_to!(v@ => v@[i as int]));
                match condition_to_sql(&v[i]) {
                    Ok(t) => {
                        let ghost before = parts@;
                        parts.push(t);
                        assert(text::texts(parts@) =~= text::texts(before).push(t@));
                    },
                    Err(e) => {
                        proof {
                            lemma_first_error(results, i + 1);
                        }
                        return Err(e);
                    },
                }
                i = i + 1;
            }
            assert(results.take(i as int) =~= results);
        },
    }
    Ok(parts)
}

proof fn lemma_first_error(results: Seq<Result<Seq<char>, Seq<char>>>, n: int)
    requires
        0 <= n <= results.len(),
        all_or_error(results.take(n)) is Err,
    ensures
        all_or_error(results) == all_or_error(results.take(n)),
    decreases results.len(),
{
    if n == results.len() {
        assert(results.take(n) =~= results);
    } else {
        assert(results.drop_last().take(n) =~= results.take(n));
        lemma_first_error(results.drop_last(), n);
    }
}

/// A filter as SQL; none where it has no condition.
pub fn filter_to_sql(filter: &Filter) -> (r: Result<Option<String>, QErr>)
    ensures
        match (r, filter_sql(*filter)) {
            (Ok(Some(a)), Ok(Some(b))) => a@ == b,
            (Ok(None), Ok(None)) => true,
            (Err(a), Err(b)) => a.msg@ == b && a.status == ErrorStatus::BadRequest,
            _ => false,
        },
    decreases *filter,
{
    let mut parts: Vec<String> = match list_to_sql(&filter.must) {
        Ok(p) => p,
        Err(e) => {
            return Err(e);
        },
    };
    let ghost must = text::texts(parts@);
    let should: Vec<String> = match list_to_sql(&filter.should) {
        Ok(p) => p,
        Err(e) => {
            return Err(e);
        },
    };
    assert(text::texts(should@).len() == should.len());
    if should.len() > 0 {
        let mut part: String = "(".to_owned();
        part.append(text::join(&should, " OR ").as_str());
        part.append(")");
        parts.push(part);
        assert(text::texts(parts@) =~= must + seq![part@]);
    }
    assert(text::texts(parts@) =~= must + any_of(text::texts(should@)));
    let ghost mid = text::texts(parts@);
    let none_of: Vec<String> = match list_to_sql(&filter.must_not) {
        Ok(p) => p,
        Err(e) => {
            return Err(e);
        },
    };
    let ghost ns = text::texts(none_of@);
    let mut i: usize = 0;
    assert(mid + negated(ns.take(0)) =~= mid);
    while i < none_of.len()
        invariant
            i <= none_of.len(),
            ns == text::texts(none_of@),
            text::texts(parts@) == mid + negated(ns.take(i as int)),
        decreases none_of.len() - i,
    {
        let mut part: String = "NOT (".to_owned();
        part.append(none_of[i].as_str());
        part.append(")");
        let ghost before = parts@;
        parts.push(part);
        proof {
            assert(text::texts(parts@) =~= text::texts(before).push(part@));
            assert(ns[i as int] == none_of@[i as int]@);
            assert(negated(ns.take(i + 1)) =~= negated(ns.take(i as int)).push(part@));
        }
        i = i + 1;
    }
    assert(ns.take(i as int) =~= ns);
    assert(text::texts(parts@).len() == parts.len());
    if parts.len() == 0 {
        Ok(None)
    } else {
        Ok(Some(text::join(&parts, " AND ")))
    }
}

/// The points that a change is about: those listed, else those of the filter.
pub open spec fn selection_sql(points: Option<Vec<PointId>>, filter: Option<Filter>) -> Result<
    Option<Seq<char>>,
    Seq<char>,
> {
    match (points, filter) {
        (Some(ids), _) if ids@.len() > 0 => Ok(Some(ids_sql(ids@))),
        (_, Some(f)) => filter_sql(f),
        _ => Err("either 'points' or 'filter' must be provided"@),
    }
}

/// The condition on the points that a change is about.
pub fn selector_filter(points: &Option<Vec<PointId>>, filter: &Option<Filter>) -> (r: Result<
    Option<String>,
    QErr,
>)
    ensures
        match (r, selection_sql(*points, *filter)) {
            (Ok(Some(a)), Ok(Some(b))) => a@ == b,
            (Ok(None), Ok(None)) => true,
            (Err(a), Err(b)) => a.msg@ == b && a.status == ErrorStatus::BadRequest,
            _ => false,
        },
{
    match points {
        Some(ids) => {
            if ids.len() > 0 {
                return Ok(Some(ids_filter(ids)));
            }
        },
        None => {},
    }
    match filter {
        Some(f) => filter_to_sql(f),
        None => Err(QErr::bad("either 'points' or 'filter' must be provided".to_owned())),
    }
}

// ---------------------------------------------------------------------------
// Stored rows
// ---------------------------------------------------------------------------

/// The identity that a text stands for: a number where it is one.
pub open spec fn id_of(s: Seq<char>) -> (bool, Seq<char>) {
    match text::number(s, u64::MAX as nat) {
        Some(n) => (true, text::decimal(n)),
        None => (false, s),
    }
}

/// What an identity is: whether it is a number, and its text.
pub open spec fn id_view(id: PointId) -> (bool, Seq<char>) {
    (id is Num, id.spec_text())
}

/// Reads the identity of a point.
pub fn parse_point_id(s: &str) -> (r: PointId)
    ensures
        id_view(r) == id_of(s@),
{
    match text::parse_u64(s) {
        Some(n) => PointId::Num(n),
        None => PointId::Uuid(s.to_owned()),
    }
}

/// The text of a numeric identity is read as that identity.
pub proof fn law_numeric_ids_read_back(n: u64)
    ensures
        id_of(PointId::Num(n).spec_text()) == id_view(PointId::Num(n)),
{
    text::law_decimal_reads_back(n as nat, u64::MAX as nat);
}

/// A row as it is stored: its identity, its vector, and all of its columns, each
/// where it is not null.
#[derive(Debug)]
pub struct StoredRow {
    pub id: Option<String>,
    pub vector: Option<Vec<u32>>,
    pub fields: Vec<(String, Option<JsonValue>)>,
}

/// The columns that are no payload.
pub open spec fn is_reserved(name: Seq<char>) -> bool {
    name == "_id"@ || name == "vector"@ || name == "distance"@
}

fn reserved(name: &str) -> (r: bool)
    ensures
        r == is_reserved(name@),
{
    text::same(name, "_id") || text::same(name, "vector") || text::same(name, "distance")
}

/// A column that a payload takes in.
pub open spec fn takes_in(with: WithPayload, field: (String, Option<JsonValue>)) -> bool {
    !is_reserved(field.0@) && with.keeps(field.0@) && field.1 is Some
}

/// The payload that columns come to.
pub open spec fn payload_of(
    fields: Seq<(String, Option<JsonValue>)>,
    with: WithPayload,
) -> Map<Seq<char>, JsonValue>
    decreases fields.len(),
{
    if fields.len() == 0 {
        Map::empty()
    } else {
        let before = payload_of(fields.drop_last(), with);
        if takes_in(with, fields.last()) {
            before.insert(fields.last().0@, fields.last().1->0)
        } else {
            before
        }
    }
}

/// The payload of a row: its columns but the reserved ones, as far as they are
/// asked for and not null.
pub fn payload_from_fields(fields: Vec<(String, Option<JsonValue>)>, with: &WithPayload) -> (r:
    Payload)
    ensures
        r.wf(),
        r@ == payload_of(fields@, *with),
{
    let ghost all = fields@;
    let mut payload: Payload = TextMap::new();
    assert(all.take(0) =~= Seq::<(String, Option<JsonValue>)>::empty());
    for field in it: fields
        invariant
            it.seq() == all,
            payload.wf(),
            payload@ == payload_of(all.take(it.index() as int), *with),
    {
        let ghost i = it.index() as int;
        assert(field == all[i]);
        assert(all.take(i + 1).drop_last() =~= all.take(i));
        let (name, value) = field;
        if !reserved(name.as_str()) && with.keep(name.as_str()) {
            match value {
                Some(v) => {
                    payload.insert(name, v);
                },
                None => {},
            }
        }
    }
    assert(all.take(all.len() as int) =~= all);
    payload
}

/// A stored row as a point that is returned.
pub open spec fn returns_row(
    p: RetrievedPoint,
    row: StoredRow,
    with: WithPayload,
    with_vector: bool,
) -> bool {
    &&& row.id matches Some(id) && id_view(p.id) == id_of(id@)
    &&& p.vector == if with_vector {
        row.vector
    } else {
        None
    }
    &&& match p.payload {
        Some(m) => with.is_enabled() && m.wf() && m@ == payload_of(row.fields@, with),
        None => !with.is_enabled(),
    }
}

/// The rows that have an identity, in their order.
pub open spec fn rows_with_id(rows: Seq<StoredRow>) -> Seq<StoredRow>
    decreases rows.len(),
{
    if rows.len() == 0 {
        Seq::empty()
    } else {
        let before = rows_with_id(rows.drop_last());
        if rows.last().id is Some {
            before.push(rows.last())
        } else {
            before
        }
    }
}

/// A stored row as a point; none where it has no identity.
fn row_to_point(row: StoredRow, with: &WithPayload, with_vector: bool) -> (r: Option<
    RetrievedPoint,
>)
    ensures
        match r {
            Some(p) => returns_row(p, row, *with, with_vector),
            None => row.id is None,
        },
{
    let StoredRow { id, vector, fields } = row;
    match id {
        Some(id) => {
            let payload: Option<Payload> = if with.enabled() {
                Some(payload_from_fields(fields, with))
            } else {
                None
            };
            let vector: Option<Vec<u32>> = if with_vector {
                vector
            } else {
                None
            };
            Some(RetrievedPoint { id: parse_point_id(id.as_str()), payload, vector })
        },
        None => None,
    }
}

/// The points of stored rows; rows without an identity are left out.
pub fn batch_to_retrieved(rows: Vec<StoredRow>, with: &WithPayload, with_vector: bool) -> (r: Vec<
    RetrievedPoint,
>)
    ensures
        r.len() == rows_with_id(rows@).len(),
        forall|k: int|
            0 <= k < r.len() ==> returns_row(
                #[trigger] r@[k],
                rows_with_id(rows@)[k],
                *with,
                with_vector,
            ),
{
    let ghost all = rows@;
    let mut points: Vec<RetrievedPoint> = Vec::new();
    assert(all.take(0) =~= Seq::<StoredRow>::empty());
    for row in it: rows
        invariant
            it.seq() == all,
            points.len() == rows_with_id(all.take(it.index() as int)).len(),
            forall|k: int|
                0 <= k < points.len() ==> returns_row(
                    #[trigger] points@[k],
                    rows_with_id(all.take(it.index() as int))[k],
                    *with,
                    with_vector,
                ),
    {
        let ghost i = it.index() as int;
        assert(row == all[i]);
        assert(all.take(i + 1).drop_last() =~= all.take(i));
        match row_to_point(row, with, with_vector) {
            Some(p) => {
                points.push(p);
            },
            None => {},
        }
    }
    assert(all.take(all.len() as int) =~= all);
    points
}

/// A stored row that a search found, and the bits of its score.
#[derive(Debug)]
pub struct FoundRow {
    pub row: StoredRow,
    pub score: u32,
}

/// A row that a search found as a point that is returned.
pub open spec fn returns_found(
    p: ScoredPoint,
    found: FoundRow,
    with: WithPayload,
    with_vector: bool,
) -> bool {
    &&& returns_row(
        RetrievedPoint { id: p.id, payload: p.payload, vector: p.vector },
        found.row,
        with,
        with_vector,
    )
    &&& p.score == found.score
    &&& p.version == 0
}

/// The rows found that have an identity, in their order.
pub open spec fn found_with_id(rows: Seq<FoundRow>) -> Seq<FoundRow>
    decreases rows.len(),
{
    if rows.len() == 0 {
        Seq::empty()
    } else {
        let before = found_with_id(rows.drop_last());
        if rows.last().row.id is Some {
            before.push(rows.last())
        } else {
            before
        }
    }
}

/// The points of rows that a search found; rows without an identity are left
/// out.
pub fn batch_to_scored(rows: Vec<FoundRow>, with: &WithPayload, with_vector: bool) -> (r: Vec<
    ScoredPoint,
>)
    ensures
        r.len() == found_with_id(rows@).len(),
        forall|k: int|
            0 <= k < r.len() ==> returns_found(
                #[trigger] r@[k],
                found_with_id(rows@)[k],
                *with,
                with_vector,
            ),
{
    let ghost all = rows@;
    let mut points: Vec<ScoredPoint> = Vec::new();
    assert(all.take(0) =~= Seq::<FoundRow>::empty());
    for found in it: rows
        invariant
            it.seq() == all,
            points.len() == found_with_id(all.take(it.index() as int)).len(),
            forall|k: int|
                0 <= k < points.len() ==> returns_found(
                    #[trigger] points@[k],
                    found_with_id(all.take(it.index() as int))[k],
                    *with,
                    with_vector,
                ),
    {
        let ghost i = it.index() as int;
        assert(found == all[i]);
        assert(all.take(i + 1).drop_last() =~= all.take(i));
        let ghost whole = found;
        let FoundRow { row, score } = found;
        match row_to_point(row, with, with_vector) {
            Some(p) => {
                let scored = ScoredPoint {
                    id: p.id,
                    version: 0,
                    score,
                    payload: p.payload,
                    vector: p.vector,
                };
                assert(returns_found(scored, whole, *with, with_vector));
                points.push(scored);
            },
            None => {},
        }
    }
    assert(all.take(all.len() as int) =~= all);
    points
}

/// The points that were asked for: all where none is named.
pub fn keep_wanted(points: Vec<RetrievedPoint>, ids: &Vec<PointId>) -> (r: Vec<RetrievedPoint>)
    ensures
        r@ == wanted_points(points@, qdrant_types::id_texts(ids@)),
{
    let ghost all = points@;
    let ghost texts = qdrant_types::id_texts(ids@);
    let mut names: Vec<String> = Vec::new();
    let mut k: usize = 0;
    while k < ids.len()
        invariant
            k <= ids.len(),
            texts == qdrant_types::id_texts(ids@),
            text::texts(names@) == texts.take(k as int),
        decreases ids.len() - k,
    {
        let ghost before = names@;
        let name: String = ids[k].as_string();
        names.push(name);
        proof {
            assert(text::texts(names@) =~= text::texts(before).push(name@));
            assert(texts[k as int] == name@);
            assert(texts.take(k + 1) =~= texts.take(k as int).push(name@));
        }
        k = k + 1;
    }
    assert(texts.take(k as int) =~= texts);
    let mut kept: Vec<RetrievedPoint> = Vec::new();
    assert(all.take(0) =~= Seq::<RetrievedPoint>::empty());
    for p in it: points
        invariant
            it.seq() == all,
            text::texts(names@) == texts,
            names.len() == texts.len(),
            kept@ == wanted_points(all.take(it.index() as int), texts),
    {
        let ghost i = it.index() as int;
        assert(p == all[i]);
        assert(all.take(i + 1).drop_last() =~= all.take(i));
        let id: String = p.id.as_string();
        if names.len() == 0 || text::list_has(&names, id.as_str()) {
            kept.push(p);
        }
    }
    assert(all.take(all.len() as int) =~= all);
    kept
}

/// The points among those named, in their order; all where none is named.
pub open spec fn wanted_points(points: Seq<RetrievedPoint>, ids: Seq<Seq<char>>) -> Seq<
    RetrievedPoint,
>
    decreases points.len(),
{
    if points.len() == 0 {
        Seq::empty()
    } else {
        let before = wanted_points(points.drop_last(), ids);
        if ids.len() == 0 || ids.contains(points.last().id.spec_text()) {
            before.push(points.last())
        } else {
            before
        }
    }
}

// ---------------------------------------------------------------------------
// Changes of payloads
// ---------------------------------------------------------------------------

/// A change of payloads.
#[derive(Debug)]
pub enum PayloadOp {
    /// The fields are set, others are kept.
    Merge(Payload),
    /// The fields take the place of all others.
    Overwrite(Payload),
    /// Fields are removed.
    DeleteKeys(Vec<String>),
    /// All fields are removed.
    Clear,
}

impl PayloadOp {
    /// A payload in the change holds no field twice.
    pub open spec fn wf(self) -> bool {
        match self {
            PayloadOp::Merge(p) => p.wf(),
            PayloadOp::Overwrite(p) => p.wf(),
            _ => true,
        }
    }

    /// What a payload is changed to.
    pub open spec fn changed(self, before: Map<Seq<char>, qdrant_types::JsonView>) -> Map<
        Seq<char>,
        qdrant_types::JsonView,
    > {
        match self {
            PayloadOp::Merge(new) => before.union_prefer_right(
                qdrant_types::payload_view(new@),
            ),
            PayloadOp::Overwrite(new) => qdrant_types::payload_view(new@),
            PayloadOp::DeleteKeys(keys) => Map::new(
                |k: Seq<char>| before.dom().contains(k) && !text::texts(keys@).contains(k),
                |k: Seq<char>| before[k],
            ),
            PayloadOp::Clear => Map::empty(),
        }
    }

    /// Changes a payload.
    pub fn apply(&self, payload: Payload) -> (r: Payload)
        requires
            self.wf(),
            payload.wf(),
        ensures
            r.wf(),
            qdrant_types::payload_view(r@) == self.changed(
                qdrant_types::payload_view(payload@),
            ),
    {
        match self {
            PayloadOp::Merge(new) => set_fields(payload, new),
            PayloadOp::Overwrite(new) => {
                let r: Payload = set_fields(TextMap::new(), new);
                proof {
                    let empty = Map::<Seq<char>, JsonValue>::empty();
                    assert(qdrant_types::payload_view(empty).union_prefer_right(
                        qdrant_types::payload_view(new@),
                    ) =~= qdrant_types::payload_view(new@));
                }
                r
            },
            PayloadOp::DeleteKeys(keys) => remove_fields(payload, keys),
            PayloadOp::Clear => {
                let r: Payload = TextMap::new();
                assert(qdrant_types::payload_view(r@) =~= Map::<
                    Seq<char>,
                    qdrant_types::JsonView,
                >::empty());
                r
            },
        }
    }
}

/// What the first `n` items of a list come to, laid over a payload.
spec fn laid_over(
    before: Map<Seq<char>, qdrant_types::JsonView>,
    items: Seq<(String, JsonValue)>,
    n: int,
) -> Map<Seq<char>, qdrant_types::JsonView>
    decreases n,
{
    if n <= 0 {
        before
    } else {
        laid_over(before, items, n - 1).insert(items[n - 1].0@, items[n - 1].1@)
    }
}

proof fn lemma_laid_over(
    before: Map<Seq<char>, qdrant_types::JsonView>,
    items: Seq<(String, JsonValue)>,
    n: int,
)
    requires
        textmap::keys_distinct(items),
        0 <= n <= items.len(),
    ensures
        laid_over(before, items, n) == before.union_prefer_right(
            qdrant_types::payload_view(textmap::map_of(items.take(n))),
        ),
    decreases n,
{
    let now = qdrant_types::payload_view(textmap::map_of(items.take(n)));
    if n == 0 {
        assert(textmap::map_of(items.take(0)) =~= Map::<Seq<char>, JsonValue>::empty());
        assert(before.union_prefer_right(now) =~= before);
    } else {
        lemma_laid_over(before, items, n - 1);
        let front = items.take(n - 1);
        let all = items.take(n);
        let key = items[n - 1].0@;
        let was = qdrant_types::payload_view(textmap::map_of(front));
        assert forall|k: Seq<char>| #[trigger] textmap::map_of(all).dom().contains(k) <==> (
        textmap::map_of(front).dom().contains(k) || k == key) by {
            if textmap::map_of(front).dom().contains(k) {
                let j = choose|j: int| textmap::holds_at(front, k, j);
                assert(textmap::holds_at(all, k, j));
            }
            if k == key {
                assert(textmap::holds_at(all, k, n - 1));
            }
            if textmap::map_of(all).dom().contains(k) {
                let j = choose|j: int| textmap::holds_at(all, k, j);
                if j < n - 1 {
                    assert(textmap::holds_at(front, k, j));
                }
            }
        }
        assert(textmap::keys_distinct(all)) by {
            assert forall|a: int, b: int|
                #![trigger all[a], all[b]]
                0 <= a < b < all.len() implies all[a].0@ != all[b].0@ by {
                assert(all[a] == items[a] && all[b] == items[b]);
            }
        }
        assert(textmap::keys_distinct(front)) by {
            assert forall|a: int, b: int|
                #![trigger front[a], front[b]]
                0 <= a < b < front.len() implies front[a].0@ != front[b].0@ by {
                assert(front[a] == items[a] && front[b] == items[b]);
            }
        }
        textmap::lemma_holds_at(all, key, n - 1);
        assert forall|k: Seq<char>| textmap::map_of(front).dom().contains(k) implies
            textmap::map_of(all)[k] == #[trigger] textmap::map_of(front)[k] by {
            let j = choose|j: int| textmap::holds_at(front, k, j);
            textmap::lemma_holds_at(front, k, j);
            assert(textmap::holds_at(all, k, j));
            textmap::lemma_holds_at(all, k, j);
        }
        assert(now =~= was.insert(key, items[n - 1].1@)) by {
            if textmap::map_of(front).dom().contains(key) {
                let j = choose|j: int| textmap::holds_at(front, key, j);
                assert(items[j].0@ == items[n - 1].0@);
            }
        }
        assert(before.union_prefer_right(now) =~= before.union_prefer_right(was).insert(
            key,
            items[n - 1].1@,
        ));
    }
}

fn set_fields(payload: Payload, new: &Payload) -> (r: Payload)
    requires
        payload.wf(),
        new.wf(),
    ensures
        r.wf(),
        qdrant_types::payload_view(r@) == qdrant_types::payload_view(
            payload@,
        ).union_prefer_right(qdrant_types::payload_view(new@)),
{
    let ghost before = qdrant_types::payload_view(payload@);
    let mut r: Payload = payload;
    let mut i: usize = 0;
    while i < new.items.len()
        invariant
            i <= new.items.len(),
            r.wf(),
            new.wf(),
            qdrant_types::payload_view(r@) == laid_over(before, new.items@, i as int),
        decreases new.items.len() - i,
    {
        let ghost m = r@;
        let key: String = new.items[i].0.clone();
        let ghost k = key@;
        let value: JsonValue = new.items[i].1.copy();
        r.insert(key, value);
        assert(qdrant_types::payload_view(r@) =~= qdrant_types::payload_view(m).insert(
            k,
            value@,
        ));
        i = i + 1;
    }
    proof {
        lemma_laid_over(before, new.items@, i as int);
        assert(new.items@.take(i as int) =~= new.items@);
    }
    r
}

fn remove_fields(payload: Payload, keys: &Vec<String>) -> (r: Payload)
    requires
        payload.wf(),
    ensures
        r.wf(),
        qdrant_types::payload_view(r@) == PayloadOp::DeleteKeys(*keys).changed(
            qdrant_types::payload_view(payload@),
        ),
{
    let ghost before = payload@;
    let ghost names = text::texts(keys@);
    let mut r: Payload = payload;
    let mut i: usize = 0;
    while i < keys.len()
        invariant
            i <= keys.len(),
            r.wf(),
            names == text::texts(keys@),
            forall|k: Seq<char>| #[trigger]
                r@.dom().contains(k) <==> before.dom().contains(k) && !names.take(
                    i as int,
                ).contains(k),
            forall|k: Seq<char>| #[trigger] r@.dom().contains(k) ==> r@[k] == before[k],
        decreases keys.len() - i,
    {
        let ghost m = r@;
        let _ = r.remove(keys[i].as_str());
        proof {
            let done = names.take(i as int);
            let next = names.take(i + 1);
            assert(names[i as int] == keys@[i as int]@);
            assert forall|k: Seq<char>| #[trigger] next.contains(k) <==> done.contains(k) || k
                == keys@[i as int]@ by {
                if done.contains(k) {
                    let a = choose|a: int| 0 <= a < done.len() && done[a] == k;
                    assert(next[a] == k);
                }
                if k == keys@[i as int]@ {
                    assert(next[i as int] == k);
                }
                if next.contains(k) {
                    let a = choose|a: int| 0 <= a < next.len() && next[a] == k;
                    if a < i {
                        assert(done[a] == k);
                    }
                }
            }
            assert forall|k: Seq<char>| #[trigger] r@.dom().contains(k) implies r@[k]
                == before[k] by {
                assert(m.dom().contains(k));
            }
        }
        i = i + 1;
    }
    proof {
        assert(names.take(i as int) =~= names);
        assert(qdrant_types::payload_view(r@) =~= PayloadOp::DeleteKeys(*keys).changed(
            qdrant_types::payload_view(before),
        ));
    }
    r
}

/// Setting fields gives them their values and keeps all others; setting them
/// once more changes nothing.
pub proof fn law_set_payload(
    new: Payload,
    before: Map<Seq<char>, qdrant_types::JsonView>,
    field: Seq<char>,
)
    ensures
        ({
            let set = qdrant_types::payload_view(new@);
            let after = PayloadOp::Merge(new).changed(before);
            &&& set.dom().contains(field) ==> after.dom().contains(field) && after[field]
                == set[field]
            &&& !set.dom().contains(field) ==> (after.dom().contains(field)
                <==> before.dom().contains(field))
            &&& !set.dom().contains(field) && before.dom().contains(field) ==> after[field]
                == before[field]
            &&& PayloadOp::Merge(new).changed(after) == after
        }),
{
    let after = PayloadOp::Merge(new).changed(before);
    assert(PayloadOp::Merge(new).changed(after) =~= after);
}

/// A removed field is gone, all others are kept.
pub proof fn law_delete_payload(
    keys: Vec<String>,
    before: Map<Seq<char>, qdrant_types::JsonView>,
    field: Seq<char>,
)
    ensures
        ({
            let after = PayloadOp::DeleteKeys(keys).changed(before);
            let removed = text::texts(keys@).contains(field);
            &&& removed ==> !after.dom().contains(field)
            &&& !removed ==> (after.dom().contains(field) <==> before.dom().contains(field))
            &&& !removed && before.dom().contains(field) ==> after[field] == before[field]
        }),
{
}

/// A point that is read to be changed: the text of its identity, its vector and
/// its whole payload.
#[derive(Debug)]
pub struct PointRow {
    pub id: String,
    pub vector: Option<Vec<u32>>,
    pub payload: Payload,
}

/// A stored row as a point that is changed.
pub open spec fn reads_row(p: PointRow, row: StoredRow) -> bool {
    &&& row.id == Some(p.id)
    &&& p.vector == row.vector
    &&& p.payload.wf()
    &&& p.payload@ == payload_of(row.fields@, WithPayload::Bool(true))
}

/// The stored rows with an identity, as points that are changed.
pub fn point_rows(rows: Vec<StoredRow>) -> (r: Vec<PointRow>)
    ensures
        r.len() == rows_with_id(rows@).len(),
        forall|k: int|
            0 <= k < r.len() ==> reads_row(#[trigger] r@[k], rows_with_id(rows@)[k]),
{
    let ghost all = rows@;
    let every = WithPayload::Bool(true);
    let mut points: Vec<PointRow> = Vec::new();
    assert(all.take(0) =~= Seq::<StoredRow>::empty());
    for row in it: rows
        invariant
            it.seq() == all,
            every == WithPayload::Bool(true),
            points.len() == rows_with_id(all.take(it.index() as int)).len(),
            forall|k: int|
                0 <= k < points.len() ==> reads_row(
                    #[trigger] points@[k],
                    rows_with_id(all.take(it.index() as int))[k],
                ),
    {
        let ghost i = it.index() as int;
        assert(row == all[i]);
        assert(all.take(i + 1).drop_last() =~= all.take(i));
        let ghost stored = row;
        let StoredRow { id, vector, fields } = row;
        match id {
            Some(id) => {
                let p = PointRow { id, vector, payload: payload_from_fields(fields, &every) };
                assert(reads_row(p, stored));
                points.push(p);
            },
            None => {},
        }
    }
    assert(all.take(all.len() as int) =~= all);
    points
}

/// A point that is written in place of one that was read: the same identity and
/// vector, and the changed payload.
pub open spec fn rewrites(p: PointStruct, row: PointRow, op: PayloadOp) -> bool {
    &&& id_view(p.id) == id_of(row.id@)
    &&& match (p.vector, row.vector) {
        (Some(VectorInput::Single(a)), Some(b)) => a == b,
        (None, None) => true,
        _ => false,
    }
    &&& p.payload matches Some(m) && m.wf() && qdrant_types::payload_view(m@) == op.changed(
        qdrant_types::payload_view(row.payload@),
    )
}

/// The points that are written to change payloads.
pub fn change_payloads(rows: Vec<PointRow>, op: &PayloadOp) -> (r: Vec<PointStruct>)
    requires
        op.wf(),
        forall|k: int| 0 <= k < rows.len() ==> (#[trigger] rows@[k]).payload.wf(),
    ensures
        r.len() == rows.len(),
        forall|k: int| 0 <= k < r.len() ==> rewrites(#[trigger] r@[k], rows@[k], *op),
{
    let ghost all = rows@;
    let mut points: Vec<PointStruct> = Vec::new();
    for row in it: rows
        invariant
            it.seq() == all,
            op.wf(),
            forall|k: int| 0 <= k < all.len() ==> (#[trigger] all[k]).payload.wf(),
            points.len() == it.index(),
            forall|k: int| 0 <= k < points.len() ==> rewrites(#[trigger] points@[k], all[k], *op),
    {
        let ghost i = it.index() as int;
        assert(row == all[i]);
        let ghost was = row;
        let id: PointId = parse_point_id(row.id.as_str());
        let vector: Option<VectorInput> = match row.vector {
            Some(v) => Some(VectorInput::Single(v)),
            None => None,
        };
        let payload: Payload = op.apply(row.payload);
        let p = PointStruct { id, vector, payload: Some(payload) };
        assert(rewrites(p, was, *op));
        points.push(p);
    }
    points
}

// ---------------------------------------------------------------------------
// Changes of vectors
// ---------------------------------------------------------------------------

fn take_primary(v: VectorInput) -> (r: Option<Vec<u32>>)
    ensures
        r == v.spec_primary(),
{
    match v {
        VectorInput::Single(x) => Some(x),
        VectorInput::Named(vs) => {
            if vs.len() == 0 {
                return None;
            }
            let mut found: Option<usize> = None;
            let mut i: usize = 0;
            let mut vs = vs;
            assert(vs@.take(0) =~= Seq::<(String, Vec<u32>)>::empty());
            while i < vs.len()
                invariant
                    i <= vs.len(),
                    match found {
                        Some(k) => k < i && qdrant_types::named_place(
                            vs@.take(i as int),
                            "vector"@,
                        ) == Some(k as int),
                        None => qdrant_types::named_place(vs@.take(i as int), "vector"@) is None,
                    },
                decreases vs.len() - i,
            {
                assert(vs@.take(i + 1).drop_last() =~= vs@.take(i as int));
                if found.is_none() && text::same(vs[i].0.as_str(), "vector") {
                    found = Some(i);
                }
                i = i + 1;
            }
            assert(vs@.take(i as int) =~= vs@);
            let at: usize = match found {
                Some(k) => k,
                None => 0,
            };
            let (_, x) = vs.remove(at);
            Some(x)
        },
    }
}

/// The payloads of rows by the texts of their identities; the last of an
/// identity counts.
pub open spec fn payloads_by_id(rows: Seq<PointRow>) -> Map<Seq<char>, Payload>
    decreases rows.len(),
{
    if rows.len() == 0 {
        Map::empty()
    } else {
        payloads_by_id(rows.drop_last()).insert(rows.last().id@, rows.last().payload)
    }
}

/// A point that is written with a new vector: its payload is the stored one,
/// and empty where none is stored.
pub open spec fn revectors(
    p: PointStruct,
    point: PointVectors,
    payloads: Map<Seq<char>, Payload>,
) -> bool {
    let id = point.id.spec_text();
    &&& p.id == point.id
    &&& match (p.vector, point.vector.spec_primary()) {
        (Some(VectorInput::Single(a)), Some(b)) => a == b,
        (None, None) => true,
        _ => false,
    }
    &&& p.payload matches Some(m) && m.wf() && qdrant_types::payload_view(m@)
        == if payloads.dom().contains(id) {
        qdrant_types::payload_view(payloads[id]@)
    } else {
        Map::<Seq<char>, qdrant_types::JsonView>::empty()
    }
}

/// The points that are written to change vectors: their payloads are kept.
pub fn change_vectors(points: Vec<PointVectors>, rows: Vec<PointRow>) -> (r: Vec<PointStruct>)
    requires
        forall|k: int| 0 <= k < rows.len() ==> (#[trigger] rows@[k]).payload.wf(),
    ensures
        r.len() == points.len(),
        forall|k: int|
            0 <= k < r.len() ==> revectors(#[trigger] r@[k], points@[k], payloads_by_id(rows@)),
{
    let ghost all_rows = rows@;
    let ghost all = points@;
    let ghost payloads = payloads_by_id(rows@);
    let mut stored: TextMap<Payload> = TextMap::new();
    assert(all_rows.take(0) =~= Seq::<PointRow>::empty());
    for row in it: rows
        invariant
            it.seq() == all_rows,
            forall|k: int| 0 <= k < all_rows.len() ==> (#[trigger] all_rows[k]).payload.wf(),
            stored.wf(),
            stored@ == payloads_by_id(all_rows.take(it.index() as int)),
            forall|id: Seq<char>| #[trigger]
                stored@.dom().contains(id) ==> stored@[id].wf(),
    {
        let ghost i = it.index() as int;
        assert(row == all_rows[i]);
        assert(all_rows.take(i + 1).drop_last() =~= all_rows.take(i));
        stored.insert(row.id, row.payload);
    }
    assert(all_rows.take(all_rows.len() as int) =~= all_rows);
    let mut out: Vec<PointStruct> = Vec::new();
    for point in it: points
        invariant
            it.seq() == all,
            stored.wf(),
            stored@ == payloads,
            forall|id: Seq<char>| #[trigger]
                stored@.dom().contains(id) ==> stored@[id].wf(),
            out.len() == it.index(),
            forall|k: int|
                0 <= k < out.len() ==> revectors(#[trigger] out@[k], all[k], payloads),
    {
        let ghost i = it.index() as int;
        assert(point == all[i]);
        let id: String = point.id.as_string();
        let mut payload: Payload = TextMap::new();
        let ghost none = qdrant_types::payload_view(payload@);
        assert(none =~= Map::<Seq<char>, qdrant_types::JsonView>::empty());
        match stored.get(id.as_str()) {
            Some(kept) => {
                payload = set_fields(payload, kept);
                assert(none.union_prefer_right(qdrant_types::payload_view(kept@))
                    =~= qdrant_types::payload_view(kept@));
            },
            None => {},
        }
        let vector: Option<VectorInput> = match take_primary(point.vector) {
            Some(v) => Some(VectorInput::Single(v)),
            None => None,
        };
        let p = PointStruct { id: point.id, vector, payload: Some(payload) };
        assert(revectors(p, all[i], payloads));
        out.push(p);
    }
    out
}

// ---------------------------------------------------------------------------
// Documents
// ---------------------------------------------------------------------------

/// A column of a document that is written.
#[derive(Debug)]
pub enum DocValue {
    Text(String),
    Vector(Vec<u32>),
    Json(JsonValue),
}

/// A column of a document, by its texts.
pub ghost enum DocView {
    Text(Seq<char>),
    Vector(Seq<u32>),
    Json(qdrant_types::JsonView),
}

impl View for DocValue {
    type V = DocView;

    open spec fn view(&self) -> DocView {
        match *self {
            DocValue::Text(s) => DocView::Text(s@),
            DocValue::Vector(v) => DocView::Vector(v@),
            DocValue::Json(j) => DocView::Json(j@),
        }
    }
}

/// The columns of a document.
pub open spec fn doc_view(m: Map<Seq<char>, DocValue>) -> Map<Seq<char>, DocView> {
    m.map_values(|v: DocValue| v@)
}

/// Fields of a payload laid over a document; the identity and the vector are
/// not overwritten.
pub open spec fn with_fields(
    doc: Map<Seq<char>, DocView>,
    items: Seq<(String, JsonValue)>,
    n: int,
) -> Map<Seq<char>, DocView>
    decreases n,
{
    if n <= 0 {
        doc
    } else {
        let before = with_fields(doc, items, n - 1);
        let key = items[n - 1].0@;
        if key == "_id"@ || key == "vector"@ {
            before
        } else {
            before.insert(key, DocView::Json(items[n - 1].1@))
        }
    }
}

/// The document of a point: its identity, its vector where it has one, and the
/// fields of its payload.
pub open spec fn doc_of(p: PointStruct) -> Map<Seq<char>, DocView> {
    let base = Map::<Seq<char>, DocView>::empty().insert("_id"@, DocView::Text(p.id.spec_text()));
    let primary = match p.vector {
        Some(v) => v.spec_primary(),
        None => None,
    };
    let with_vector = match primary {
        Some(v) => base.insert("vector"@, DocView::Vector(v@)),
        None => base,
    };
    match p.payload {
        Some(m) => with_fields(with_vector, m.items@, m.items@.len() as int),
        None => with_vector,
    }
}

fn copy_bits(v: &Vec<u32>) -> (r: Vec<u32>)
    ensures
        r@ == v@,
{
    vstd::slice::slice_to_vec(v.as_slice())
}

/// The document of a point.
pub fn point_to_doc(p: &PointStruct) -> (r: TextMap<DocValue>)
    ensures
        r.wf(),
        doc_view(r@) == doc_of(*p),
{
    let mut doc: TextMap<DocValue> = TextMap::new();
    let ghost m0 = doc@;
    assert(doc_view(m0) =~= Map::<Seq<char>, DocView>::empty());
    let id = DocValue::Text(p.id.as_string());
    doc.insert("_id".to_owned(), id);
    assert(doc_view(doc@) =~= doc_view(m0).insert("_id"@, id@));
    match &p.vector {
        Some(v) => match v.primary() {
            Some(x) => {
                let ghost m = doc@;
                let value = DocValue::Vector(copy_bits(x));
                doc.insert("vector".to_owned(), value);
                assert(doc_view(doc@) =~= doc_view(m).insert("vector"@, value@));
            },
            None => {},
        },
        None => {},
    }
    let ghost base = doc_view(doc@);
    match &p.payload {
        Some(payload) => {
            let mut i: usize = 0;
            while i < payload.items.len()
                invariant
                    i <= payload.items.len(),
                    doc.wf(),
                    doc_view(doc@) == with_fields(base, payload.items@, i as int),
                decreases payload.items.len() - i,
            {
                let key: &str = payload.items[i].0.as_str();
                if !text::same(key, "_id") && !text::same(key, "vector") {
                    let ghost m = doc@;
                    let value = DocValue::Json(payload.items[i].1.copy());
                    doc.insert(key.to_owned(), value);
                    assert(doc_view(doc@) =~= doc_view(m).insert(key@, value@));
                }
                i = i + 1;
            }
        },
        None => {},
    }
    doc
}

/// No later point has the identity of a point.
pub open spec fn is_last_mention(points: Seq<PointStruct>, k: int) -> bool {
    forall|j: int|
        k < j < points.len() ==> (#[trigger] points[j]).id.spec_text()
            != points[k].id.spec_text()
}

/// Where, among the first `n` points, the last point of each identity stands.
pub open spec fn last_mentions(points: Seq<PointStruct>, n: int) -> Seq<int>
    decreases n,
{
    if n <= 0 {
        Seq::empty()
    } else if is_last_mention(points, n - 1) {
        last_mentions(points, n - 1).push(n - 1)
    } else {
        last_mentions(points, n - 1)
    }
}

/// Documents are those of the last points of their identities, in the order of the
/// points.
pub open spec fn documents_of(
    docs: Seq<TextMap<DocValue>>,
    points: Seq<PointStruct>,
    n: int,
) -> bool {
    let at = last_mentions(points, n);
    &&& docs.len() == at.len()
    &&& forall|k: int|
        0 <= k < docs.len() ==> (#[trigger] docs[k]).wf() && doc_view(docs[k]@) == doc_of(
            points[at[k]],
        )
}

/// Marks the last point of each identity.
fn mark_last_mentions(points: &Vec<PointStruct>) -> (r: Vec<bool>)
    ensures
        r.len() == points.len(),
        forall|k: int|
            0 <= k < points.len() ==> #[trigger] r@[k] == is_last_mention(points@, k),
{
    let n: usize = points.len();
    let mut backwards: Vec<String> = Vec::new();
    let mut i: usize = 0;
    while i < n
        invariant
            n == points.len(),
            i <= n,
            backwards.len() == i,
            forall|k: int|
                0 <= k < i ==> (#[trigger] backwards@[k])@ == points@[n - 1 - k].id.spec_text(),
        decreases n - i,
    {
        backwards.push(points[n - 1 - i].id.as_string());
        i = i + 1;
    }
    let fresh: Vec<bool> = text::first_occurrences(&backwards);
    let mut marks: Vec<bool> = Vec::new();
    i = 0;
    while i < n
        invariant
            n == points.len(),
            n == backwards.len(),
            n == fresh.len(),
            i <= n,
            forall|k: int|
                0 <= k < n ==> (#[trigger] backwards@[k])@ == points@[n - 1 - k].id.spec_text(),
            forall|k: int|
                0 <= k < n ==> #[trigger] fresh@[k] == !text::texts(backwards@).take(
                    k,
                ).contains(backwards@[k]@),
            marks.len() == i,
            forall|k: int| 0 <= k < i ==> #[trigger] marks@[k] == is_last_mention(points@, k),
        decreases n - i,
    {
        let mark: bool = fresh[n - 1 - i];
        proof {
            let at = n - 1 - i;
            let before = text::texts(backwards@).take(at);
            assert(backwards@[at]@ == points@[i as int].id.spec_text());
            if !mark {
                let k = choose|k: int| 0 <= k < before.len() && before[k] == backwards@[at]@;
                assert(before[k] == backwards@[k]@);
                assert(points@[n - 1 - k].id.spec_text() == points@[i as int].id.spec_text());
            } else {
                assert forall|j: int| i < j < n implies (#[trigger] points@[j]).id.spec_text()
                    != points@[i as int].id.spec_text() by {
                    assert(before[n - 1 - j] == backwards@[n - 1 - j]@);
                }
            }
        }
        marks.push(mark);
        i = i + 1;
    }
    marks
}

/// The documents of points: one for each identity, that of its last point.
pub fn points_to_docs(points: &Vec<PointStruct>) -> (r: Vec<TextMap<DocValue>>)
    ensures
        documents_of(r@, points@, points.len() as int),
{
    let marks: Vec<bool> = mark_last_mentions(points);
    let mut docs: Vec<TextMap<DocValue>> = Vec::new();
    let mut i: usize = 0;
    while i < points.len()
        invariant
            i <= points.len(),
            marks.len() == points.len(),
            forall|k: int|
                0 <= k < marks.len() ==> #[trigger] marks@[k] == is_last_mention(points@, k),
            documents_of(docs@, points@, i as int),
        decreases points.len() - i,
    {
        if marks[i] {
            docs.push(point_to_doc(&points[i]));
        }
        i = i + 1;
    }
    docs
}

proof fn lemma_last_mentions(points: Seq<PointStruct>, n: int)
    requires
        0 <= n <= points.len(),
    ensures
        forall|a: int|
            0 <= a < last_mentions(points, n).len() ==> 0 <= #[trigger] last_mentions(points, n)[a]
                < n && is_last_mention(points, last_mentions(points, n)[a]),
        forall|a: int, b: int|
            0 <= a < b < last_mentions(points, n).len() ==> #[trigger] last_mentions(points, n)[a]
                < #[trigger] last_mentions(points, n)[b],
        forall|k: int|
            0 <= k < n && #[trigger] is_last_mention(points, k) ==> last_mentions(
                points,
                n,
            ).contains(k),
    decreases n,
{
    if n > 0 {
        lemma_last_mentions(points, n - 1);
        let before = last_mentions(points, n - 1);
        let now = last_mentions(points, n);
        assert forall|k: int| 0 <= k < n && #[trigger] is_last_mention(points, k) implies
            now.contains(k) by {
            if k == n - 1 {
                assert(now[now.len() - 1] == k);
            } else {
                let a = choose|a: int| 0 <= a < before.len() && before[a] == k;
                assert(now[a] == k);
            }
        }
    }
}

/// The last point with the identity of a point.
proof fn lemma_last_mention(points: Seq<PointStruct>, k: int) -> (last: int)
    requires
        0 <= k < points.len(),
    ensures
        k <= last < points.len(),
        points[last].id.spec_text() == points[k].id.spec_text(),
        is_last_mention(points, last),
    decreases points.len() - k,
{
    if is_last_mention(points, k) {
        k
    } else {
        let j = choose|j: int|
            k < j < points.len() && (#[trigger] points[j]).id.spec_text()
                == points[k].id.spec_text();
        lemma_last_mention(points, j)
    }
}

/// Points that are written together leave one document for each identity, that of
/// the last point with it: what the earlier ones said is replaced.
pub proof fn law_the_last_point_of_an_identity_counts(
    points: Seq<PointStruct>,
    docs: Seq<TextMap<DocValue>>,
    k: int,
)
    requires
        documents_of(docs, points, points.len() as int),
        0 <= k < points.len(),
        is_last_mention(points, k),
    ensures
        exists|d: int|
            0 <= d < docs.len() && doc_view((#[trigger] docs[d])@) == doc_of(points[k]) && forall|
                e: int,
            |
                0 <= e < docs.len() && e != d ==> doc_view((#[trigger] docs[e])@)["_id"@]
                    != DocView::Text(points[k].id.spec_text()),
{
    let at = last_mentions(points, points.len() as int);
    lemma_last_mentions(points, points.len() as int);
    let d = choose|d: int| 0 <= d < at.len() && at[d] == k;
    assert(doc_view(docs[d]@) == doc_of(points[k]));
    assert forall|e: int| 0 <= e < docs.len() && e != d implies doc_view(
        (#[trigger] docs[e])@,
    )["_id"@] != DocView::Text(points[k].id.spec_text()) by {
        law_documents_keep_their_identity(points[at[e]]);
        if e < d {
            assert(at[e] < at[d]);
        } else {
            assert(at[d] < at[e]);
        }
    }
}

/// Every identity that is written has a document.
pub proof fn law_written_points_have_documents(
    points: Seq<PointStruct>,
    docs: Seq<TextMap<DocValue>>,
    k: int,
)
    requires
        documents_of(docs, points, points.len() as int),
        0 <= k < points.len(),
    ensures
        exists|d: int|
            0 <= d < docs.len() && doc_view((#[trigger] docs[d])@)["_id"@] == DocView::Text(
                points[k].id.spec_text(),
            ),
{
    let last = lemma_last_mention(points, k);
    lemma_last_mentions(points, points.len() as int);
    let at = last_mentions(points, points.len() as int);
    let d = choose|d: int| 0 <= d < at.len() && at[d] == last;
    law_documents_keep_their_identity(points[last]);
    assert(doc_view(docs[d]@) == doc_of(points[last]));
}

/// Whatever the payload says, a document has the identity of its point.
pub proof fn law_documents_keep_their_identity(p: PointStruct)
    ensures
        doc_of(p).dom().contains("_id"@),
        doc_of(p)["_id"@] == DocView::Text(p.id.spec_text()),
{
    reveal_strlit("_id");
    reveal_strlit("vector");
    assert("_id"@.len() == 3 && "vector"@.len() == 6);
    let base = Map::<Seq<char>, DocView>::empty().insert("_id"@, DocView::Text(p.id.spec_text()));
    match p.payload {
        Some(m) => {
            let primary = match p.vector {
                Some(v) => v.spec_primary(),
                None => None,
            };
            let doc = match primary {
                Some(v) => base.insert("vector"@, DocView::Vector(v@)),
                None => base,
            };
            lemma_id_stays(doc, m.items@, m.items@.len() as int);
        },
        None => {},
    }
}

proof fn lemma_id_stays(
    doc: Map<Seq<char>, DocView>,
    items: Seq<(String, JsonValue)>,
    n: int,
)
    requires
        doc.dom().contains("_id"@),
    ensures
        with_fields(doc, items, n).dom().contains("_id"@),
        with_fields(doc, items, n)["_id"@] == doc["_id"@],
    decreases n,
{
    if n > 0 {
        lemma_id_stays(doc, items, n - 1);
    }
}

/// The identities of points that are written.
pub open spec fn written_ids(points: Seq<PointStruct>) -> Seq<Seq<char>> {
    points.map_values(|p: PointStruct| p.id.spec_text())
}

/// The condition on the stored rows that written points take the place of.
pub fn replaced_filter(points: &Vec<PointStruct>) -> (r: String)
    ensures
        r@ == "_id IN ("@ + text::joined(all_quoted(written_ids(points@)), ", "@) + ")"@,
{
    let ghost views = written_ids(points@);
    let mut ids: Vec<PointId> = Vec::new();
    let mut i: usize = 0;
    while i < points.len()
        invariant
            i <= points.len(),
            views == written_ids(points@),
            qdrant_types::id_texts(ids@) == views.take(i as int),
        decreases points.len() - i,
    {
        let ghost before = ids@;
        let id = PointId::Uuid(points[i].id.as_string());
        ids.push(id);
        proof {
            assert(qdrant_types::id_texts(ids@) =~= qdrant_types::id_texts(before).push(
                id.spec_text(),
            ));
            assert(views[i as int] == id.spec_text());
            assert(views.take(i + 1) =~= views.take(i as int).push(id.spec_text()));
        }
        i = i + 1;
    }
    assert(views.take(i as int) =~= views);
    ids_filter(&ids)
}

// ---------------------------------------------------------------------------
// Aliases
// ---------------------------------------------------------------------------

/// The collection that a name stands for: the one of the alias, else itself.
pub open spec fn resolved(aliases: Map<Seq<char>, String>, name: Seq<char>) -> Seq<char> {
    if aliases.dom().contains(name) {
        aliases[name]@
    } else {
        name
    }
}

/// The collection that a name stands for.
pub fn resolve(aliases: &TextMap<String>, name: &str) -> (r: String)
    requires
        aliases.wf(),
    ensures
        r@ == resolved(aliases@, name@),
{
    match aliases.get(name) {
        Some(target) => target.clone(),
        None => name.to_owned(),
    }
}

/// The aliases after a change.
pub open spec fn after_action(aliases: Map<Seq<char>, String>, action: AliasAction) -> Map<
    Seq<char>,
    String,
> {
    match action {
        AliasAction::Create { create_alias } => aliases.insert(
            create_alias.alias_name@,
            create_alias.collection_name,
        ),
        AliasAction::Delete { delete_alias } => aliases.remove(delete_alias.alias_name@),
        AliasAction::Rename { rename_alias } => if aliases.dom().contains(
            rename_alias.old_alias_name@,
        ) {
            aliases.remove(rename_alias.old_alias_name@).insert(
                rename_alias.new_alias_name@,
                aliases[rename_alias.old_alias_name@],
            )
        } else {
            aliases
        },
    }
}

/// The aliases after changes, made in order.
pub open spec fn after_actions(aliases: Map<Seq<char>, String>, actions: Seq<AliasAction>) -> Map<
    Seq<char>,
    String,
>
    decreases actions.len(),
{
    if actions.len() == 0 {
        aliases
    } else {
        after_action(after_actions(aliases, actions.drop_last()), actions.last())
    }
}

/// Changes aliases in order. Renaming an alias that is not there changes
/// nothing.
pub fn update_aliases(aliases: &mut TextMap<String>, actions: Vec<AliasAction>)
    requires
        old(aliases).wf(),
    ensures
        final(aliases).wf(),
        final(aliases)@ == after_actions(old(aliases)@, actions@),
{
    let ghost start = aliases@;
    let ghost all = actions@;
    assert(all.take(0) =~= Seq::<AliasAction>::empty());
    for action in it: actions
        invariant
            it.seq() == all,
            aliases.wf(),
            aliases@ == after_actions(start, all.take(it.index() as int)),
    {
        let ghost i = it.index() as int;
        assert(action == all[i]);
        assert(all.take(i + 1).drop_last() =~= all.take(i));
        let ghost before = aliases@;
        match action {
            AliasAction::Create { create_alias } => {
                aliases.insert(create_alias.alias_name, create_alias.collection_name);
            },
            AliasAction::Delete { delete_alias } => {
                let _ = aliases.remove(delete_alias.alias_name.as_str());
            },
            AliasAction::Rename { rename_alias } => {
                match aliases.remove(rename_alias.old_alias_name.as_str()) {
                    Some(target) => {
                        aliases.insert(rename_alias.new_alias_name, target);
                    },
                    None => {
                        assert(before.remove(rename_alias.old_alias_name@) =~= before);
                    },
                }
            },
        }
    }
    assert(all.take(all.len() as int) =~= all);
}

/// A created alias stands for its collection until it is changed again, and
/// renaming it hands the collection on to the new name.
pub proof fn law_renamed_aliases_keep_their_collection(
    aliases: Map<Seq<char>, String>,
    create: qdrant_types::CreateAlias,
    rename: qdrant_types::RenameAlias,
)
    requires
        rename.old_alias_name@ == create.alias_name@,
    ensures
        ({
            let created = after_action(
                aliases,
                AliasAction::Create { create_alias: create },
            );
            let renamed = after_action(created, AliasAction::Rename { rename_alias: rename });
            &&& resolved(created, create.alias_name@) == create.collection_name@
            &&& resolved(renamed, rename.new_alias_name@) == create.collection_name@
            &&& rename.new_alias_name@ != rename.old_alias_name@ ==> resolved(
                renamed,
                rename.old_alias_name@,
            ) == rename.old_alias_name@
        }),
{
}

/// The aliases of other collections.
pub open spec fn without_target(aliases: Map<Seq<char>, String>, collection: Seq<char>) -> Map<
    Seq<char>,
    String,
> {
    Map::new(
        |k: Seq<char>| aliases.dom().contains(k) && aliases[k]@ != collection,
        |k: Seq<char>| aliases[k],
    )
}

/// The items of a list that stand for other collections.
spec fn others(items: Seq<(String, String)>, collection: Seq<char>) -> Seq<(String, String)>
    decreases items.len(),
{
    if items.len() == 0 {
        Seq::empty()
    } else {
        let before = others(items.drop_last(), collection);
        if items.last().1@ == collection {
            before
        } else {
            before.push(items.last())
        }
    }
}

proof fn lemma_others(items: Seq<(String, String)>, collection: Seq<char>)
    requires
        textmap::keys_distinct(items),
    ensures
        textmap::keys_distinct(others(items, collection)),
        forall|k: int|
            0 <= k < others(items, collection).len() ==> items.contains(
                #[trigger] others(items, collection)[k],
            ) && others(items, collection)[k].1@ != collection,
        forall|j: int|
            0 <= j < items.len() && (#[trigger] items[j]).1@ != collection ==> others(
                items,
                collection,
            ).contains(items[j]),
    decreases items.len(),
{
    if items.len() > 0 {
        let front = items.drop_last();
        let rest = others(items, collection);
        let before = others(front, collection);
        assert forall|a: int, b: int|
            #![trigger front[a], front[b]]
            0 <= a < b < front.len() implies front[a].0@ != front[b].0@ by {
            assert(front[a] == items[a] && front[b] == items[b]);
        }
        lemma_others(front, collection);
        assert forall|k: int| 0 <= k < rest.len() implies items.contains(#[trigger] rest[k])
            && rest[k].1@ != collection by {
            if k < before.len() {
                assert(rest[k] == before[k]);
                let j = choose|j: int| 0 <= j < front.len() && front[j] == before[k];
                assert(items[j] == rest[k]);
            } else {
                assert(items[items.len() - 1] == rest[k]);
            }
        }
        assert forall|j: int| 0 <= j < items.len()
            && (#[trigger] items[j]).1@ != collection implies rest.contains(
            items[j],
        ) by {
            if j < front.len() {
                assert(front[j] == items[j]);
                let k = choose|k: int| 0 <= k < before.len() && before[k] == items[j];
                assert(rest[k] == items[j]);
            } else {
                assert(rest[rest.len() - 1] == items[j]);
            }
        }
        assert forall|a: int, b: int|
            #![trigger rest[a], rest[b]]
            0 <= a < b < rest.len() implies rest[a].0@ != rest[b].0@ by {
            if b < before.len() {
                assert(rest[a] == before[a] && rest[b] == before[b]);
            } else {
                assert(rest[a] == before[a]);
                let j = choose|j: int| 0 <= j < front.len() && front[j] == before[a];
                assert(items[j] == rest[a]);
                assert(items[items.len() - 1] == rest[b]);
            }
        }
    }
}

/// Forgets the aliases of a collection that is gone.
pub fn drop_aliases_of(aliases: TextMap<String>, collection: &str) -> (r: TextMap<String>)
    requires
        aliases.wf(),
    ensures
        r.wf(),
        r@ == without_target(aliases@, collection@),
{
    let ghost all = aliases.items@;
    let mut items: Vec<(String, String)> = Vec::new();
    assert(all.take(0) =~= Seq::<(String, String)>::empty());
    for item in it: aliases.items
        invariant
            it.seq() == all,
            items@ == others(all.take(it.index() as int), collection@),
    {
        let ghost i = it.index() as int;
        assert(item == all[i]);
        assert(all.take(i + 1).drop_last() =~= all.take(i));
        if !text::same(item.1.as_str(), collection) {
            items.push(item);
        }
    }
    assert(all.take(all.len() as int) =~= all);
    let r: TextMap<String> = TextMap { items };
    proof {
        lemma_others(all, collection@);
        let rest = r.items@;
        assert forall|k: Seq<char>| textmap::map_of(rest).dom().contains(k) <==> #[trigger]
            without_target(textmap::map_of(all), collection@).dom().contains(k) by {
            if textmap::map_of(rest).dom().contains(k) {
                let a = choose|a: int| textmap::holds_at(rest, k, a);
                let j = choose|j: int| 0 <= j < all.len() && all[j] == rest[a];
                assert(textmap::holds_at(all, k, j));
                textmap::lemma_holds_at(all, k, j);
            }
            if without_target(textmap::map_of(all), collection@).dom().contains(k) {
                let j = choose|j: int| textmap::holds_at(all, k, j);
                textmap::lemma_holds_at(all, k, j);
                let a = choose|a: int| 0 <= a < rest.len() && rest[a] == all[j];
                assert(textmap::holds_at(rest, k, a));
            }
        }
        assert forall|k: Seq<char>| #[trigger] textmap::map_of(rest).dom().contains(k) implies
            textmap::map_of(rest)[k] == textmap::map_of(all)[k] by {
            let a = choose|a: int| textmap::holds_at(rest, k, a);
            textmap::lemma_holds_at(rest, k, a);
            let j = choose|j: int| 0 <= j < all.len() && all[j] == rest[a];
            assert(textmap::holds_at(all, k, j));
            textmap::lemma_holds_at(all, k, j);
        }
        assert(r@ =~= without_target(textmap::map_of(all), collection@));
    }
    r
}

/// The aliases in a list.
pub open spec fn lists_aliases(list: Seq<AliasDescription>, aliases: Map<Seq<char>, String>) -> bool {
    &&& forall|a: int, b: int|
        #![trigger list[a], list[b]]
        0 <= a < b < list.len() ==> text::text_less(list[a].alias_name@, list[b].alias_name@)
    &&& forall|a: int|
        0 <= a < list.len() ==> aliases.dom().contains((#[trigger] list[a]).alias_name@)
            && aliases[list[a].alias_name@]@ == list[a].collection_name@
    &&& forall|k: Seq<char>| #[trigger]
        aliases.dom().contains(k) ==> exists|a: int|
            0 <= a < list.len() && (#[trigger] list[a]).alias_name@ == k
}

/// All aliases with their collections, in ascending order.
pub fn list_aliases(aliases: &TextMap<String>) -> (r: AliasesListResult)
    requires
        aliases.wf(),
    ensures
        lists_aliases(r.aliases@, aliases@),
{
    let ghost items = aliases.items@;
    let mut names: Vec<String> = Vec::new();
    let mut i: usize = 0;
    while i < aliases.items.len()
        invariant
            i <= aliases.items.len(),
            items == aliases.items@,
            names.len() == i,
            forall|k: int| 0 <= k < i ==> (#[trigger] names@[k])@ == items[k].0@,
        decreases aliases.items.len() - i,
    {
        names.push(aliases.items[i].0.clone());
        i = i + 1;
    }
    let sorted: Vec<usize> = order::sorted_order(&names);
    let mut list: Vec<AliasDescription> = Vec::new();
    let mut p: usize = 0;
    while p < sorted.len()
        invariant
            p <= sorted.len(),
            items == aliases.items@,
            names.len() == items.len(),
            forall|k: int| 0 <= k < names.len() ==> (#[trigger] names@[k])@ == items[k].0@,
            order::is_sorted_order(names@, sorted@),
            list.len() == p,
            forall|a: int|
                0 <= a < p ==> (#[trigger] list@[a]).alias_name@ == items[sorted@[a] as int].0@
                    && list@[a].collection_name@ == items[sorted@[a] as int].1@,
        decreases sorted.len() - p,
    {
        assert(sorted@[p as int] < items.len());
        list.push(
            AliasDescription {
                alias_name: aliases.items[sorted[p]].0.clone(),
                collection_name: aliases.items[sorted[p]].1.clone(),
            },
        );
        p = p + 1;
    }
    proof {
        text::lemma_text_order();
        assert forall|a: int, b: int|
            #![trigger list@[a], list@[b]]
            0 <= a < b < list.len() implies text::text_less(
            list@[a].alias_name@,
            list@[b].alias_name@,
        ) by {
            let x = sorted@[a] as int;
            let y = sorted@[b] as int;
            assert(order::comes_before(names@, x, y));
            assert(names@[x]@ == items[x].0@ && names@[y]@ == items[y].0@);
            if !text::text_less(items[x].0@, items[y].0@) {
                text::lemma_text_less_total(items[x].0@, items[y].0@);
                if x < y {
                    assert(items[x].0@ != items[y].0@);
                } else if y < x {
                    assert(items[y].0@ != items[x].0@);
                }
            }
        }
        assert forall|a: int| 0 <= a < list.len() implies aliases@.dom().contains(
            (#[trigger] list@[a]).alias_name@,
        ) && aliases@[list@[a].alias_name@]@ == list@[a].collection_name@ by {
            let x = sorted@[a] as int;
            assert(textmap::holds_at(items, items[x].0@, x));
            textmap::lemma_holds_at(items, items[x].0@, x);
        }
        assert forall|k: Seq<char>| #[trigger] aliases@.dom().contains(k) implies exists|a: int|
            0 <= a < list.len() && (#[trigger] list@[a]).alias_name@ == k by {
            let j = choose|j: int| textmap::holds_at(items, k, j);
            assert(sorted@.contains(j as usize));
            let a = choose|a: int| 0 <= a < sorted@.len() && sorted@[a] == j as usize;
            assert(list@[a].alias_name@ == k);
        }
    }
    AliasesListResult { aliases: list }
}

// ---------------------------------------------------------------------------
// Collections
// ---------------------------------------------------------------------------

/// What is kept of a collection besides its table.
#[derive(Debug)]
pub struct CollectionMeta {
    pub size: usize,
    pub distance: String,
    pub on_disk: bool,
    pub hnsw_config: Option<HnswConfig>,
}

impl Default for CollectionMeta {
    fn default() -> (r: Self)
        ensures
            r.size == 1536,
            r.distance@ == "Cosine"@,
            r.on_disk,
            r.hnsw_config is None,
    {
        CollectionMeta {
            size: 1536,
            distance: "Cosine".to_owned(),
            on_disk: true,
            hnsw_config: None,
        }
    }
}

impl CollectionMeta {
    /// What is kept of a collection that is created. Vectors are on disk unless
    /// something else is asked for.
    pub fn of_request(vectors: VectorsConfig, hnsw_config: Option<HnswConfig>) -> (r: Self)
        ensures
            r.size == vectors.size,
            r.distance == vectors.distance,
            r.on_disk == match vectors.on_disk {
                Some(b) => b,
                None => true,
            },
            r.hnsw_config == hnsw_config,
    {
        let on_disk: bool = match vectors.on_disk {
            Some(b) => b,
            None => true,
        };
        CollectionMeta { size: vectors.size, distance: vectors.distance, on_disk, hnsw_config }
    }

    /// The same, with other settings of the index where they are given.
    pub fn updated(self, hnsw_config: Option<HnswConfig>) -> (r: Self)
        ensures
            r == (CollectionMeta {
                hnsw_config: match hnsw_config {
                    Some(h) => Some(h),
                    None => self.hnsw_config,
                },
                ..self
            }),
    {
        let mut meta = self;
        match hnsw_config {
            Some(h) => {
                meta.hnsw_config = Some(h);
            },
            None => {},
        }
        meta
    }

    /// The vectors of the collection, given the size that its table has.
    pub open spec fn spec_vectors(self, table_size: Option<usize>) -> VectorsConfig {
        VectorsConfig {
            size: match table_size {
                Some(n) => n,
                None => self.size,
            },
            distance: self.distance,
            on_disk: Some(self.on_disk),
        }
    }

    /// The vectors of the collection, given the size that its table has.
    pub fn vectors(self, table_size: Option<usize>) -> (r: VectorsConfig)
        ensures
            r == self.spec_vectors(table_size),
    {
        let size: usize = match table_size {
            Some(n) => n,
            None => self.size,
        };
        VectorsConfig { size, distance: self.distance, on_disk: Some(self.on_disk) }
    }
}

/// Refuses a collection that exists or has no vector size.
pub fn check_create(exists: bool, size: usize) -> (r: Result<(), QErr>)
    ensures
        match r {
            Ok(()) => !exists && size > 0,
            Err(e) => {
                &&& e.status == ErrorStatus::BadRequest
                &&& if exists {
                    e.msg@ == "Collection already exists"@
                } else {
                    size == 0 && e.msg@ == "vectors.size must be greater than 0"@
                }
            },
        },
{
    if exists {
        return Err(QErr::bad("Collection already exists".to_owned()));
    }
    if size == 0 {
        return Err(QErr::bad("vectors.size must be greater than 0".to_owned()));
    }
    Ok(())
}

/// Refuses a collection that does not exist.
pub fn check_exists(exists: bool) -> (r: Result<(), QErr>)
    ensures
        match r {
            Ok(()) => exists,
            Err(e) => !exists && e.status == ErrorStatus::NotFound && e.msg@
                == "Collection not found"@,
        },
{
    if exists {
        Ok(())
    } else {
        Err(QErr::not_found("Collection not found".to_owned()))
    }
}

/// The first point, or that there is none.
pub fn single_point(points: Vec<RetrievedPoint>) -> (r: Result<RetrievedPoint, QErr>)
    ensures
        match r {
            Ok(p) => points@.len() > 0 && p == points@[0],
            Err(e) => points@.len() == 0 && e.status == ErrorStatus::NotFound && e.msg@
                == "Point not found"@,
        },
{
    let mut points = points;
    if points.len() == 0 {
        Err(QErr::not_found("Point not found".to_owned()))
    } else {
        Ok(points.remove(0))
    }
}

/// The vectors are all of one dimension.
pub open spec fn same_dimension(lens: Seq<usize>, dim: usize) -> bool {
    forall|i: int| 0 <= i < lens.len() ==> #[trigger] lens[i] == dim
}

fn all_of_dimension(lens: &Vec<usize>, dim: usize) -> (r: bool)
    ensures
        r == same_dimension(lens@, dim),
{
    let mut i: usize = 0;
    while i < lens.len()
        invariant
            i <= lens.len(),
            forall|k: int| 0 <= k < i ==> #[trigger] lens@[k] == dim,
        decreases lens.len() - i,
    {
        if lens[i] != dim {
            return false;
        }
        i = i + 1;
    }
    true
}

/// The dimension of example vectors, given the lengths of the good and the bad
/// ones: there is at least one good one and all are of one dimension.
pub fn example_dimension(positive: &Vec<usize>, negative: &Vec<usize>) -> (r: Result<usize, QErr>)
    ensures
        match r {
            Ok(dim) => {
                &&& positive@.len() > 0
                &&& dim == positive@[0]
                &&& same_dimension(positive@, dim)
                &&& same_dimension(negative@, dim)
            },
            Err(e) => {
                &&& e.status == ErrorStatus::BadRequest
                &&& if positive@.len() == 0 {
                    e.msg@ == "'positive' must contain at least one vector"@
                } else {
                    &&& e.msg@ == "inconsistent vector dimensions"@
                    &&& !(same_dimension(positive@, positive@[0]) && same_dimension(
                        negative@,
                        positive@[0],
                    ))
                }
            },
        },
{
    if positive.len() == 0 {
        return Err(QErr::bad("'positive' must contain at least one vector".to_owned()));
    }
    let dim: usize = positive[0];
    if !all_of_dimension(positive, dim) || !all_of_dimension(negative, dim) {
        return Err(QErr::bad("inconsistent vector dimensions".to_owned()));
    }
    Ok(dim)
}

/// What a collection is like, given the size of the vectors of its table and the
/// number of its points.
pub fn collection_info(meta: CollectionMeta, table_size: Option<usize>, count: usize) -> (r:
    CollectionInfoResult)
    ensures
        r.status@ == "green"@,
        r.optimizer_status@ == "ok"@,
        r.vectors_count == count,
        r.indexed_vectors_count == count,
        r.points_count == count,
        r.segments_count == 1,
        r.config.params.vectors == meta.spec_vectors(table_size),
        r.config.hnsw_config == meta.hnsw_config,
        r.payload_schema.wf(),
        r.payload_schema@ == Map::<Seq<char>, JsonValue>::empty(),
{
    let hnsw_config: Option<HnswConfig> = meta.hnsw_config;
    CollectionInfoResult {
        status: "green".to_owned(),
        optimizer_status: "ok".to_owned(),
        vectors_count: count,
        indexed_vectors_count: count,
        points_count: count,
        segments_count: 1,
        config: CollectionConfig {
            params: CollectionParams { vectors: meta.vectors(table_size) },
            hnsw_config,
        },
        payload_schema: TextMap::new(),
    }
}

/// The answer that lists collections.
pub fn list_collections(names: Vec<String>) -> (r: CollectionsListResult)
    ensures
        r.collections.len() == names.len(),
        forall|k: int|
            0 <= k < names.len() ==> #[trigger] r.collections@[k] == (CollectionDescription {
                name: names@[k],
            }),
{
    let ghost all = names@;
    let mut collections: Vec<CollectionDescription> = Vec::new();
    for name in it: names
        invariant
            it.seq() == all,
            collections.len() == it.index(),
            forall|k: int|
                0 <= k < collections.len() ==> #[trigger] collections@[k]
                    == (CollectionDescription { name: all[k] }),
    {
        assert(name == all[it.index() as int]);
        collections.push(CollectionDescription { name });
    }
    CollectionsListResult { collections }
}

/// The filter that reads one point.
pub fn point_filter(id: &str) -> (r: String)
    ensures
        r@ == "_id = "@ + sql::quoted(id@),
{
    let mut out: String = "_id = ".to_owned();
    let literal: String = sql::sql_string(id);
    out.append(literal.as_str());
    out
}

/// The filter that reads the points that are named; none reads all.
pub fn retrieval_filter(ids: &Vec<PointId>) -> (r: Option<String>)
    ensures
        match r {
            Some(f) => ids.len() > 0 && f@ == ids_sql(ids@),
            None => ids.len() == 0,
        },
{
    if ids.len() == 0 {
        None
    } else {
        Some(ids_filter(ids))
    }
}

/// What a request of a batch comes to.
#[derive(Debug)]
pub enum WriteStep {
    Upsert(Vec<PointStruct>),
    Delete { points: Option<Vec<PointId>>, filter: Option<Filter> },
    Change { points: Option<Vec<PointId>>, filter: Option<Filter>, op: PayloadOp },
    Vectors(Vec<PointVectors>),
}

/// What a request of a batch comes to.
pub open spec fn step_of(operation: BatchOperation) -> WriteStep {
    match operation {
        BatchOperation::Upsert { upsert } => WriteStep::Upsert(upsert.points),
        BatchOperation::Delete { delete } => WriteStep::Delete {
            points: delete.points,
            filter: delete.filter,
        },
        BatchOperation::SetPayload { set_payload } => WriteStep::Change {
            points: set_payload.points,
            filter: set_payload.filter,
            op: PayloadOp::Merge(set_payload.payload),
        },
        BatchOperation::OverwritePayload { overwrite_payload } => WriteStep::Change {
            points: overwrite_payload.points,
            filter: overwrite_payload.filter,
            op: PayloadOp::Overwrite(overwrite_payload.payload),
        },
        BatchOperation::DeletePayload { delete_payload } => WriteStep::Change {
            points: delete_payload.points,
            filter: delete_payload.filter,
            op: PayloadOp::DeleteKeys(delete_payload.keys),
        },
        BatchOperation::ClearPayload { clear_payload } => WriteStep::Change {
            points: clear_payload.points,
            filter: clear_payload.filter,
            op: PayloadOp::Clear,
        },
        BatchOperation::UpdateVectors { update_vectors } => WriteStep::Vectors(
            update_vectors.points,
        ),
    }
}

/// What a request of a batch comes to.
pub fn batch_step(operation: BatchOperation) -> (r: WriteStep)
    ensures
        r == step_of(operation),
{
    match operation {
        BatchOperation::Upsert { upsert } => WriteStep::Upsert(upsert.points),
        BatchOperation::Delete { delete } => WriteStep::Delete {
            points: delete.points,
            filter: delete.filter,
        },
        BatchOperation::SetPayload { set_payload } => WriteStep::Change {
            points: set_payload.points,
            filter: set_payload.filter,
            op: PayloadOp::Merge(set_payload.payload),
        },
        BatchOperation::OverwritePayload { overwrite_payload } => WriteStep::Change {
            points: overwrite_payload.points,
            filter: overwrite_payload.filter,
            op: PayloadOp::Overwrite(overwrite_payload.payload),
        },
        BatchOperation::DeletePayload { delete_payload } => WriteStep::Change {
            points: delete_payload.points,
            filter: delete_payload.filter,
            op: PayloadOp::DeleteKeys(delete_payload.keys),
        },
        BatchOperation::ClearPayload { clear_payload } => WriteStep::Change {
            points: clear_payload.points,
            filter: clear_payload.filter,
            op: PayloadOp::Clear,
        },
        BatchOperation::UpdateVectors { update_vectors } => WriteStep::Vectors(
            update_vectors.points,
        ),
    }
}

/// What the service is.
pub fn service_info(version: String) -> (r: ServiceInfo)
    ensures
        r.title@ == "benostreamdb"@,
        r.version == version,
        r.commit@.len() == 0,
{
    ServiceInfo { title: "benostreamdb".to_owned(), version, commit: String::new() }
}

/// A payload holds the fields of a row that are asked for and have a value, the last one where
/// a name comes twice; neither the identity, nor the vector, nor the distance is a field.
pub proof fn law_payloads_hold_the_fields_asked_for(
    fields: Seq<(String, Option<JsonValue>)>,
    with: WithPayload,
    f: (String, Option<JsonValue>),
    name: Seq<char>,
)
    ensures
        f.0@ != "_id"@ && f.0@ != "vector"@ && f.0@ != "distance"@ && with.keeps(f.0@) ==> (
        f.1 matches Some(v) ==> payload_of(fields.push(f), with) == payload_of(fields, with).insert(
            f.0@,
            v,
        )),
        f.1 is None ==> payload_of(fields.push(f), with) == payload_of(fields, with),
        payload_of(fields, with).dom().contains(name) ==> name != "_id"@ && name != "vector"@
            && name
            != "distance"@ && with.keeps(name),
        payload_of(Seq::empty(), with) == Map::<Seq<char>, JsonValue>::empty(),
    decreases fields.len(),
{
    assert(fields.push(f).drop_last() =~= fields);
    if fields.len() > 0 {
        law_payloads_hold_the_fields_asked_for(fields.drop_last(), with, f, name);
    }
}

/// Rows without an identity are left out, and the others keep their order.
pub proof fn law_rows_with_an_identity_are_kept(
    rows: Seq<StoredRow>,
    row: StoredRow,
    found: Seq<FoundRow>,
    one: FoundRow,
)
    ensures
        row.id is Some ==> rows_with_id(rows.push(row)) == rows_with_id(rows).push(row),
        row.id is None ==> rows_with_id(rows.push(row)) == rows_with_id(rows),
        rows_with_id(Seq::empty()) == Seq::<StoredRow>::empty(),
        one.row.id is Some ==> found_with_id(found.push(one)) == found_with_id(found).push(one),
        one.row.id is None ==> found_with_id(found.push(one)) == found_with_id(found),
        found_with_id(Seq::empty()) == Seq::<FoundRow>::empty(),
{
    assert(rows.push(row).drop_last() =~= rows);
    assert(found.push(one).drop_last() =~= found);
}

/// Of the points those are returned whose identity is asked for, and all where none is.
pub proof fn law_wanted_points_are_returned(
    points: Seq<RetrievedPoint>,
    ids: Seq<Seq<char>>,
    p: RetrievedPoint,
)
    ensures
        ids.contains(p.id.spec_text()) || ids.len() == 0 ==> wanted_points(points.push(p), ids)
            == wanted_points(points, ids).push(p),
        ids.len() > 0 && !ids.contains(p.id.spec_text()) ==> wanted_points(points.push(p), ids)
            == wanted_points(points, ids),
        ids.len() == 0 ==> wanted_points(points, ids) == points,
    decreases points.len(),
{
    assert(points.push(p).drop_last() =~= points);
    if points.len() > 0 {
        law_wanted_points_are_returned(points.drop_last(), ids, p);
        assert(points =~= points.drop_last().push(points.last()));
    } else {
        assert(points =~= Seq::<RetrievedPoint>::empty());
    }
}

/// Overwriting leaves what is written and nothing else, and clearing leaves nothing.
pub proof fn law_overwrite_and_clear_payload(
    new: Payload,
    before: Map<Seq<char>, qdrant_types::JsonView>,
    field: Seq<char>,
)
    ensures
        ({
            let set = qdrant_types::payload_view(new@);
            let after = PayloadOp::Overwrite(new).changed(before);
            &&& after.dom().contains(field) <==> set.dom().contains(field)
            &&& set.dom().contains(field) ==> after[field] == set[field]
        }),
        !PayloadOp::Clear.changed(before).dom().contains(field),
{
}

/// The payload of an identity is that of the last row that has it.
pub proof fn law_the_last_row_of_an_identity_counts(
    rows: Seq<PointRow>,
    row: PointRow,
    id: Seq<char>,
)
    ensures
        payloads_by_id(rows.push(row)).dom().contains(row.id@),
        payloads_by_id(rows.push(row))[row.id@] == row.payload,
        id != row.id@ ==> payloads_by_id(rows.push(row)).dom().contains(id) == payloads_by_id(
            rows,
        ).dom().contains(id) && payloads_by_id(rows.push(row))[id] == payloads_by_id(rows)[id],
        payloads_by_id(Seq::empty()) == Map::<Seq<char>, Payload>::empty(),
{
    assert(rows.push(row).drop_last() =~= rows);
}

/// The document of a point holds its payload field by field, and its vector; a field that is
/// named like the identity or the vector does not take their place.
pub proof fn law_documents_hold_their_payload(p: PointStruct, i: int)
    ensures
        p.payload matches Some(m) ==> {
            let items = m.items@;
            0 <= i < items.len() && items[i].0@ != "_id"@ && items[i].0@ != "vector"@ && (forall|
                j: int,
            |
                i < j < items.len() ==> (#[trigger] items[j]).0@ != items[i].0@) ==> doc_of(
                p,
            ).dom().contains(items[i].0@) && doc_of(p)[items[i].0@] == DocView::Json(items[i].1@)
        },
        p.vector matches Some(v) ==> (v.spec_primary() matches Some(bits) ==> doc_of(
            p,
        ).dom().contains("vector"@) && doc_of(p)["vector"@] == DocView::Vector(bits@)),
        p.vector is None ==> !doc_of(p).dom().contains("vector"@),
{
    reveal_strlit("_id");
    reveal_strlit("vector");
    assert("_id"@.len() == 3 && "vector"@.len() == 6);
    assert("_id"@ != "vector"@);
    let base = Map::<Seq<char>, DocView>::empty().insert("_id"@, DocView::Text(p.id.spec_text()));
    let primary = match p.vector {
        Some(v) => v.spec_primary(),
        None => None,
    };
    let with_vector = match primary {
        Some(v) => base.insert("vector"@, DocView::Vector(v@)),
        None => base,
    };
    if let Some(m) = p.payload {
        let n = m.items@.len() as int;
        lemma_fields_of_doc(with_vector, m.items@, n, "vector"@, i);
        if 0 <= i < n {
            lemma_fields_of_doc(with_vector, m.items@, n, m.items@[i].0@, i);
        }
    }
}

proof fn lemma_fields_of_doc(
    doc: Map<Seq<char>, DocView>,
    items: Seq<(String, JsonValue)>,
    n: int,
    key: Seq<char>,
    i: int,
)
    requires
        0 <= n <= items.len(),
    ensures
        key == "vector"@ ==> with_fields(doc, items, n).dom().contains(key) == doc.dom().contains(
            key,
        ) && with_fields(doc, items, n)[key] == doc[key],
        0 <= i < n && items[i].0@ == key && key != "_id"@ && key != "vector"@ && (forall|j: int|
            i < j < n ==> (#[trigger] items[j]).0@ != key) ==> with_fields(
            doc,
            items,
            n,
        ).dom().contains(key) && with_fields(doc, items, n)[key] == DocView::Json(items[i].1@),
    decreases n,
{
    if n > 0 {
        lemma_fields_of_doc(doc, items, n - 1, key, i);
    }
}

/// An alias names its collection until it is removed, and nothing that is done to one alias
/// changes another. Without an alias a name stands for itself.
pub proof fn law_aliases_do_not_touch_one_another(
    aliases: Map<Seq<char>, String>,
    create: qdrant_types::CreateAlias,
    delete: qdrant_types::DeleteAlias,
    rename: qdrant_types::RenameAlias,
    name: Seq<char>,
)
    ensures
        ({
            let after = after_action(aliases, AliasAction::Create { create_alias: create });
            &&& resolved(after, create.alias_name@) == create.collection_name@
            &&& name != create.alias_name@ ==> resolved(after, name) == resolved(aliases, name)
        }),
        ({
            let after = after_action(aliases, AliasAction::Delete { delete_alias: delete });
            &&& resolved(after, delete.alias_name@) == delete.alias_name@
            &&& name != delete.alias_name@ ==> resolved(after, name) == resolved(aliases, name)
        }),
        ({
            let after = after_action(aliases, AliasAction::Rename { rename_alias: rename });
            &&& name != rename.old_alias_name@ && name != rename.new_alias_name@ ==> resolved(
                after,
                name,
            ) == resolved(aliases, name)
            &&& !aliases.dom().contains(rename.old_alias_name@) ==> after == aliases
        }),
        !aliases.dom().contains(name) ==> resolved(aliases, name) == name,
{
}

/// Actions on aliases are carried out one after the other.
pub proof fn law_alias_actions_follow_one_another(
    aliases: Map<Seq<char>, String>,
    a: Seq<AliasAction>,
    b: Seq<AliasAction>,
)
    ensures
        after_actions(aliases, a + b) == after_actions(after_actions(aliases, a), b),
        forall|x: AliasAction| #[trigger]
            after_actions(aliases, seq![x]) == after_action(aliases, x),
    decreases b.len(),
{
    assert forall|x: AliasAction| #[trigger]
        after_actions(aliases, seq![x]) == after_action(aliases, x) by {
        assert(seq![x].drop_last() =~= Seq::<AliasAction>::empty());
        assert(after_actions(aliases, Seq::<AliasAction>::empty()) == aliases);
    }
    if b.len() == 0 {
        assert(a + b =~= a);
    } else {
        law_alias_actions_follow_one_another(aliases, a, b.drop_last());
        assert((a + b).drop_last() =~= a + b.drop_last());
    }
}

/// The aliases of a collection go with it, and the others stay.
pub proof fn law_aliases_go_with_their_collection(
    aliases: Map<Seq<char>, String>,
    collection: Seq<char>,
    name: Seq<char>,
)
    ensures
        aliases.dom().contains(name) && resolved(aliases, name) == collection ==> !without_target(
            aliases,
            collection,
        ).dom().contains(name),
        resolved(aliases, name) != collection ==> resolved(
            without_target(aliases, collection),
            name,
        ) == resolved(aliases, name),
{
}

/// Distances go by their names, in whatever case they are written; an unknown one is
/// Euclidean.
pub proof fn law_distances_go_by_their_names(name: Seq<char>)
    ensures
        text::lowered(name) == "cosine"@ ==> metric_of(name) == VectorMetric::Cosine,
        text::lowered(name) == "dot"@ ==> metric_of(name) == VectorMetric::InnerProduct,
        text::lowered(name) == "euclid"@ ==> metric_of(name) == VectorMetric::L2,
        text::lowered(name) == "manhattan"@ ==> metric_of(name) == VectorMetric::L1,
        metric_of(text::lowered(name)) == metric_of(name),
        is_similarity(text::lowered(name)) == is_similarity(name),
{
    text::law_lower_case(name);
    reveal_strlit("cosine");
    reveal_strlit("dot");
    reveal_strlit("ip");
    reveal_strlit("inner_product");
    reveal_strlit("euclid");
    reveal_strlit("manhattan");
    reveal_strlit("l1");
    assert("euclid"@[0] == 'e' && "cosine"@[0] == 'c');
    assert("cosine"@.len() == 6 && "euclid"@.len() == 6 && "dot"@.len() == 3 && "ip"@.len() == 2
        && "inner_product"@.len() == 13 && "manhattan"@.len() == 9 && "l1"@.len() == 2);
}

/// A change of a batch goes to the points and the filter that it names, and does to their
/// payloads what it says: set, overwrite, remove or clear.
pub proof fn law_batches_do_what_they_say(
    op: BatchOperation,
    before: Map<Seq<char>, qdrant_types::JsonView>,
)
    ensures
        op matches BatchOperation::Upsert { upsert } ==> step_of(op) == WriteStep::Upsert(
            upsert.points,
        ),
        op matches BatchOperation::Delete { delete } ==> (step_of(op) matches WriteStep::Delete {
            points,
            filter,
        } && points == delete.points && filter == delete.filter),
        op matches BatchOperation::SetPayload { set_payload: s } ==> (
        step_of(op) matches WriteStep::Change { points, filter, op: change } && points == s.points
            && filter == s.filter && change.changed(before) == before.union_prefer_right(
            qdrant_types::payload_view(s.payload@),
        )),
        op matches BatchOperation::OverwritePayload { overwrite_payload: s } ==> (
        step_of(op) matches WriteStep::Change { points, filter, op: change } && points == s.points
            && filter == s.filter && change.changed(before) == qdrant_types::payload_view(
            s.payload@,
        )),
        op matches BatchOperation::DeletePayload { delete_payload: s } ==> (
        step_of(op) matches WriteStep::Change { points, filter, op: change } && points == s.points
            && filter == s.filter && change.changed(before) == before.remove_keys(
            text::texts(s.keys@).to_set(),
        )),
        op matches BatchOperation::ClearPayload { clear_payload: s } ==> (
        step_of(op) matches WriteStep::Change { points, filter, op: change } && points == s.points
            && filter == s.filter && change.changed(before) == Map::<
            Seq<char>,
            qdrant_types::JsonView,
        >::empty()),
        op matches BatchOperation::UpdateVectors { update_vectors } ==> step_of(op)
            == WriteStep::Vectors(update_vectors.points),
{
    if let BatchOperation::DeletePayload { delete_payload: s } = op {
        let keys = text::texts(s.keys@);
        assert(PayloadOp::DeleteKeys(s.keys).changed(before) =~= before.remove_keys(
            keys.to_set(),
        ));
    }
}

} // verus!
