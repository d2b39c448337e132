//! The requests and answers of the Qdrant interface.
//!
//! Numbers with a fraction are held by their bits or their decimal text.

use vstd::prelude::*;
use vstd::string::*;

use crate::text;
use crate::textmap::TextMap;

verus! {

// ---------------------------------------------------------------------------
// Values
// ---------------------------------------------------------------------------

/// A JSON value. A number is held by its text, a list or an object by its JSON
/// text.
#[derive(Debug)]
pub enum JsonValue {
    Null,
    Bool(bool),
    Number(String),
    Text(String),
    Composite(String),
}

/// A JSON value, by its texts.
pub ghost enum JsonView {
    Null,
    Bool(bool),
    Number(Seq<char>),
    Text(Seq<char>),
    Composite(Seq<char>),
}

impl View for JsonValue {
    type V = JsonView;

    open spec fn view(&self) -> JsonView {
        match *self {
            JsonValue::Null => JsonView::Null,
            JsonValue::Bool(b) => JsonView::Bool(b),
            JsonValue::Number(n) => JsonView::Number(n@),
            JsonValue::Text(s) => JsonView::Text(s@),
            JsonValue::Composite(s) => JsonView::Composite(s@),
        }
    }
}

impl JsonValue {
    /// The same value.
    pub fn copy(&self) -> (r: Self)
        ensures
            r@ == self@,
    {
        match self {
            JsonValue::Null => JsonValue::Null,
            JsonValue::Bool(b) => JsonValue::Bool(*b),
            JsonValue::Number(n) => JsonValue::Number(n.clone()),
            JsonValue::Text(s) => JsonValue::Text(s.clone()),
            JsonValue::Composite(s) => JsonValue::Composite(s.clone()),
        }
    }
}

/// The fields of a point besides its identity and its vector.
pub type Payload = TextMap<JsonValue>;

/// What a payload holds.
pub open spec fn payload_view(m: Map<Seq<char>, JsonValue>) -> Map<Seq<char>, JsonView> {
    m.map_values(|v: JsonValue| v@)
}

// ---------------------------------------------------------------------------
// Answers
// ---------------------------------------------------------------------------

/// What is wrong with a request.
#[derive(Debug)]
pub struct QdrantErrorStatus {
    pub error: String,
}

/// The acknowledgement of a change.
#[derive(Debug)]
pub struct UpdateResult {
    pub operation_id: u64,
    pub status: String,
}

impl UpdateResult {
    /// The change was made.
    pub fn completed() -> (r: Self)
        ensures
            r.operation_id == 0,
            r.status@ == "completed"@,
    {
        UpdateResult { operation_id: 0, status: "completed".to_owned() }
    }
}

// ---------------------------------------------------------------------------
// Collections
// ---------------------------------------------------------------------------

/// A collection that is to be created.
#[derive(Debug)]
pub struct CreateCollectionRequest {
    pub vectors: VectorsConfig,
    pub hnsw_config: Option<HnswConfig>,
    pub on_disk_payload: Option<bool>,
}

/// The vectors of a collection.
#[derive(Debug)]
pub struct VectorsConfig {
    pub size: usize,
    pub distance: String,
    pub on_disk: Option<bool>,
}

/// The settings of the vector index of a collection.
#[derive(Debug, Clone, Copy, PartialEq, Eq, Structural)]
pub struct HnswConfig {
    pub m: Option<usize>,
    pub ef_construct: Option<usize>,
    pub on_disk: Option<bool>,
}

/// The settings of a collection.
#[derive(Debug)]
pub struct CollectionConfig {
    pub params: CollectionParams,
    pub hnsw_config: Option<HnswConfig>,
}

/// The parameters of a collection.
#[derive(Debug)]
pub struct CollectionParams {
    pub vectors: VectorsConfig,
}

/// What a collection is like.
#[derive(Debug)]
pub struct CollectionInfoResult {
    pub status: String,
    pub optimizer_status: String,
    pub vectors_count: usize,
    pub indexed_vectors_count: usize,
    pub points_count: usize,
    pub segments_count: usize,
    pub config: CollectionConfig,
    pub payload_schema: Payload,
}

/// The collections.
#[derive(Debug)]
pub struct CollectionsListResult {
    pub collections: Vec<CollectionDescription>,
}

/// A collection in a list.
#[derive(Debug)]
pub struct CollectionDescription {
    pub name: String,
}

/// Whether a collection exists.
#[derive(Debug, Clone, Copy, PartialEq, Eq, Structural)]
pub struct CollectionExistsResult {
    pub exists: bool,
}

// ---------------------------------------------------------------------------
// Points
// ---------------------------------------------------------------------------

/// The identity of a point.
#[derive(Debug)]
pub enum PointId {
    Num(u64),
    Uuid(String),
}

impl PointId {
    /// The text of the identity.
    pub open spec fn spec_text(self) -> Seq<char> {
        match self {
            PointId::Num(n) => text::decimal(n as nat),
            PointId::Uuid(s) => s@,
        }
    }

    /// The text of the identity.
    pub fn as_string(&self) -> (r: String)
        ensures
            r@ == self.spec_text(),
    {
        match self {
            PointId::Num(n) => text::u64_text(*n),
            PointId::Uuid(s) => s.clone(),
        }
    }

    /// The same identity.
    pub fn copy(&self) -> (r: Self)
        ensures
            r.spec_text() == self.spec_text(),
            r is Num <==> self is Num,
    {
        match self {
            PointId::Num(n) => PointId::Num(*n),
            PointId::Uuid(s) => PointId::Uuid(s.clone()),
        }
    }
}

/// The texts of identities.
pub open spec fn id_texts(ids: Seq<PointId>) -> Seq<Seq<char>> {
    ids.map_values(|i: PointId| i.spec_text())
}

/// The vector of a point, by the bits of its elements: one without a name, or
/// several with names.
#[derive(Debug)]
pub enum VectorInput {
    Single(Vec<u32>),
    Named(Vec<(String, Vec<u32>)>),
}

/// The place of the vector that is stored: the one named `vector`, else the
/// first.
pub open spec fn primary_place(vectors: Seq<(String, Vec<u32>)>) -> Option<int>
    decreases vectors.len(),
{
    if vectors.len() == 0 {
        None
    } else {
        match named_place(vectors, "vector"@) {
            Some(i) => Some(i),
            None => Some(0),
        }
    }
}

/// The first place of a name.
pub open spec fn named_place(vectors: Seq<(String, Vec<u32>)>, name: Seq<char>) -> Option<int>
    decreases vectors.len(),
{
    if vectors.len() == 0 {
        None
    } else {
        match named_place(vectors.drop_last(), name) {
            Some(i) => Some(i),
            None => if vectors.last().0@ == name {
                Some(vectors.len() - 1)
            } else {
                None
            },
        }
    }
}

impl VectorInput {
    /// The vector that is stored.
    pub open spec fn spec_primary(self) -> Option<Vec<u32>> {
        match self {
            VectorInput::Single(v) => Some(v),
            VectorInput::Named(vs) => match primary_place(vs@) {
                Some(i) => Some(vs@[i].1),
                None => None,
            },
        }
    }

    /// The vector that is stored: of named ones that named `vector`, else the
    /// first.
    pub fn primary(&self) -> (r: Option<&Vec<u32>>)
        ensures
            match (r, self.spec_primary()) {
                (Some(a), Some(b)) => *a == b,
                (None, None) => true,
                _ => false,
            },
    {
        match self {
            VectorInput::Single(v) => Some(v),
            VectorInput::Named(vs) => {
                if vs.len() == 0 {
                    return None;
                }
                let mut found: Option<usize> = None;
                let mut i: usize = 0;
                assert(vs@.take(0) =~= Seq::<(String, Vec<u32>)>::empty());
                while i < vs.len()
                    invariant
                        i <= vs.len(),
                        match found {
                            Some(k) => k < i && named_place(vs@.take(i as int), "vector"@) == Some(
                                k as int,
                            ),
                            None => named_place(vs@.take(i as int), "vector"@) is None,
                        },
                    decreases vs.len() - i,
                {
                    assert(vs@.take(i + 1).drop_last() =~= vs@.take(i as int));
                    if found.is_none() && text::same(vs[i].0.as_str(), "vector") {
                        found = Some(i);
                    }
                    i = i + 1;
                }
                assert(vs@.take(i as int) =~= vs@);
                match found {
                    Some(k) => Some(&vs[k].1),
                    None => Some(&vs[0].1),
                }
            },
        }
    }
}

/// A point that is written.
#[derive(Debug)]
pub struct PointStruct {
    pub id: PointId,
    pub vector: Option<VectorInput>,
    pub payload: Option<Payload>,
}

/// Points that are asked for.
#[derive(Debug)]
pub struct RetrievePointsRequest {
    pub ids: Vec<PointId>,
    pub with_payload: Option<WithPayload>,
    pub with_vector: Option<WithVector>,
}

/// Which fields of a payload are returned.
#[derive(Debug)]
pub enum WithPayload {
    Bool(bool),
    Selector(PayloadSelector),
}

/// The fields that are returned, or those that are not.
#[derive(Debug)]
pub struct PayloadSelector {
    pub included: Option<Vec<String>>,
    pub excluded: Option<Vec<String>>,
}

impl WithPayload {
    /// A payload is returned.
    pub open spec fn is_enabled(self) -> bool {
        match self {
            WithPayload::Bool(b) => b,
            WithPayload::Selector(_) => true,
        }
    }

    /// A field is returned: the listed ones where any are, else all but the
    /// excluded ones.
    pub open spec fn keeps(self, field: Seq<char>) -> bool {
        match self {
            WithPayload::Bool(_) => true,
            WithPayload::Selector(sel) => match (sel.included, sel.excluded) {
                (Some(inc), _) if inc@.len() > 0 => text::texts(inc@).contains(field),
                (_, Some(exc)) => !text::texts(exc@).contains(field),
                _ => true,
            },
        }
    }

    /// Whether a payload is returned.
    pub fn enabled(&self) -> (r: bool)
        ensures
            r == self.is_enabled(),
    {
        match self {
            WithPayload::Bool(b) => *b,
            WithPayload::Selector(_) => true,
        }
    }

    /// Whether a field is returned.
    pub fn keep(&self, field: &str) -> (r: bool)
        ensures
            r == self.keeps(field@),
    {
        match self {
            WithPayload::Bool(_) => true,
            WithPayload::Selector(sel) => {
                match &sel.included {
                    Some(included) => {
                        if included.len() > 0 {
                            return text::list_has(included, field);
                        }
                    },
                    None => {},
                }
                match &sel.excluded {
                    Some(excluded) => !text::list_has(excluded, field),
                    None => true,
                }
            },
        }
    }
}

/// Whether vectors are returned.
#[derive(Debug)]
pub enum WithVector {
    Bool(bool),
    Names(Vec<String>),
}

impl WithVector {
    /// Vectors are returned.
    pub open spec fn is_enabled(self) -> bool {
        match self {
            WithVector::Bool(b) => b,
            WithVector::Names(_) => true,
        }
    }

    /// Whether vectors are returned.
    pub fn enabled(&self) -> (r: bool)
        ensures
            r == self.is_enabled(),
    {
        match self {
            WithVector::Bool(b) => *b,
            WithVector::Names(_) => true,
        }
    }
}

/// A point that is returned.
#[derive(Debug)]
pub struct RetrievedPoint {
    pub id: PointId,
    pub payload: Option<Payload>,
    pub vector: Option<Vec<u32>>,
}

/// A point that a search returns: its score and its vector by their bits.
#[derive(Debug)]
pub struct ScoredPoint {
    pub id: PointId,
    pub version: u64,
    pub score: u32,
    pub payload: Option<Payload>,
    pub vector: Option<Vec<u32>>,
}

/// The vector that a query is about, by itself or in an object.
#[derive(Debug)]
pub enum QueryInput {
    Nearest(Vec<u32>),
    NearestObj { nearest: Vec<u32> },
}

impl QueryInput {
    /// The vector.
    pub open spec fn spec_vector(self) -> Vec<u32> {
        match self {
            QueryInput::Nearest(v) => v,
            QueryInput::NearestObj { nearest } => nearest,
        }
    }

    /// The vector.
    pub fn vector(&self) -> (r: &Vec<u32>)
        ensures
            *r == self.spec_vector(),
    {
        match self {
            QueryInput::Nearest(v) => v,
            QueryInput::NearestObj { nearest } => nearest,
        }
    }
}

/// A page of points, and where the next one starts.
#[derive(Debug)]
pub struct ScrollResult {
    pub points: Vec<RetrievedPoint>,
    pub next_page_offset: Option<PointId>,
}

/// The number of points.
#[derive(Debug, Clone, Copy, PartialEq, Eq, Structural)]
pub struct CountResult {
    pub count: usize,
}

/// Points that are deleted.
#[derive(Debug)]
pub struct DeletePointsRequest {
    pub points: Option<Vec<PointId>>,
    pub filter: Option<Filter>,
}

/// Points whose payload is changed.
#[derive(Debug)]
pub struct SetPayloadRequest {
    pub payload: Payload,
    pub points: Option<Vec<PointId>>,
    pub filter: Option<Filter>,
}

/// Points whose payload loses fields.
#[derive(Debug)]
pub struct DeletePayloadRequest {
    pub keys: Vec<String>,
    pub points: Option<Vec<PointId>>,
    pub filter: Option<Filter>,
}

/// Points whose payload loses all fields.
#[derive(Debug)]
pub struct ClearPayloadRequest {
    pub points: Option<Vec<PointId>>,
    pub filter: Option<Filter>,
}

/// Points that get new vectors.
#[derive(Debug)]
pub struct UpdateVectorsRequest {
    pub points: Vec<PointVectors>,
}

/// A point and its new vector.
#[derive(Debug)]
pub struct PointVectors {
    pub id: PointId,
    pub vector: VectorInput,
}

/// Points that are written together.
#[derive(Debug)]
pub struct PointsBatch {
    pub points: Vec<PointStruct>,
}

/// One of several changes that are made in order.
#[derive(Debug)]
pub enum BatchOperation {
    Upsert { upsert: PointsBatch },
    Delete { delete: DeletePointsRequest },
    SetPayload { set_payload: SetPayloadRequest },
    OverwritePayload { overwrite_payload: SetPayloadRequest },
    DeletePayload { delete_payload: DeletePayloadRequest },
    ClearPayload { clear_payload: ClearPayloadRequest },
    UpdateVectors { update_vectors: UpdateVectorsRequest },
}

// ---------------------------------------------------------------------------
// Filters
// ---------------------------------------------------------------------------

/// A filter: all of the first conditions, any of the second, none of the third.
#[derive(Debug)]
pub struct Filter {
    pub must: Option<ConditionList>,
    pub should: Option<ConditionList>,
    pub must_not: Option<ConditionList>,
}

/// One condition or several.
#[derive(Debug)]
pub enum ConditionList {
    One(Box<Condition>),
    Many(Vec<Condition>),
}

impl ConditionList {
    /// The conditions.
    pub open spec fn conditions(self) -> Seq<Condition> {
        match self {
            ConditionList::One(c) => seq![*c],
            ConditionList::Many(v) => v@,
        }
    }

    /// The conditions, as a list.
    pub fn into_vec(self) -> (r: Vec<Condition>)
        ensures
            r@ == self.conditions(),
    {
        match self {
            ConditionList::One(c) => {
                let mut v: Vec<Condition> = Vec::new();
                v.push(*c);
                assert(v@ =~= seq![*c]);
                v
            },
            ConditionList::Many(v) => v,
        }
    }
}

/// A condition on a point.
#[derive(Debug)]
pub enum Condition {
    Field(FieldCondition),
    HasId { has_id: Vec<PointId> },
    Filter(Box<Filter>),
}

/// A condition on a field of the payload.
#[derive(Debug)]
pub struct FieldCondition {
    pub key: String,
    pub match_: Option<MatchCondition>,
    pub range: Option<RangeCondition>,
}

/// The values that a field may have.
#[derive(Debug)]
pub enum MatchCondition {
    Value { value: JsonValue },
    Any { any: Vec<JsonValue> },
    Text { text: String },
}

/// The bounds of a field, by their decimal texts.
#[derive(Debug)]
pub struct RangeCondition {
    pub lt: Option<String>,
    pub gt: Option<String>,
    pub gte: Option<String>,
    pub lte: Option<String>,
}

// ---------------------------------------------------------------------------
// Aliases
// ---------------------------------------------------------------------------

/// The aliases.
#[derive(Debug)]
pub struct AliasesListResult {
    pub aliases: Vec<AliasDescription>,
}

/// An alias in a list.
#[derive(Debug)]
pub struct AliasDescription {
    pub alias_name: String,
    pub collection_name: String,
}

/// Changes of aliases, made in order.
#[derive(Debug)]
pub struct AliasOperationsRequest {
    pub actions: Vec<AliasAction>,
}

/// A change of an alias.
#[derive(Debug)]
pub enum AliasAction {
    Create { create_alias: CreateAlias },
    Delete { delete_alias: DeleteAlias },
    Rename { rename_alias: RenameAlias },
}

/// An alias that is created.
#[derive(Debug)]
pub struct CreateAlias {
    pub collection_name: String,
    pub alias_name: String,
}

/// An alias that is deleted.
#[derive(Debug)]
pub struct DeleteAlias {
    pub alias_name: String,
}

/// An alias that gets another name.
#[derive(Debug)]
pub struct RenameAlias {
    pub old_alias_name: String,
    pub new_alias_name: String,
}

// ---------------------------------------------------------------------------
// Service
// ---------------------------------------------------------------------------

/// What the server is.
#[derive(Debug)]
pub struct ServiceInfo {
    pub title: String,
    pub version: String,
    pub commit: String,
}

/// Of several named vectors the one that is called `vector` counts, else the first one.
pub proof fn law_the_primary_vector(vectors: Seq<(String, Vec<u32>)>, i: int)
    requires
        0 <= i <= vectors.len(),
        forall|j: int| 0 <= j < i ==> (#[trigger] vectors[j]).0@ != "vector"@,
    ensures
        i < vectors.len() && vectors[i].0@ == "vector"@ ==> primary_place(vectors) == Some(i),
        i == vectors.len() && i > 0 ==> primary_place(vectors) == Some(0int),
        vectors.len() == 0 ==> primary_place(vectors) is None,
{
    lemma_named_place(vectors, "vector"@, i);
}

proof fn lemma_named_place(vectors: Seq<(String, Vec<u32>)>, name: Seq<char>, i: int)
    requires
        0 <= i <= vectors.len(),
        forall|j: int| 0 <= j < i ==> (#[trigger] vectors[j]).0@ != name,
    ensures
        i < vectors.len() && vectors[i].0@ == name ==> named_place(vectors, name) == Some(i),
        i == vectors.len() ==> named_place(vectors, name) is None,
    decreases vectors.len(),
{
    if vectors.len() > 0 {
        let front = vectors.drop_last();
        let last = vectors.len() - 1;
        assert(vectors[last] == vectors.last());
        let k = if i < last {
            i
        } else {
            last
        };
        assert forall|j: int| 0 <= j < k implies (#[trigger] front[j]).0@ != name by {
            assert(front[j] == vectors[j]);
        }
        lemma_named_place(front, name, k);
        if i < last {
            assert(front[i] == vectors[i]);
        }
    }
}

/// A payload is returned whole, or the fields that are included, or those that are not
/// excluded; what is included counts before what is excluded.
pub proof fn law_payloads_are_selected(
    included: Option<Vec<String>>,
    excluded: Option<Vec<String>>,
    field: Seq<char>,
)
    ensures
        ({
            let with = WithPayload::Selector(PayloadSelector { included, excluded });
            &&& with.is_enabled()
            &&& included matches Some(inc) ==> (inc@.len() > 0 ==> (with.keeps(field)
                <==> text::texts(inc@).contains(field)))
            &&& included is None ==> (excluded matches Some(exc) ==> (with.keeps(field)
                <==> !text::texts(exc@).contains(field)))
            &&& included is None && excluded is None ==> with.keeps(field)
        }),
        WithPayload::Bool(true).keeps(field) && WithPayload::Bool(true).is_enabled(),
        !WithPayload::Bool(false).is_enabled(),
{
}

} // verus!
