//! Which Avro files are handed to the `apache_avro` crate.
//!
//! Its reader parses the schema in the header of a file, and the parser panics where the
//! name of a type breaks the rule for names and, in the course of refusing the default
//! of a field, on members that the type of the field should not have. A fixed value that
//! is larger than memory cannot be read, and a value of a type that contains itself is
//! read on as many stack frames as it is deep. So the schema is tested before the file
//! is opened.

use vstd::prelude::*;
use vstd::string::*;

use crate::json::{json_of, parse_json, JsonDoc, JsonShape};
use crate::text;

verus! {

// ---------------------------------------------------------------------------
// Names
// ---------------------------------------------------------------------------

/// A character that a name can begin with.
pub open spec fn begins_name(c: char) -> bool {
    'a' <= c <= 'z' || 'A' <= c <= 'Z' || c == '_'
}

/// A character of a name.
pub open spec fn is_name_char(c: char) -> bool {
    begins_name(c) || '0' <= c <= '9'
}

/// A name without a namespace.
pub open spec fn is_plain_name(s: Seq<char>) -> bool {
    &&& s.len() > 0
    &&& begins_name(s[0])
    &&& forall|i: int| 0 <= i < s.len() ==> is_name_char(#[trigger] s[i])
}

/// A name: plain names with dots between them, or a dot and a plain name.
pub open spec fn is_avro_name(s: Seq<char>) -> bool {
    let parts = text::pieces(s, '.');
    ||| forall|i: int| 0 <= i < parts.len() ==> is_plain_name(#[trigger] parts[i])
    ||| parts.len() == 2 && parts[0].len() == 0 && is_plain_name(parts[1])
}

/// Whether a text is a name without a namespace.
pub fn has_plain_name(s: &str) -> (r: bool)
    ensures
        r == is_plain_name(s@),
{
    let chars: Vec<char> = text::to_chars(s);
    if chars.len() == 0 {
        return false;
    }
    let first: char = chars[0];
    if !('a' <= first && first <= 'z' || 'A' <= first && first <= 'Z' || first == '_') {
        return false;
    }
    let mut i: usize = 0;
    while i < chars.len()
        invariant
            chars@ == s@,
            i <= chars.len(),
            forall|k: int| 0 <= k < i ==> is_name_char(#[trigger] s@[k]),
        decreases chars.len() - i,
    {
        let c: char = chars[i];
        assert(c == s@[i as int]);
        if !('a' <= c && c <= 'z' || 'A' <= c && c <= 'Z' || c == '_' || '0' <= c && c <= '9') {
            return false;
        }
        i = i + 1;
    }
    true
}

fn has_avro_name(s: &str) -> (r: bool)
    ensures
        r == is_avro_name(s@),
{
    let parts: Vec<String> = text::split(s, '.');
    let ghost all = text::pieces(s@, '.');
    assert(forall|k: int| 0 <= k < parts.len() ==> #[trigger] all[k] == parts@[k]@);
    if parts.len() == 2 && parts[0].as_str().is_empty() && has_plain_name(parts[1].as_str()) {
        assert(all[0] == parts@[0]@ && all[1] == parts@[1]@);
        return true;
    }
    let mut i: usize = 0;
    while i < parts.len()
        invariant
            i <= parts.len(),
            all == text::pieces(s@, '.'),
            text::texts(parts@) == all,
            !(all.len() == 2 && all[0].len() == 0 && is_plain_name(all[1])),
            forall|k: int| 0 <= k < i ==> is_plain_name(#[trigger] all[k]),
        decreases parts.len() - i,
    {
        assert(all[i as int] == parts@[i as int]@);
        if !has_plain_name(parts[i].as_str()) {
            return false;
        }
        i = i + 1;
    }
    true
}

/// A list of names. What is no text is no name.
pub open spec fn lists_names(v: JsonShape) -> bool {
    match v {
        JsonShape::List(l) => forall|i: int|
            0 <= i < l.len() ==> ((#[trigger] l[i]) matches JsonShape::Text(s) ==> is_avro_name(s)),
        _ => true,
    }
}

fn has_listed_names(v: &JsonDoc) -> (r: bool)
    ensures
        r == lists_names(v.shape()),
{
    match v {
        JsonDoc::List(items) => {
            let ghost l = v.shape()->List_0;
            let mut i: usize = 0;
            while i < items.len()
                invariant
                    i <= items.len(),
                    *v == JsonDoc::List(*items),
                    l == v.shape()->List_0,
                    forall|k: int|
                        0 <= k < i ==> ((#[trigger] l[k]) matches JsonShape::Text(s) ==> is_avro_name(
                            s,
                        )),
                decreases items.len() - i,
            {
                assert(l[i as int] == items@[i as int].shape());
                match &items[i] {
                    JsonDoc::Text(s) => {
                        if !has_avro_name(s.as_str()) {
                            return false;
                        }
                    },
                    _ => {},
                }
                i = i + 1;
            }
            true
        },
        _ => true,
    }
}

// ---------------------------------------------------------------------------
// Members
// ---------------------------------------------------------------------------

/// A member of an object.
pub open spec fn has_member(m: Seq<(Seq<char>, JsonShape)>, key: Seq<char>, v: JsonShape) -> bool {
    exists|i: int| 0 <= i < m.len() && #[trigger] m[i] == (key, v)
}

/// An object is the schema of a type with a name.
pub open spec fn is_named_type(m: Seq<(Seq<char>, JsonShape)>) -> bool {
    ||| has_member(m, "type"@, JsonShape::Text("record"@))
    ||| has_member(m, "type"@, JsonShape::Text("enum"@))
    ||| has_member(m, "type"@, JsonShape::Text("fixed"@))
}

fn has_text(members: &Vec<(String, JsonDoc)>, key: &str, value: &str) -> (r: bool)
    ensures
        r == has_member(
            JsonDoc::Object(*members).shape()->Object_0,
            key@,
            JsonShape::Text(value@),
        ),
{
    let ghost d = JsonDoc::Object(*members);
    let ghost m = d.shape()->Object_0;
    let mut i: usize = 0;
    while i < members.len()
        invariant
            i <= members.len(),
            d == JsonDoc::Object(*members),
            m == d.shape()->Object_0,
            forall|k: int| 0 <= k < i ==> #[trigger] m[k] != (key@, JsonShape::Text(value@)),
        decreases members.len() - i,
    {
        assert(m[i as int] == (members@[i as int].0@, members@[i as int].1.shape()));
        if text::same(members[i].0.as_str(), key) {
            match &members[i].1 {
                JsonDoc::Text(s) => {
                    if text::same(s.as_str(), value) {
                        return true;
                    }
                },
                _ => {},
            }
        }
        i = i + 1;
    }
    false
}

fn names_type(members: &Vec<(String, JsonDoc)>) -> (r: bool)
    ensures
        r == is_named_type(JsonDoc::Object(*members).shape()->Object_0),
{
    has_text(members, "type", "record") || has_text(members, "type", "enum") || has_text(
        members,
        "type",
        "fixed",
    )
}

/// The members of a schema that hold types.
pub open spec fn holds_types(key: Seq<char>) -> bool {
    ||| key == "type"@
    ||| key == "items"@
    ||| key == "values"@
    ||| key == "fields"@
}

fn has_types(key: &str) -> (r: bool)
    ensures
        r == holds_types(key@),
{
    text::same(key, "type") || text::same(key, "items") || text::same(key, "values") || text::same(
        key,
        "fields",
    )
}

/// Something in a schema has a default.
pub open spec fn has_default(t: JsonShape) -> bool
    decreases t,
{
    match t {
        JsonShape::List(l) => exists|i: int|
            #![trigger l[i]]
            0 <= i < l.len() && has_default(l[i]),
        JsonShape::Object(m) => exists|i: int|
            #![trigger m[i]]
            0 <= i < m.len() && (m[i].0 == "default"@ || holds_types(m[i].0) && has_default(
                m[i].1,
            )),
        _ => false,
    }
}

fn finds_default(d: &JsonDoc) -> (r: bool)
    ensures
        r == has_default(d.shape()),
    decreases d,
{
    match d {
        JsonDoc::List(items) => {
            let ghost l = d.shape()->List_0;
            let mut i: usize = 0;
            while i < items.len()
                invariant
                    i <= items.len(),
                    *d == JsonDoc::List(*items),
                    l == d.shape()->List_0,
                    forall|k: int| #![trigger l[k]] 0 <= k < i ==> !has_default(l[k]),
                decreases items.len() - i,
            {
                assert(l[i as int] == items@[i as int].shape());
                if finds_default(&items[i]) {
                    return true;
                }
                i = i + 1;
            }
            false
        },
        JsonDoc::Object(members) => {
            let ghost m = d.shape()->Object_0;
            let mut i: usize = 0;
            while i < members.len()
                invariant
                    i <= members.len(),
                    *d == JsonDoc::Object(*members),
                    m == d.shape()->Object_0,
                    forall|k: int|
                        #![trigger m[k]]
                        0 <= k < i ==> !(m[k].0 == "default"@ || holds_types(m[k].0)
                            && has_default(m[k].1)),
                decreases members.len() - i,
            {
                assert(m[i as int] == (members@[i as int].0@, members@[i as int].1.shape()));
                if text::same(members[i].0.as_str(), "default") {
                    return true;
                }
                if has_types(members[i].0.as_str()) && finds_default(&members[i].1) {
                    return true;
                }
                i = i + 1;
            }
            false
        },
        _ => false,
    }
}

/// The largest fixed value, in bytes.
pub const MAX_FIXED_BYTES: u64 = 0x7fff_ffff;

/// The largest fixed value, in bytes, in a schema with defaults: the precision of a
/// decimal of this size is computed with numbers of 32 bits.
pub const MAX_FIXED_BYTES_WITH_DEFAULTS: u64 = 0x0fff_ffff;

/// A member says that the type is a map.
pub open spec fn tells_map(key: Seq<char>, v: JsonShape) -> bool {
    key == "type"@ && match v {
        JsonShape::Text(s) => s == "map"@,
        JsonShape::Object(m) => has_member(m, "type"@, JsonShape::Text("map"@)),
        _ => false,
    }
}

/// The type of a field is a map.
pub open spec fn is_map(m: Seq<(Seq<char>, JsonShape)>) -> bool {
    exists|i: int| 0 <= i < m.len() && tells_map((#[trigger] m[i]).0, m[i].1)
}

fn has_map(members: &Vec<(String, JsonDoc)>) -> (r: bool)
    ensures
        r == is_map(JsonDoc::Object(*members).shape()->Object_0),
{
    let ghost d = JsonDoc::Object(*members);
    let ghost m = d.shape()->Object_0;
    let mut i: usize = 0;
    while i < members.len()
        invariant
            i <= members.len(),
            d == JsonDoc::Object(*members),
            m == d.shape()->Object_0,
            forall|k: int| 0 <= k < i ==> !tells_map((#[trigger] m[k]).0, m[k].1),
        decreases members.len() - i,
    {
        assert(m[i as int] == (members@[i as int].0@, members@[i as int].1.shape()));
        if text::same(members[i].0.as_str(), "type") {
            let found: bool = match &members[i].1 {
                JsonDoc::Text(s) => text::same(s.as_str(), "map"),
                JsonDoc::Object(inner) => {
                    assert(members@[i as int].1 == JsonDoc::Object(*inner));
                    has_text(inner, "type", "map")
                },
                _ => false,
            };
            if found {
                return true;
            }
        }
        i = i + 1;
    }
    false
}

/// A default that is compared with a type without a look into the type: a scalar or an
/// empty list, or an empty object where the type is a map.
pub open spec fn is_plain_default(m: Seq<(Seq<char>, JsonShape)>, v: JsonShape) -> bool {
    match v {
        JsonShape::List(l) => l.len() == 0,
        JsonShape::Object(o) => o.len() == 0 && is_map(m),
        _ => true,
    }
}

/// A member of a schema is sound: the names of types are allowed, fixed values fit
/// memory, and defaults are plain.
pub open spec fn is_sound_member(
    m: Seq<(Seq<char>, JsonShape)>,
    key: Seq<char>,
    v: JsonShape,
    max: u64,
) -> bool {
    &&& key == "name"@ && is_named_type(m) ==> (v matches JsonShape::Text(s) ==> is_avro_name(s))
    &&& key == "aliases"@ && is_named_type(m) ==> lists_names(v)
    &&& key == "size"@ ==> (v matches JsonShape::Number(Some(n)) ==> n <= max)
    &&& key == "default"@ ==> is_plain_default(m, v)
}

/// Everything in a schema is sound.
pub open spec fn is_sound(t: JsonShape, max: u64) -> bool
    decreases t,
{
    match t {
        JsonShape::List(l) => forall|i: int|
            #![trigger l[i]]
            0 <= i < l.len() ==> is_sound(l[i], max),
        JsonShape::Object(m) => forall|i: int|
            #![trigger m[i]]
            0 <= i < m.len() ==> is_sound_member(m, m[i].0, m[i].1, max) && (holds_types(m[i].0)
                ==> is_sound(m[i].1, max)),
        _ => true,
    }
}

fn has_sound_member(
    members: &Vec<(String, JsonDoc)>,
    key: &str,
    v: &JsonDoc,
    max: u64,
) -> (r: bool)
    ensures
        r == is_sound_member(
            JsonDoc::Object(*members).shape()->Object_0,
            key@,
            v.shape(),
            max,
        ),
{
    if text::same(key, "name") && names_type(members) {
        match v {
            JsonDoc::Text(s) => {
                if !has_avro_name(s.as_str()) {
                    return false;
                }
            },
            _ => {},
        }
    }
    if text::same(key, "aliases") && names_type(members) && !has_listed_names(v) {
        return false;
    }
    if text::same(key, "size") {
        match v {
            JsonDoc::Number(Some(n)) => {
                if *n > max {
                    return false;
                }
            },
            _ => {},
        }
    }
    if text::same(key, "default") {
        match v {
            JsonDoc::List(items) => {
                assert(v.shape()->List_0.len() == items.len());
                if items.len() > 0 {
                    return false;
                }
            },
            JsonDoc::Object(inner) => {
                assert(v.shape()->Object_0.len() == inner.len());
                if inner.len() > 0 || !has_map(members) {
                    return false;
                }
            },
            _ => {},
        }
    }
    true
}

/// Whether everything in a schema is sound.
fn has_sound_members(d: &JsonDoc, max: u64) -> (r: bool)
    ensures
        r == is_sound(d.shape(), max),
    decreases d,
{
    match d {
        JsonDoc::List(items) => {
            let ghost l = d.shape()->List_0;
            let mut i: usize = 0;
            while i < items.len()
                invariant
                    i <= items.len(),
                    *d == JsonDoc::List(*items),
                    l == d.shape()->List_0,
                    forall|k: int| #![trigger l[k]] 0 <= k < i ==> is_sound(l[k], max),
                decreases items.len() - i,
            {
                assert(l[i as int] == items@[i as int].shape());
                if !has_sound_members(&items[i], max) {
                    return false;
                }
                i = i + 1;
            }
            true
        },
        JsonDoc::Object(members) => {
            let ghost m = d.shape()->Object_0;
            let mut i: usize = 0;
            while i < members.len()
                invariant
                    i <= members.len(),
                    *d == JsonDoc::Object(*members),
                    m == d.shape()->Object_0,
                    forall|k: int|
                        #![trigger m[k]]
                        0 <= k < i ==> is_sound_member(m, m[k].0, m[k].1, max) && (holds_types(
                            m[k].0,
                        ) ==> is_sound(m[k].1, max)),
                decreases members.len() - i,
            {
                assert(m[i as int] == (members@[i as int].0@, members@[i as int].1.shape()));
                if !has_sound_member(members, members[i].0.as_str(), &members[i].1, max) {
                    return false;
                }
                if has_types(members[i].0.as_str()) && !has_sound_members(&members[i].1, max) {
                    return false;
                }
                i = i + 1;
            }
            true
        },
        _ => true,
    }
}

// ---------------------------------------------------------------------------
// Canonical forms
// ---------------------------------------------------------------------------

/// The members of a type whose values stand in its canonical form.
pub open spec fn stands_in_form(key: Seq<char>) -> bool {
    holds_types(key) || key == "symbols"@ || key == "order"@
}

/// The members of a type that are numbers in its canonical form.
pub open spec fn counts_in_form(key: Seq<char>) -> bool {
    key == "size"@ || key == "precision"@ || key == "scale"@
}

/// A type has a canonical form.
pub open spec fn is_canonical(t: JsonShape) -> bool
    decreases t,
{
    match t {
        JsonShape::Text(_) => true,
        JsonShape::List(l) => forall|i: int|
            #![trigger l[i]]
            0 <= i < l.len() ==> is_canonical(l[i]),
        JsonShape::Object(m) => forall|i: int|
            #![trigger m[i]]
            0 <= i < m.len() ==> {
                &&& m[i].0 == "name"@ ==> m[i].1 is Text
                &&& counts_in_form(m[i].0) ==> (m[i].1 matches JsonShape::Number(Some(n)) && n
                    <= i64::MAX)
                &&& stands_in_form(m[i].0) ==> is_canonical(m[i].1)
            },
        _ => false,
    }
}

fn has_form_member(key: &str, v: &JsonDoc) -> (r: bool)
    ensures
        r == ((key@ == "name"@ ==> v.shape() is Text) && (counts_in_form(key@) ==> (
        v.shape() matches JsonShape::Number(Some(n)) && n <= i64::MAX))),
{
    if text::same(key, "name") {
        match v {
            JsonDoc::Text(_) => {},
            _ => {
                return false;
            },
        }
    }
    if text::same(key, "size") || text::same(key, "precision") || text::same(key, "scale") {
        match v {
            JsonDoc::Number(Some(n)) => {
                if *n > 0x7fff_ffff_ffff_ffff {
                    return false;
                }
            },
            _ => {
                return false;
            },
        }
    }
    true
}

fn has_canonical_form(d: &JsonDoc) -> (r: bool)
    ensures
        r == is_canonical(d.shape()),
    decreases d,
{
    match d {
        JsonDoc::Text(_) => true,
        JsonDoc::List(items) => {
            let ghost l = d.shape()->List_0;
            let mut i: usize = 0;
            while i < items.len()
                invariant
                    i <= items.len(),
                    *d == JsonDoc::List(*items),
                    l == d.shape()->List_0,
                    forall|k: int| #![trigger l[k]] 0 <= k < i ==> is_canonical(l[k]),
                decreases items.len() - i,
            {
                assert(l[i as int] == items@[i as int].shape());
                if !has_canonical_form(&items[i]) {
                    return false;
                }
                i = i + 1;
            }
            true
        },
        JsonDoc::Object(members) => {
            let ghost m = d.shape()->Object_0;
            let mut i: usize = 0;
            while i < members.len()
                invariant
                    i <= members.len(),
                    *d == JsonDoc::Object(*members),
                    m == d.shape()->Object_0,
                    forall|k: int|
                        #![trigger m[k]]
                        0 <= k < i ==> {
                            &&& m[k].0 == "name"@ ==> m[k].1 is Text
                            &&& counts_in_form(m[k].0) ==> (m[k].1 matches JsonShape::Number(
                                Some(n),
                            ) && n <= i64::MAX)
                            &&& stands_in_form(m[k].0) ==> is_canonical(m[k].1)
                        },
                decreases members.len() - i,
            {
                assert(m[i as int] == (members@[i as int].0@, members@[i as int].1.shape()));
                let key: &str = members[i].0.as_str();
                if !has_form_member(key, &members[i].1) {
                    return false;
                }
                let stands: bool = has_types(key) || text::same(key, "symbols") || text::same(
                    key,
                    "order",
                );
                if stands && !has_canonical_form(&members[i].1) {
                    return false;
                }
                i = i + 1;
            }
            true
        },
        _ => false,
    }
}

// ---------------------------------------------------------------------------
// Types within types
// ---------------------------------------------------------------------------

/// The types that have no name of their own.
pub open spec fn is_primitive(s: Seq<char>) -> bool {
    ||| s == "null"@
    ||| s == "boolean"@
    ||| s == "int"@
    ||| s == "long"@
    ||| s == "float"@
    ||| s == "double"@
    ||| s == "bytes"@
    ||| s == "string"@
}

fn names_primitive(s: &str) -> (r: bool)
    ensures
        r == is_primitive(s@),
{
    text::same(s, "null") || text::same(s, "boolean") || text::same(s, "int") || text::same(
        s,
        "long",
    ) || text::same(s, "float") || text::same(s, "double") || text::same(s, "bytes")
        || text::same(s, "string")
}

/// An object is the schema of a record.
pub open spec fn is_record(m: Seq<(Seq<char>, JsonShape)>) -> bool {
    has_member(m, "type"@, JsonShape::Text("record"@))
}

/// The last part of a name.
pub open spec fn base_name(s: Seq<char>) -> Seq<char> {
    text::pieces(s, '.').last()
}

/// The names in a list.
pub open spec fn listed_names(l: Seq<JsonShape>) -> Seq<Seq<char>>
    decreases l.len(),
{
    if l.len() == 0 {
        Seq::empty()
    } else {
        let before = listed_names(l.drop_last());
        match l.last() {
            JsonShape::Text(s) => before.push(base_name(s)),
            _ => before,
        }
    }
}

/// The names that the members of a schema give it, its aliases among them.
pub open spec fn given_names(m: Seq<(Seq<char>, JsonShape)>) -> Seq<Seq<char>>
    decreases m.len(),
{
    if m.len() == 0 {
        Seq::empty()
    } else {
        let before = given_names(m.drop_last());
        match m.last() {
            (key, JsonShape::Text(s)) => if key == "name"@ {
                before.push(base_name(s))
            } else {
                before
            },
            (key, JsonShape::List(l)) => if key == "aliases"@ {
                before + listed_names(l)
            } else {
                before
            },
            _ => before,
        }
    }
}

/// The records that are open within an object.
pub open spec fn opened(m: Seq<(Seq<char>, JsonShape)>, open: Seq<Seq<char>>) -> Seq<Seq<char>> {
    if is_record(m) {
        open + given_names(m)
    } else {
        open
    }
}

/// No record in a schema contains itself, given the records that it stands in. A
/// record is known by the last part of its name and of its aliases.
pub open spec fn is_finite(t: JsonShape, open: Seq<Seq<char>>) -> bool
    decreases t,
{
    match t {
        JsonShape::Text(s) => is_primitive(s) || !open.contains(base_name(s)),
        JsonShape::List(l) => forall|i: int|
            #![trigger l[i]]
            0 <= i < l.len() ==> is_finite(l[i], open),
        JsonShape::Object(m) => forall|i: int|
            #![trigger m[i]]
            0 <= i < m.len() && holds_types(m[i].0) ==> is_finite(m[i].1, opened(m, open)),
        _ => true,
    }
}

/// Adds the names in a list.
fn add_listed_names(v: &JsonDoc, names: &mut Vec<String>)
    requires
        v is List,
    ensures
        text::texts(final(names)@) == text::texts(old(names)@) + listed_names(v.shape()->List_0),
{
    match v {
        JsonDoc::List(items) => {
            let ghost l = v.shape()->List_0;
            let ghost had = text::texts(names@);
            let mut i: usize = 0;
            assert(l.take(0) =~= Seq::<JsonShape>::empty());
            assert(had + listed_names(l.take(0)) =~= had);
            while i < items.len()
                invariant
                    i <= items.len(),
                    *v == JsonDoc::List(*items),
                    l == v.shape()->List_0,
                    text::texts(names@) == had + listed_names(l.take(i as int)),
                decreases items.len() - i,
            {
                let ghost before = names@;
                assert(l[i as int] == items@[i as int].shape());
                assert(l.take(i + 1).drop_last() =~= l.take(i as int));
                match &items[i] {
                    JsonDoc::Text(s) => {
                        let base: String = text::last_piece(s.as_str(), '.');
                        names.push(base);
                        assert(text::texts(names@) =~= text::texts(before).push(base@));
                    },
                    _ => {},
                }
                assert(text::texts(names@) =~= had + listed_names(l.take(i + 1)));
                i = i + 1;
            }
            assert(l.take(i as int) =~= l);
        },
        _ => {},
    }
}

fn open_names(members: &Vec<(String, JsonDoc)>, open: &Vec<String>) -> (r: Vec<String>)
    ensures
        text::texts(r@) == opened(
            JsonDoc::Object(*members).shape()->Object_0,
            text::texts(open@),
        ),
{
    let ghost d = JsonDoc::Object(*members);
    let ghost m = d.shape()->Object_0;
    let mut r: Vec<String> = Vec::new();
    let mut i: usize = 0;
    while i < open.len()
        invariant
            i <= open.len(),
            text::texts(r@) == text::texts(open@).take(i as int),
        decreases open.len() - i,
    {
        let ghost before = r@;
        let name: String = open[i].clone();
        r.push(name);
        proof {
            assert(text::texts(r@) =~= text::texts(before).push(name@));
            assert(text::texts(open@)[i as int] == name@);
            assert(text::texts(r@) =~= text::texts(open@).take(i + 1));
        }
        i = i + 1;
    }
    assert(text::texts(open@).take(i as int) =~= text::texts(open@));
    if !has_text(members, "type", "record") {
        return r;
    }
    let mut k: usize = 0;
    assert(m.take(0) =~= Seq::empty());
    assert(text::texts(r@) =~= text::texts(open@) + given_names(m.take(0)));
    while k < members.len()
        invariant
            k <= members.len(),
            d == JsonDoc::Object(*members),
            m == d.shape()->Object_0,
            text::texts(r@) == text::texts(open@) + given_names(m.take(k as int)),
        decreases members.len() - k,
    {
        let ghost before = r@;
        let ghost next = m.take(k + 1);
        assert(m[k as int] == (members@[k as int].0@, members@[k as int].1.shape()));
        assert(next.drop_last() =~= m.take(k as int));
        match &members[k].1 {
            JsonDoc::Text(s) => {
                if text::same(members[k].0.as_str(), "name") {
                    let base: String = text::last_piece(s.as_str(), '.');
                    r.push(base);
                    assert(text::texts(r@) =~= text::texts(before).push(base@));
                }
            },
            JsonDoc::List(_) => {
                if text::same(members[k].0.as_str(), "aliases") {
                    add_listed_names(&members[k].1, &mut r);
                }
            },
            _ => {},
        }
        assert(text::texts(r@) =~= text::texts(open@) + given_names(next));
        k = k + 1;
    }
    assert(m.take(k as int) =~= m);
    r
}

/// Whether no record in a schema contains itself, given the records that it
/// stands in.
pub fn can_be_read(d: &JsonDoc, open: &Vec<String>) -> (r: bool)
    ensures
        r == is_finite(d.shape(), text::texts(open@)),
    decreases d,
{
    match d {
        JsonDoc::Text(s) => {
            if names_primitive(s.as_str()) {
                true
            } else {
                let base: String = text::last_piece(s.as_str(), '.');
                !text::list_has(open, base.as_str())
            }
        },
        JsonDoc::List(items) => {
            let ghost l = d.shape()->List_0;
            let mut i: usize = 0;
            while i < items.len()
                invariant
                    i <= items.len(),
                    *d == JsonDoc::List(*items),
                    l == d.shape()->List_0,
                    forall|k: int|
                        #![trigger l[k]]
                        0 <= k < i ==> is_finite(l[k], text::texts(open@)),
                decreases items.len() - i,
            {
                assert(l[i as int] == items@[i as int].shape());
                if !can_be_read(&items[i], open) {
                    return false;
                }
                i = i + 1;
            }
            true
        },
        JsonDoc::Object(members) => {
            let ghost m = d.shape()->Object_0;
            let inner: Vec<String> = open_names(members, open);
            let mut i: usize = 0;
            while i < members.len()
                invariant
                    i <= members.len(),
                    *d == JsonDoc::Object(*members),
                    m == d.shape()->Object_0,
                    text::texts(inner@) == opened(m, text::texts(open@)),
                    forall|k: int|
                        #![trigger m[k]]
                        0 <= k < i && holds_types(m[k].0) ==> is_finite(
                            m[k].1,
                            opened(m, text::texts(open@)),
                        ),
                decreases members.len() - i,
            {
                assert(m[i as int] == (members@[i as int].0@, members@[i as int].1.shape()));
                if has_types(members[i].0.as_str()) && !can_be_read(&members[i].1, &inner) {
                    return false;
                }
                i = i + 1;
            }
            true
        },
        _ => true,
    }
}

// ---------------------------------------------------------------------------
// The header of a file
// ---------------------------------------------------------------------------

/// The number of bytes that a count or a length has at most.
pub const MAX_NUMBER_BYTES: usize = 10;

/// A number in groups of seven bits, the lowest first, and the place behind it.
/// `k` bytes of it were read before. Of the last group only what fits 64 bits counts.
pub open spec fn groups_at(b: Seq<u8>, at: int, k: int) -> Option<(nat, int)>
    decreases MAX_NUMBER_BYTES - k,
{
    if k >= MAX_NUMBER_BYTES || !(0 <= at < b.len()) {
        None
    } else if b[at] < 128 {
        Some((b[at] as nat, at + 1))
    } else {
        match groups_at(b, at + 1, k + 1) {
            Some((rest, next)) => Some(
                ((b[at] - 128 + 128 * (rest % 0x200_0000_0000_0000)) as nat, next),
            ),
            None => None,
        }
    }
}

/// A signed number, by which even codes stand for the numbers from zero on and odd
/// codes for those below.
pub open spec fn signed(code: nat) -> int {
    if code % 2 == 0 {
        code as int / 2
    } else {
        -(code as int / 2) - 1
    }
}

/// A signed number and the place behind it.
pub open spec fn number_at(b: Seq<u8>, at: int) -> Option<(int, int)> {
    match groups_at(b, at, 0) {
        Some((code, next)) => Some((signed(code), next)),
        None => None,
    }
}

/// A run of bytes with its length before it, and the place behind it.
pub open spec fn bytes_at(b: Seq<u8>, at: int) -> Option<(Seq<u8>, int)> {
    match number_at(b, at) {
        Some((n, next)) => if 0 <= n <= b.len() - next {
            Some((b.subrange(next, next + n), next + n))
        } else {
            None
        },
        None => None,
    }
}

/// The key under which the header holds the schema: `avro.schema`.
pub open spec fn schema_key() -> Seq<u8> {
    seq![97u8, 118u8, 114u8, 111u8, 46u8, 115u8, 99u8, 104u8, 101u8, 109u8, 97u8]
}

/// What the rest of the header says: nothing where it is malformed, else the
/// schema, if it holds one. `left` entries of a block are still to come, and
/// `found` is the schema among those before.
pub open spec fn rest_of_header(
    b: Seq<u8>,
    at: int,
    left: int,
    found: Option<Seq<u8>>,
) -> Option<Option<Seq<u8>>>
    decreases b.len() - at,
    via rest_of_header_ends
{
    if !(0 <= at <= b.len()) {
        None
    } else if left > 0 {
        match bytes_at(b, at) {
            Some((key, middle)) => match bytes_at(b, middle) {
                Some((value, next)) => rest_of_header(
                    b,
                    next,
                    left - 1,
                    if key == schema_key() {
                        Some(value)
                    } else {
                        found
                    },
                ),
                None => None,
            },
            None => None,
        }
    } else {
        match number_at(b, at) {
            Some((n, next)) => if n == 0 {
                Some(found)
            } else if 0 < n <= b.len() {
                rest_of_header(b, next, n, found)
            } else if n < 0 && -n <= b.len() {
                match number_at(b, next) {
                    Some((_, behind)) => rest_of_header(b, behind, -n, found),
                    None => None,
                }
            } else {
                None
            },
            None => None,
        }
    }
}

proof fn lemma_groups(b: Seq<u8>, at: int, k: int)
    ensures
        groups_at(b, at, k) matches Some((_, next)) ==> 0 <= at < next <= b.len(),
    decreases MAX_NUMBER_BYTES - k,
{
    if k < MAX_NUMBER_BYTES && 0 <= at < b.len() && b[at] >= 128 {
        lemma_groups(b, at + 1, k + 1);
    }
}

#[via_fn]
proof fn rest_of_header_ends(b: Seq<u8>, at: int, left: int, found: Option<Seq<u8>>) {
    lemma_groups(b, at, 0);
    if let Some((n, next)) = number_at(b, at) {
        lemma_groups(b, next, 0);
    }
    if let Some((_, middle)) = bytes_at(b, at) {
        lemma_groups(b, middle, 0);
    }
}

/// What the header of a container file says: nothing where it is malformed, else
/// the schema of the file, if it holds one.
pub open spec fn header_of(b: Seq<u8>) -> Option<Option<Seq<u8>>> {
    if b.len() >= 4 && b[0] == 79 && b[1] == 98 && b[2] == 106 && b[3] == 1 {
        rest_of_header(b, 4, 0, None)
    } else {
        None
    }
}

/// A schema that is handed to the reader: one that is sound and in which no record
/// contains itself. Where something has a default, every type has a canonical form.
pub open spec fn is_read(t: JsonShape) -> bool {
    &&& is_finite(t, Seq::empty())
    &&& if has_default(t) {
        is_canonical(t) && is_sound(t, MAX_FIXED_BYTES_WITH_DEFAULTS)
    } else {
        is_sound(t, MAX_FIXED_BYTES)
    }
}

/// A file that is handed to the reader: one whose header is well formed and whose
/// schema, where it is a JSON document, can be read.
pub open spec fn is_readable(b: Seq<u8>) -> bool {
    match header_of(b) {
        None => false,
        Some(None) => true,
        Some(Some(schema)) => json_of(schema) matches Some(t) ==> is_read(t),
    }
}

fn read_groups(b: &[u8], at: usize, k: usize) -> (r: Option<(u64, usize)>)
    requires
        k <= MAX_NUMBER_BYTES,
    ensures
        match r {
            Some((code, next)) => groups_at(b@, at as int, k as int) == Some(
                (code as nat, next as int),
            ),
            None => groups_at(b@, at as int, k as int) is None,
        },
        r matches Some((code, next)) ==> at < next <= b@.len(),
    decreases MAX_NUMBER_BYTES - k,
{
    if k >= MAX_NUMBER_BYTES || at >= b.len() {
        return None;
    }
    let byte: u8 = b[at];
    if byte < 128 {
        return Some((byte as u64, at + 1));
    }
    match read_groups(b, at + 1, k + 1) {
        Some((rest, next)) => Some(
            ((byte - 128) as u64 + 128 * (rest % 0x200_0000_0000_0000), next),
        ),
        None => None,
    }
}

fn read_number(b: &[u8], at: usize) -> (r: Option<(i64, usize)>)
    ensures
        match r {
            Some((n, next)) => number_at(b@, at as int) == Some((n as int, next as int)) && at < next
                <= b@.len(),
            None => number_at(b@, at as int) is None,
        },
{
    match read_groups(b, at, 0) {
        Some((code, next)) => {
            let half: i64 = (code / 2) as i64;
            if code % 2 == 0 {
                Some((half, next))
            } else {
                Some((-half - 1, next))
            }
        },
        None => None,
    }
}

/// Where a run of bytes begins and ends.
fn read_run(b: &[u8], at: usize) -> (r: Option<(usize, usize)>)
    ensures
        match r {
            Some((from, to)) => at < from <= to <= b@.len() && bytes_at(b@, at as int) == Some(
                (b@.subrange(from as int, to as int), to as int),
            ),
            None => bytes_at(b@, at as int) is None,
        },
{
    match read_number(b, at) {
        Some((n, next)) => {
            let left: usize = b.len() - next;
            if n < 0 || n as u64 > left as u64 {
                return None;
            }
            let to: usize = next + n as usize;
            Some((next, to))
        },
        None => None,
    }
}

fn is_schema_key(b: &[u8], from: usize, to: usize) -> (r: bool)
    requires
        from <= to <= b@.len(),
    ensures
        r == (b@.subrange(from as int, to as int) == schema_key()),
{
    let key: Vec<u8> = vec![97, 118, 114, 111, 46, 115, 99, 104, 101, 109, 97];
    assert(key@ =~= schema_key());
    let ghost run = b@.subrange(from as int, to as int);
    if to - from != key.len() {
        return false;
    }
    let mut i: usize = 0;
    while i < key.len()
        invariant
            i <= key.len(),
            key@ == schema_key(),
            from + key.len() == to,
            to <= b@.len(),
            run == b@.subrange(from as int, to as int),
            forall|k: int| 0 <= k < i ==> run[k] == #[trigger] key@[k],
        decreases key.len() - i,
    {
        if b[from + i] != key[i] {
            assert(run[i as int] != key@[i as int]);
            return false;
        }
        i = i + 1;
    }
    assert(run =~= schema_key());
    true
}

/// Where the schema in the header of a file begins and ends. `None` where the
/// header is malformed.
fn find_schema(b: &[u8]) -> (r: Option<Option<(usize, usize)>>)
    ensures
        match r {
            None => header_of(b@) is None,
            Some(None) => header_of(b@) == Some(None::<Seq<u8>>),
            Some(Some((from, to))) => from <= to <= b@.len() && header_of(b@) == Some(
                Some(b@.subrange(from as int, to as int)),
            ),
        },
{
    if b.len() < 4 || b[0] != 79 || b[1] != 98 || b[2] != 106 || b[3] != 1 {
        return None;
    }
    let len: usize = b.len();
    let mut at: usize = 4;
    let mut left: u64 = 0;
    let mut found: Option<(usize, usize)> = None;
    let ghost mut value: Option<Seq<u8>> = None;
    loop
        invariant
            len == b@.len(),
            4 <= at <= len,
            header_of(b@) == rest_of_header(b@, at as int, left as int, value),
            match (found, value) {
                (None, None) => true,
                (Some((from, to)), Some(v)) => from <= to <= b@.len() && v == b@.subrange(
                    from as int,
                    to as int,
                ),
                _ => false,
            },
        decreases len - at,
    {
        if left > 0 {
            let (key_from, key_to) = match read_run(b, at) {
                Some(run) => run,
                None => {
                    return None;
                },
            };
            let (from, to) = match read_run(b, key_to) {
                Some(run) => run,
                None => {
                    return None;
                },
            };
            if is_schema_key(b, key_from, key_to) {
                found = Some((from, to));
                proof {
                    value = Some(b@.subrange(from as int, to as int));
                }
            }
            left = left - 1;
            at = to;
        } else {
            let (n, next) = match read_number(b, at) {
                Some(number) => number,
                None => {
                    return None;
                },
            };
            if n == 0 {
                return Some(found);
            }
            if n > 0 {
                if n as u64 > len as u64 {
                    return None;
                }
                left = n as u64;
                at = next;
            } else {
                let count: u64 = (-(n + 1)) as u64 + 1;
                if count > len as u64 {
                    return None;
                }
                match read_number(b, next) {
                    Some((_, behind)) => {
                        left = count;
                        at = behind;
                    },
                    None => {
                        return None;
                    },
                }
            }
        }
    }
}

/// Whether a file can be handed to the reader.
pub fn can_be_opened(b: &[u8]) -> (r: bool)
    ensures
        r == is_readable(b@),
{
    match find_schema(b) {
        None => false,
        Some(None) => true,
        Some(Some((from, to))) => {
            let schema: &[u8] = vstd::slice::slice_subrange(b, from, to);
            match parse_json(schema) {
                Some(d) => {
                    let none: Vec<String> = Vec::new();
                    assert(text::texts(none@) =~= Seq::<Seq<char>>::empty());
                    if !can_be_read(&d, &none) {
                        false
                    } else if finds_default(&d) {
                        has_canonical_form(&d) && has_sound_members(
                            &d,
                            MAX_FIXED_BYTES_WITH_DEFAULTS,
                        )
                    } else {
                        has_sound_members(&d, MAX_FIXED_BYTES)
                    }
                },
                None => true,
            }
        },
    }
}

} // verus!
