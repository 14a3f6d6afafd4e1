use vstd::prelude::*;
use vstd::string::*;

use crate::bootstrap::SchemaError;

verus! {

/// Lets `serde_json::Number` stand in fields; numbers are carried, not read.
#[verifier::external_type_specification]
#[verifier::external_body]
pub struct ExJsonNumber(serde_json::Number);

/// Nesting deeper than this is refused; serde_json's own parser refuses
/// documents nested 128 levels deep.
pub const MAX_JSON_DEPTH: usize = 256;

/// A JSON document as the library reads it. Object entries keep the order
/// in which the parser gave them.
#[derive(Debug, PartialEq)]
pub enum Json {
    Null,
    Bool(bool),
    Number(serde_json::Number),
    Str(String),
    Array(Vec<Json>),
    Object(Vec<(String, Json)>),
}

/// The mathematical model of a JSON document.
pub enum JsonView {
    Null,
    Bool(bool),
    Number(serde_json::Number),
    Str(Seq<char>),
    Array(Seq<JsonView>),
    Object(Seq<(Seq<char>, JsonView)>),
}

impl View for Json {
    type V = JsonView;

    open spec fn view(&self) -> JsonView
        decreases self,
    {
        match self {
            Json::Null => JsonView::Null,
            Json::Bool(b) => JsonView::Bool(*b),
            Json::Number(n) => JsonView::Number(*n),
            Json::Str(s) => JsonView::Str(s@),
            Json::Array(v) => JsonView::Array(items_view(v@)),
            Json::Object(v) => JsonView::Object(members_view(v@)),
        }
    }
}

/// The model of an array's items.
pub open spec fn items_view(v: Seq<Json>) -> Seq<JsonView>
    decreases v,
{
    Seq::new(
        v.len(),
        |i: int|
            if 0 <= i < v.len() {
                v[i]@
            } else {
                JsonView::Null
            },
    )
}

/// The model of an object's members.
pub open spec fn members_view(v: Seq<(String, Json)>) -> Seq<(Seq<char>, JsonView)>
    decreases v,
{
    Seq::new(
        v.len(),
        |i: int|
            if 0 <= i < v.len() {
                (v[i].0@, v[i].1@)
            } else {
                (Seq::empty(), JsonView::Null)
            },
    )
}

/// Why a JSON text could not be read.
#[derive(Debug, PartialEq, Eq)]
pub enum JsonError {
    /// serde_json refused the text; its message.
    Syntax { message: String },
    /// The document nests deeper than `MAX_JSON_DEPTH`.
    TooDeep,
}

/// Why a JSON document was refused by a schema.
#[derive(Debug, PartialEq, Eq)]
pub enum DecodeError {
    /// The text is not a JSON document.
    Json(JsonError),
    /// A value has another JSON type than the schema calls for.
    UnexpectedShape,
    /// An object holds a member the schema does not know.
    UnknownField { name: String },
    /// A value breaks one of the schema's rules.
    Invalid(SchemaError),
    /// The named member holds an empty list where one item at least is
    /// needed.
    EmptyList { name: String },
}

/// What `serde_json::from_str` reads from a text, as a document; `None`
/// when it refuses the text.
pub uninterp spec fn json_document(text: Seq<char>) -> Option<JsonView>;

/// What a `serde_json::Value` holds, object members in the order its map
/// gives them out.
pub uninterp spec fn json_view(v: serde_json::Value) -> JsonView;

/// The object that `serde_json::Map` builds from these members.
pub uninterp spec fn json_object_of(members: Seq<(Seq<char>, JsonView)>) -> JsonView;

/// The text that `serde_json::to_string` writes for a value holding `v`.
pub uninterp spec fn json_text(v: JsonView) -> Seq<char>;

/// `j` nests arrays and objects at most `depth` levels deep.
pub open spec fn json_within(j: JsonView, depth: nat) -> bool
    decreases j,
{
    match j {
        JsonView::Array(a) => depth > 0 && items_within(a, (depth - 1) as nat),
        JsonView::Object(m) => depth > 0 && members_within(m, (depth - 1) as nat),
        _ => true,
    }
}

/// Every item of `a` nests at most `depth` levels deep.
pub open spec fn items_within(a: Seq<JsonView>, depth: nat) -> bool
    decreases a,
{
    if a.len() == 0 {
        true
    } else {
        items_within(a.subrange(0, a.len() - 1), depth) && json_within(a[a.len() - 1], depth)
    }
}

/// Every member value of `m` nests at most `depth` levels deep.
pub open spec fn members_within(m: Seq<(Seq<char>, JsonView)>, depth: nat) -> bool
    decreases m,
{
    if m.len() == 0 {
        true
    } else {
        members_within(m.subrange(0, m.len() - 1), depth) && json_within(m[m.len() - 1].1, depth)
    }
}

proof fn lemma_items_within_extends(a: Seq<JsonView>, depth: nat, i: int)
    requires
        0 <= i <= a.len(),
        !items_within(a.take(i), depth),
    ensures
        !items_within(a, depth),
    decreases a.len() - i,
{
    if i < a.len() {
        assert(a.take(i + 1).subrange(0, i) =~= a.take(i));
        lemma_items_within_extends(a, depth, i + 1);
    } else {
        assert(a.take(i) =~= a);
    }
}

proof fn lemma_members_within_extends(m: Seq<(Seq<char>, JsonView)>, depth: nat, i: int)
    requires
        0 <= i <= m.len(),
        !members_within(m.take(i), depth),
    ensures
        !members_within(m, depth),
    decreases m.len() - i,
{
    if i < m.len() {
        assert(m.take(i + 1).subrange(0, i) =~= m.take(i));
        lemma_members_within_extends(m, depth, i + 1);
    } else {
        assert(m.take(i) =~= m);
    }
}

/// What a `serde_json::Value` built from `j` level by level holds: objects
/// are whatever `serde_json::Map` makes of their members.
pub open spec fn json_rebuilt(j: JsonView) -> JsonView
    decreases j,
{
    match j {
        JsonView::Array(a) => JsonView::Array(rebuilt_items(a)),
        JsonView::Object(m) => json_object_of(rebuilt_members(m)),
        _ => j,
    }
}

/// The items of an array, each rebuilt.
pub open spec fn rebuilt_items(a: Seq<JsonView>) -> Seq<JsonView>
    decreases a,
{
    Seq::new(
        a.len(),
        |i: int|
            if 0 <= i < a.len() {
                json_rebuilt(a[i])
            } else {
                JsonView::Null
            },
    )
}

/// The members of an object, each value rebuilt.
pub open spec fn rebuilt_members(m: Seq<(Seq<char>, JsonView)>) -> Seq<(Seq<char>, JsonView)>
    decreases m,
{
    Seq::new(
        m.len(),
        |i: int|
            if 0 <= i < m.len() {
                (m[i].0, json_rebuilt(m[i].1))
            } else {
                (Seq::empty(), JsonView::Null)
            },
    )
}

/// One level of a `serde_json::Value`.
enum JsonNode {
    Null,
    Bool(bool),
    Number(serde_json::Number),
    Str(String),
    Array(Vec<serde_json::Value>),
    Object(Vec<(String, serde_json::Value)>),
}

/// What the values of `v` hold, in order.
pub open spec fn values_view(v: Seq<serde_json::Value>) -> Seq<JsonView> {
    v.map_values(|x: serde_json::Value| json_view(x))
}

/// What the members of `v` hold, in order.
pub open spec fn value_members_view(v: Seq<(String, serde_json::Value)>) -> Seq<(Seq<char>, JsonView)> {
    v.map_values(|e: (String, serde_json::Value)| (e.0@, json_view(e.1)))
}

/// Relies on `serde_json::from_str` to parse JSON text into a
/// `serde_json::Value`; the error is kept as its message.
#[verifier::external_body]
fn parse_value(text: &str) -> (r: Result<serde_json::Value, String>)
    ensures
        r matches Ok(v) ==> json_document(text@) == Some(json_view(v)),
        r is Err <==> json_document(text@) is None,
{
    serde_json::from_str::<serde_json::Value>(text).map_err(|e| e.to_string())
}

/// Relies on `serde_json::to_string` to render a `serde_json::Value` as
/// JSON text. It does not fail on a `Value`: its documentation names only a
/// failing `Serialize` impl and maps with keys that are not strings.
#[verifier::external_body]
fn render_value(v: &serde_json::Value) -> (r: String)
    ensures
        r@ == json_text(json_view(*v)),
{
    serde_json::to_string(v).unwrap_or_default()
}

/// Relies on the variants of `serde_json::Value` and on `serde_json::Map`'s
/// `IntoIterator` to open one level of a value.
#[verifier::external_body]
fn open_value(v: serde_json::Value) -> (r: JsonNode)
    ensures
        json_view(v) is Null ==> r is Null,
        json_view(v) is Bool ==> r is Bool && json_view(v) == JsonView::Bool(r->Bool_0),
        json_view(v) is Number ==> r is Number && json_view(v) == JsonView::Number(r->Number_0),
        json_view(v) is Str ==> r is Str && json_view(v) == JsonView::Str(r->Str_0@),
        json_view(v) is Array ==> r is Array && json_view(v) == JsonView::Array(values_view(r->Array_0@)),
        json_view(v) is Object ==> r is Object && json_view(v) == JsonView::Object(value_members_view(r->Object_0@)),
{
    match v {
        serde_json::Value::Null => JsonNode::Null,
        serde_json::Value::Bool(b) => JsonNode::Bool(b),
        serde_json::Value::Number(n) => JsonNode::Number(n),
        serde_json::Value::String(s) => JsonNode::Str(s),
        serde_json::Value::Array(a) => JsonNode::Array(a),
        serde_json::Value::Object(m) => JsonNode::Object(m.into_iter().collect()),
    }
}

/// Relies on the variants of `serde_json::Value` and on `serde_json::Map`'s
/// `FromIterator` to build one level of a value.
#[verifier::external_body]
fn close_value(node: JsonNode) -> (r: serde_json::Value)
    ensures
        node is Null ==> json_view(r) == JsonView::Null,
        node matches JsonNode::Bool(b) ==> json_view(r) == JsonView::Bool(b),
        node matches JsonNode::Number(n) ==> json_view(r) == JsonView::Number(n),
        node matches JsonNode::Str(s) ==> json_view(r) == JsonView::Str(s@),
        node matches JsonNode::Array(a) ==> json_view(r) == JsonView::Array(values_view(a@)),
        node matches JsonNode::Object(m) ==> json_view(r) == json_object_of(value_members_view(m@)),
{
    match node {
        JsonNode::Null => serde_json::Value::Null,
        JsonNode::Bool(b) => serde_json::Value::Bool(b),
        JsonNode::Number(n) => serde_json::Value::Number(n),
        JsonNode::Str(s) => serde_json::Value::String(s),
        JsonNode::Array(a) => serde_json::Value::Array(a),
        JsonNode::Object(m) => serde_json::Value::Object(m.into_iter().collect()),
    }
}

/// Reads a `serde_json::Value` into a `Json`; `None` when it nests deeper
/// than `depth`.
fn json_of_value(v: serde_json::Value, depth: usize) -> (r: Option<Json>)
    ensures
        r matches Some(j) ==> j@ == json_view(v),
        r is None <==> !json_within(json_view(v), depth as nat),
    decreases depth,
{
    let ghost jv = json_view(v);
    match open_value(v) {
        JsonNode::Null => Some(Json::Null),
        JsonNode::Bool(b) => Some(Json::Bool(b)),
        JsonNode::Number(n) => Some(Json::Number(n)),
        JsonNode::Str(s) => Some(Json::Str(s)),
        JsonNode::Array(mut items) => {
            let ghost a = values_view(items@);
            if depth == 0 {
                return None;
            }
            let ghost i0 = items@;
            let mut out: Vec<Json> = Vec::new();
            let n = items.len();
            let mut i: usize = 0;
            while i < n
                invariant
                    jv == json_view(v),
                    jv == JsonView::Array(a),
                    a == values_view(i0),
                    n == i0.len(),
                    i <= n,
                    items@ == i0.subrange(i as int, n as int),
                    0 < depth,
                    items_view(out@) == a.take(i as int),
                    items_within(a.take(i as int), (depth - 1) as nat),
                decreases n - i,
            {
                assert(items@[0] == i0[i as int]);
                let x = items.remove(0);
                assert(a[i as int] == json_view(x));
                match json_of_value(x, depth - 1) {
                    Some(j) => {
                        let ghost before = items_view(out@);
                        out.push(j);
                        assert(items_view(out@) =~= before.push(a[i as int]));
                        assert(a.take(i + 1) =~= a.take(i as int).push(a[i as int]));
                        assert(a.take(i + 1).subrange(0, i as int) =~= a.take(i as int));
                    },
                    None => {
                        assert(a.take(i + 1).subrange(0, i as int) =~= a.take(i as int));
                        proof {
                            lemma_items_within_extends(a, (depth - 1) as nat, i + 1);
                        }
                        return None;
                    },
                }
                i = i + 1;
            }
            assert(a.take(n as int) =~= a);
            Some(Json::Array(out))
        },
        JsonNode::Object(mut members) => {
            let ghost m = value_members_view(members@);
            if depth == 0 {
                return None;
            }
            let ghost m0 = members@;
            let mut out: Vec<(String, Json)> = Vec::new();
            let n = members.len();
            let mut i: usize = 0;
            while i < n
                invariant
                    jv == json_view(v),
                    jv == JsonView::Object(m),
                    m == value_members_view(m0),
                    n == m0.len(),
                    i <= n,
                    members@ == m0.subrange(i as int, n as int),
                    0 < depth,
                    members_view(out@) == m.take(i as int),
                    members_within(m.take(i as int), (depth - 1) as nat),
                decreases n - i,
            {
                assert(members@[0] == m0[i as int]);
                let (k, x) = members.remove(0);
                assert(m[i as int] == (k@, json_view(x)));
                match json_of_value(x, depth - 1) {
                    Some(j) => {
                        let ghost before = members_view(out@);
                        out.push((k, j));
                        assert(members_view(out@) =~= before.push(m[i as int]));
                        assert(m.take(i + 1) =~= m.take(i as int).push(m[i as int]));
                        assert(m.take(i + 1).subrange(0, i as int) =~= m.take(i as int));
                    },
                    None => {
                        assert(m.take(i + 1).subrange(0, i as int) =~= m.take(i as int));
                        proof {
                            lemma_members_within_extends(m, (depth - 1) as nat, i + 1);
                        }
                        return None;
                    },
                }
                i = i + 1;
            }
            assert(m.take(n as int) =~= m);
            Some(Json::Object(out))
        },
    }
}

/// Builds the `serde_json::Value` of a `Json`.
fn value_of_json(j: Json) -> (r: serde_json::Value)
    ensures
        json_view(r) == json_rebuilt(j@),
    decreases j@,
{
    let ghost jv = j@;
    match j {
        Json::Null => close_value(JsonNode::Null),
        Json::Bool(b) => close_value(JsonNode::Bool(b)),
        Json::Number(n) => close_value(JsonNode::Number(n)),
        Json::Str(s) => close_value(JsonNode::Str(s)),
        Json::Array(mut items) => {
            let ghost e0 = items@;
            let ghost ev = items_view(e0);
            let mut out: Vec<serde_json::Value> = Vec::new();
            let n = items.len();
            let mut i: usize = 0;
            while i < n
                invariant
                    jv == j@,
                    jv == JsonView::Array(ev),
                    ev == items_view(e0),
                    n == e0.len(),
                    i <= n,
                    items@ == e0.subrange(i as int, n as int),
                    values_view(out@) =~= Seq::new(i as nat, |k: int| json_rebuilt(ev[k])),
                decreases n - i,
            {
                assert(items@[0] == e0[i as int]);
                let x = items.remove(0);
                proof {
                    assert(decreases_to!(jv => jv->Array_0));
                    assert(decreases_to!(ev => ev[i as int]));
                    assert(ev[i as int] == x@);
                    assert(decreases_to!(jv => x@));
                }
                let ghost before = values_view(out@);
                let y = value_of_json(x);
                out.push(y);
                assert(values_view(out@) =~= before.push(json_view(y)));
                i = i + 1;
            }
            let r = close_value(JsonNode::Array(out));
            assert(values_view(out@) =~= rebuilt_items(ev));
            assert(json_view(r) == json_rebuilt(jv));
            r
        },
        Json::Object(mut members) => {
            let ghost e0 = members@;
            let ghost ev = members_view(e0);
            let mut out: Vec<(String, serde_json::Value)> = Vec::new();
            let n = members.len();
            let mut i: usize = 0;
            while i < n
                invariant
                    jv == j@,
                    jv == JsonView::Object(ev),
                    ev == members_view(e0),
                    n == e0.len(),
                    i <= n,
                    members@ == e0.subrange(i as int, n as int),
                    value_members_view(out@) =~= Seq::new(
                        i as nat,
                        |k: int| (ev[k].0, json_rebuilt(ev[k].1)),
                    ),
                decreases n - i,
            {
                assert(members@[0] == e0[i as int]);
                let (k, x) = members.remove(0);
                proof {
                    assert(decreases_to!(jv => jv->Object_0));
                    assert(decreases_to!(ev => ev[i as int]));
                    assert(decreases_to!(ev[i as int] => ev[i as int].1));
                    assert(ev[i as int].1 == x@);
                    assert(decreases_to!(jv => x@));
                }
                let ghost before = value_members_view(out@);
                let ghost kv = k@;
                let y = value_of_json(x);
                out.push((k, y));
                assert(value_members_view(out@) =~= before.push((kv, json_view(y))));
                i = i + 1;
            }
            let r = close_value(JsonNode::Object(out));
            assert(value_members_view(out@) =~= rebuilt_members(ev));
            assert(json_view(r) == json_rebuilt(jv));
            r
        },
    }
}

/// Parses JSON text. Object members come in the order serde_json keeps
/// them, which is the order of their keys.
pub fn parse_json(text: &str) -> (r: Result<Json, JsonError>)
    ensures
        r matches Ok(j) ==> json_document(text@) == Some(j@),
        r is Ok <==> (json_document(text@) matches Some(d) && json_within(d, MAX_JSON_DEPTH as nat)),
        r matches Err(e) ==> (e is Syntax <==> json_document(text@) is None),
        r matches Err(e) ==> e is Syntax || e is TooDeep,
{
    match parse_value(text) {
        Ok(v) => match json_of_value(v, MAX_JSON_DEPTH) {
            Some(j) => Ok(j),
            None => Err(JsonError::TooDeep),
        },
        Err(message) => Err(JsonError::Syntax { message }),
    }
}

/// Renders a JSON document as compact JSON text.
pub fn render_json(j: Json) -> (r: String)
    ensures
        r@ == json_text(json_rebuilt(j@)),
{
    render_value(&value_of_json(j))
}

/// Whether two strings hold the same characters.
pub fn same_chars(a: &str, b: &str) -> (r: bool)
    ensures
        r == (a@ == b@),
{
    let n = a.unicode_len();
    if n != b.unicode_len() {
        return false;
    }
    let mut i: usize = 0;
    while i < n
        invariant
            n == a@.len(),
            n == b@.len(),
            i <= n,
            forall|k: int| 0 <= k < i ==> a@[k] == b@[k],
        decreases n - i,
    {
        if a.get_char(i) != b.get_char(i) {
            return false;
        }
        i = i + 1;
    }
    assert(a@ =~= b@);
    true
}

} // verus!
