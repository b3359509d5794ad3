//! JSON values as plain data, read with `serde_json`.
use vstd::prelude::*;

verus! {

/// A JSON number, by the two readings that are asked of it.
#[derive(Debug, Clone, Copy)]
pub struct Number {
    /// The number as a signed 64-bit integer, where it is one.
    pub int: Option<i64>,
    /// The bit pattern of the number as an IEEE 754 double.
    pub double: Option<u64>,
}

/// A JSON value.
#[derive(Debug)]
pub enum Json {
    Null,
    Bool(bool),
    Number(Number),
    Text(String),
    List(Vec<Json>),
    Object(Vec<(String, Json)>),
}

/// What a JSON value holds.
pub enum JsonView {
    Null,
    Bool(bool),
    Number(Number),
    Text(Seq<char>),
    List(Seq<JsonView>),
    Object(Seq<(Seq<char>, JsonView)>),
}

/// What the value `j` holds.
pub open spec fn json_view(j: Json) -> JsonView
    decreases j,
{
    match j {
        Json::Null => JsonView::Null,
        Json::Bool(b) => JsonView::Bool(b),
        Json::Number(n) => JsonView::Number(n),
        Json::Text(s) => JsonView::Text(s@),
        Json::List(items) => JsonView::List(list_view(items@)),
        Json::Object(members) => JsonView::Object(members_view(members@)),
    }
}

/// What the values `s` hold, in order.
pub open spec fn list_view(s: Seq<Json>) -> Seq<JsonView>
    decreases s,
{
    if s.len() == 0 {
        seq![]
    } else {
        list_view(s.drop_last()).push(json_view(s.last()))
    }
}

/// What the members `s` of an object hold, in order.
pub open spec fn members_view(s: Seq<(String, Json)>) -> Seq<(Seq<char>, JsonView)>
    decreases s,
{
    if s.len() == 0 {
        seq![]
    } else {
        members_view(s.drop_last()).push((s.last().0@, json_view(s.last().1)))
    }
}

impl View for Json {
    type V = JsonView;

    open spec fn view(&self) -> JsonView {
        json_view(*self)
    }
}

pub proof fn lemma_list_view(s: Seq<Json>)
    ensures
        list_view(s).len() == s.len(),
        forall|i: int| 0 <= i < s.len() ==> (#[trigger] list_view(s)[i]) == s[i]@,
    decreases s.len(),
{
    if s.len() > 0 {
        lemma_list_view(s.drop_last());
    }
}

pub proof fn lemma_members_view(s: Seq<(String, Json)>)
    ensures
        members_view(s).len() == s.len(),
        forall|i: int|
            0 <= i < s.len() ==> (#[trigger] members_view(s)[i]) == (s[i].0@, s[i].1@),
    decreases s.len(),
{
    if s.len() > 0 {
        lemma_members_view(s.drop_last());
    }
}

// ---------------------------------------------------------------------------------------------
// Values of serde_json
// ---------------------------------------------------------------------------------------------

/// `serde_json::Value`, of which only `open_value` sees the inside.
#[verifier::external_type_specification]
#[verifier::external_body]
pub struct ExValue(serde_json::Value);

/// What a value of `serde_json` holds: the members of an object in the order in which its map
/// gives them out, and of a number the results of `as_i64` and `as_f64`.
pub uninterp spec fn value_view(v: serde_json::Value) -> JsonView;

/// What `serde_json::from_str` reads from a text as a `serde_json::Value`: what the value holds,
/// or the text of the error.
pub uninterp spec fn json_text_view(raw: Seq<char>) -> Result<JsonView, Seq<char>>;

/// One level of a value: its kind, and the values inside it unopened.
enum Node {
    Null,
    Bool(bool),
    Number(Number),
    Text(String),
    List(Vec<serde_json::Value>),
    Object(Vec<(String, serde_json::Value)>),
}

spec fn node_view(n: Node) -> JsonView {
    match n {
        Node::Null => JsonView::Null,
        Node::Bool(b) => JsonView::Bool(b),
        Node::Number(x) => JsonView::Number(x),
        Node::Text(s) => JsonView::Text(s@),
        Node::List(items) => JsonView::List(
            items@.map_values(|v: serde_json::Value| value_view(v)),
        ),
        Node::Object(members) => JsonView::Object(
            members@.map_values(|m: (String, serde_json::Value)| (m.0@, value_view(m.1))),
        ),
    }
}

/// `serde_json::from_str::<serde_json::Value>`. The contract only names the result: what the
/// value holds, or the text of the error, is a function of the text that is read.
#[verifier::external_body]
fn read_value(raw: &str) -> (r: Result<serde_json::Value, String>)
    ensures
        match r {
            Ok(v) => json_text_view(raw@) == Ok::<JsonView, Seq<char>>(value_view(v)),
            Err(e) => json_text_view(raw@) == Err::<JsonView, Seq<char>>(e@),
        },
{
    match serde_json::from_str::<serde_json::Value>(raw) {
        Ok(v) => Ok(v),
        Err(e) => Err(e.to_string()),
    }
}

/// Tells the variants of `serde_json::Value` apart and moves their contents out; a number is read
/// with `serde_json::Number::as_i64` and `as_f64`, the members of an object are taken in the
/// order of its map. The contract says that what comes out is what the value holds.
#[verifier::external_body]
fn open_value(v: serde_json::Value) -> (r: Node)
    ensures
        node_view(r) == value_view(v),
{
    match v {
        serde_json::Value::Null => Node::Null,
        serde_json::Value::Bool(b) => Node::Bool(b),
        serde_json::Value::Number(n) => Node::Number(Number {
            int: n.as_i64(),
            double: n.as_f64().map(|x| x.to_bits()),
        }),
        serde_json::Value::String(s) => Node::Text(s),
        serde_json::Value::Array(items) => Node::List(items),
        serde_json::Value::Object(members) => Node::Object(members.into_iter().collect()),
    }
}

fn import(v: serde_json::Value) -> (r: Json)
    ensures
        r@ == value_view(v),
    decreases value_view(v),
{
    let ghost all = value_view(v);
    match open_value(v) {
        Node::Null => Json::Null,
        Node::Bool(b) => Json::Bool(b),
        Node::Number(n) => Json::Number(n),
        Node::Text(s) => Json::Text(s),
        Node::List(items) => {
            let ghost given = items@;
            let mut out: Vec<Json> = Vec::new();
            for x in it: items
                invariant
                    all == value_view(v),
                    it.seq() == given,
                    all == JsonView::List(
                        given.map_values(|v: serde_json::Value| value_view(v)),
                    ),
                    out@.len() == it.index(),
                    forall|j: int| 0 <= j < out@.len() ==> (#[trigger] out@[j])@ == value_view(given[j]),
            {
                assert(all->List_0[it.index() as int] == value_view(x));
                assert(decreases_to!(all => all->List_0));
                assert(decreases_to!(all->List_0 => all->List_0[it.index() as int]));
                out.push(import(x));
            }
            proof {
                lemma_list_view(out@);
                assert(list_view(out@) =~= all->List_0);
            }
            Json::List(out)
        },
        Node::Object(members) => {
            let ghost given = members@;
            let mut out: Vec<(String, Json)> = Vec::new();
            for m in it: members
                invariant
                    all == value_view(v),
                    it.seq() == given,
                    all == JsonView::Object(
                        given.map_values(|m: (String, serde_json::Value)| (m.0@, value_view(m.1))),
                    ),
                    out@.len() == it.index(),
                    forall|j: int|
                        0 <= j < out@.len() ==> (#[trigger] out@[j]).0@ == given[j].0@
                            && out@[j].1@ == value_view(given[j].1),
            {
                assert(all->Object_0[it.index() as int] == (m.0@, value_view(m.1)));
                assert(decreases_to!(all => all->Object_0));
                assert(decreases_to!(all->Object_0 => all->Object_0[it.index() as int]));
                assert(decreases_to!(all->Object_0[it.index() as int] => all->Object_0[it.index() as int].1));
                let (key, x) = m;
                out.push((key, import(x)));
            }
            proof {
                lemma_members_view(out@);
                assert(members_view(out@) =~= all->Object_0);
            }
            Json::Object(out)
        },
    }
}

/// Reads a JSON text. The error is the text that `serde_json` gives for it.
pub fn parse_json(raw: &str) -> (r: Result<Json, String>)
    ensures
        match r {
            Ok(j) => json_text_view(raw@) == Ok::<JsonView, Seq<char>>(j@),
            Err(e) => json_text_view(raw@) == Err::<JsonView, Seq<char>>(e@),
        },
{
    match read_value(raw) {
        Ok(v) => Ok(import(v)),
        Err(e) => Err(e),
    }
}

} // verus!
