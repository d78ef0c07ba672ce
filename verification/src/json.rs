//! A JSON document as the library reads and writes it. Objects keep their
//! members in order, as `(name, value)` pairs; `JsonV` is its mathematical view.
use vstd::prelude::*;

use crate::text::{chars_eq, chars_of};

verus! {

/// A JSON value. Numbers are kept as their text.
#[derive(Debug)]
pub enum Json {
    Null,
    Bool(bool),
    Number(String),
    Str(String),
    Array(Vec<Json>),
    Object(Vec<(String, Json)>),
}

/// The view of a JSON value.
pub enum JsonV {
    Null,
    Bool(bool),
    Number(Seq<char>),
    Str(Seq<char>),
    Array(Seq<JsonV>),
    Object(Seq<(Seq<char>, JsonV)>),
}

pub open spec fn jv(j: Json) -> JsonV
    decreases j, 0int,
{
    match j {
        Json::Null => JsonV::Null,
        Json::Bool(b) => JsonV::Bool(b),
        Json::Number(n) => JsonV::Number(n@),
        Json::Str(s) => JsonV::Str(s@),
        Json::Array(a) => JsonV::Array(jv_items(a@, a@.len() as int)),
        Json::Object(m) => JsonV::Object(jv_members(m@, m@.len() as int)),
    }
}

/// The views of the first `n` items.
pub open spec fn jv_items(items: Seq<Json>, n: int) -> Seq<JsonV>
    decreases items, n,
{
    if n <= 0 || n > items.len() {
        Seq::empty()
    } else {
        jv_items(items, n - 1).push(jv(items[n - 1]))
    }
}

/// The views of the first `n` members.
pub open spec fn jv_members(es: Seq<(String, Json)>, n: int) -> Seq<(Seq<char>, JsonV)>
    decreases es, n,
{
    if n <= 0 || n > es.len() {
        Seq::empty()
    } else {
        jv_members(es, n - 1).push((es[n - 1].0@, jv(es[n - 1].1)))
    }
}

/// The views of all members.
pub open spec fn jvm(es: Seq<(String, Json)>) -> Seq<(Seq<char>, JsonV)> {
    jv_members(es, es.len() as int)
}

proof fn lemma_jv_members_prefix(es: Seq<(String, Json)>, n: int)
    requires
        0 <= n <= es.len(),
    ensures
        jv_members(es, n).len() == n,
        forall|k: int|
            0 <= k < n ==> #[trigger] jv_members(es, n)[k] == (es[k].0@, jv(es[k].1)),
    decreases n,
{
    if n > 0 {
        lemma_jv_members_prefix(es, n - 1);
    }
}

/// The view of the items, one by one.
pub proof fn lemma_jv_items(items: Seq<Json>, n: int)
    requires
        0 <= n <= items.len(),
    ensures
        jv_items(items, n).len() == n,
        forall|k: int| 0 <= k < n ==> #[trigger] jv_items(items, n)[k] == jv(items[k]),
    decreases n,
{
    if n > 0 {
        lemma_jv_items(items, n - 1);
    }
}

/// The view of the members, one by one.
pub proof fn lemma_jvm(es: Seq<(String, Json)>)
    ensures
        jvm(es).len() == es.len(),
        forall|k: int| 0 <= k < es.len() ==> #[trigger] jvm(es)[k] == (es[k].0@, jv(es[k].1)),
{
    lemma_jv_members_prefix(es, es.len() as int);
}

// ─── Parsing ──────────────────────────────────────────────────────────

#[verifier::external_type_specification]
#[verifier::external_body]
pub struct ExJsonValue(serde_json::Value);

/// What serde_json reads from a text as a JSON value (`None` when the text is not
/// JSON).
pub uninterp spec fn json_parsed(text: Seq<char>) -> Option<JsonV>;

/// A serde_json value as a `Json`, one variant for one variant, object members in
/// the map's order. Trusted: nothing is stated here; `parse_json` states what the
/// parse gives.
#[verifier::external_body]
fn json_of_value(v: &serde_json::Value) -> Json {
    match v {
        serde_json::Value::Null => Json::Null,
        serde_json::Value::Bool(b) => Json::Bool(*b),
        serde_json::Value::Number(n) => Json::Number(n.to_string()),
        serde_json::Value::String(t) => Json::Str(t.clone()),
        serde_json::Value::Array(a) => Json::Array(a.iter().map(json_of_value).collect()),
        serde_json::Value::Object(m) => Json::Object(
            m.iter().map(|(k, x)| (k.clone(), json_of_value(x))).collect(),
        ),
    }
}

/// serde_json's `from_str` as a `Value`, as a `Json`. Trusted: the result is
/// `json_parsed` of the text, by its view; the parser itself (RFC 8259, with
/// serde_json's number and nesting rules) is not restated.
#[verifier::external_body]
pub(crate) fn parse_json(text: &str) -> (r: Option<Json>)
    ensures
        match json_parsed(text@) {
            Some(v) => r matches Some(j) && jv(j) == v,
            None => r is None,
        },
{
    match serde_json::from_str::<serde_json::Value>(text) {
        Ok(v) => Some(json_of_value(&v)),
        Err(_) => None,
    }
}

// ─── Objects ──────────────────────────────────────────────────────────

/// The position of the first member called `key`.
pub open spec fn key_index(es: Seq<(Seq<char>, JsonV)>, key: Seq<char>) -> Option<int>
    decreases es.len(),
{
    if es.len() == 0 {
        None
    } else if es.last().0 == key && key_index(es.drop_last(), key) is None {
        Some(es.len() - 1)
    } else {
        key_index(es.drop_last(), key)
    }
}

pub proof fn lemma_key_index(es: Seq<(Seq<char>, JsonV)>, key: Seq<char>)
    ensures
        key_index(es, key) matches Some(i) ==> 0 <= i < es.len() && es[i].0 == key && forall|
            k: int,
        |
            0 <= k < i ==> (#[trigger] es[k]).0 != key,
        key_index(es, key) is None ==> forall|k: int|
            0 <= k < es.len() ==> (#[trigger] es[k]).0 != key,
    decreases es.len(),
{
    if es.len() > 0 {
        lemma_key_index(es.drop_last(), key);
        assert forall|k: int| 0 <= k < es.len() - 1 implies #[trigger] es[k] == es.drop_last()[k] by {
        }
    }
}

proof fn lemma_key_index_first(es: Seq<(Seq<char>, JsonV)>, key: Seq<char>, i: int)
    requires
        0 <= i < es.len(),
        es[i].0 == key,
        forall|q: int| 0 <= q < i ==> (#[trigger] es[q]).0 != key,
    ensures
        key_index(es, key) == Some(i),
{
    lemma_key_index(es, key);
}

proof fn lemma_key_index_none(es: Seq<(Seq<char>, JsonV)>, key: Seq<char>)
    requires
        forall|q: int| 0 <= q < es.len() ==> (#[trigger] es[q]).0 != key,
    ensures
        key_index(es, key) is None,
{
    lemma_key_index(es, key);
}

/// `Value::get(key)`: the member `key` of an object; `None` for any other value.
pub open spec fn jget(j: JsonV, key: Seq<char>) -> Option<JsonV> {
    match j {
        JsonV::Object(es) => match key_index(es, key) {
            Some(i) => Some(es[i].1),
            None => None,
        },
        _ => None,
    }
}

/// `Value::as_str` of an optional value.
pub open spec fn jstr(j: Option<JsonV>) -> Option<Seq<char>> {
    match j {
        Some(JsonV::Str(s)) => Some(s),
        _ => None,
    }
}

/// `Map::insert`: replaces the value of the member `key`, or adds the member at the end.
pub open spec fn insert_member(es: Seq<(Seq<char>, JsonV)>, key: Seq<char>, v: JsonV) -> Seq<
    (Seq<char>, JsonV),
> {
    match key_index(es, key) {
        Some(i) => es.update(i, (key, v)),
        None => es.push((key, v)),
    }
}

/// `Map::remove`: drops the member `key`, if there is one.
pub open spec fn remove_member(es: Seq<(Seq<char>, JsonV)>, key: Seq<char>) -> Seq<
    (Seq<char>, JsonV),
> {
    match key_index(es, key) {
        Some(i) => es.remove(i),
        None => es,
    }
}

/// `value[key] = v`: an object gets the member set; `null` becomes an object
/// holding just that member.
pub open spec fn set_member(j: JsonV, key: Seq<char>, v: JsonV) -> JsonV {
    match j {
        JsonV::Object(es) => JsonV::Object(insert_member(es, key, v)),
        JsonV::Null => JsonV::Object(seq![(key, v)]),
        _ => j,
    }
}

/// The position of the first member called `key`.
pub fn find_member(es: &Vec<(String, Json)>, key: &str) -> (r: Option<usize>)
    ensures
        r matches Some(u) ==> key_index(jvm(es@), key@) == Some(u as int) && u < es@.len(),
        r is None ==> key_index(jvm(es@), key@) is None,
{
    proof {
        lemma_jvm(es@);
    }
    let k = chars_of(key);
    let mut i: usize = 0;
    while i < es.len()
        invariant
            k@ == key@,
            i <= es@.len(),
            jvm(es@).len() == es@.len(),
            forall|q: int| 0 <= q < es@.len() ==> #[trigger] jvm(es@)[q] == (es@[q].0@, jv(es@[q].1)),
            forall|q: int| 0 <= q < i ==> (#[trigger] jvm(es@)[q]).0 != key@,
        decreases es.len() - i,
    {
        let name = chars_of(es[i].0.as_str());
        if chars_eq(&name, &k) {
            proof {
                lemma_key_index_first(jvm(es@), key@, i as int);
            }
            return Some(i);
        }
        i = i + 1;
    }
    proof {
        lemma_key_index_none(jvm(es@), key@);
    }
    None
}

/// `Value::get(key)` followed by `Value::as_str`, as a `String`.
pub fn get_str(j: &Json, key: &str) -> (r: Option<String>)
    ensures
        match jstr(jget(jv(*j), key@)) {
            Some(s) => r matches Some(x) && x@ == s,
            None => r is None,
        },
{
    match j {
        Json::Object(m) => {
            proof {
                lemma_jvm(m@);
            }
            let found = find_member(m, key);
            match found {
                Some(i) => {
                    let entry = &m[i];
                    assert(*entry == m@[i as int]);
                    match &entry.1 {
                        Json::Str(s) => {
                            let c = s.clone();
                            Some(c)
                        },
                        _ => None,
                    }
                },
                None => None,
            }
        },
        _ => None,
    }
}

/// `Map::insert` on the members of an object.
pub fn insert_into(es: &mut Vec<(String, Json)>, key: String, v: Json)
    ensures
        jvm(final(es)@) == insert_member(jvm(old(es)@), key@, jv(v)),
{
    proof {
        lemma_jvm(es@);
    }
    let found = find_member(es, key.as_str());
    let ghost kv = key@;
    let ghost vv = jv(v);
    match found {
        Some(i) => {
            es.remove(i);
            es.insert(i, (key, v));
            proof {
                lemma_jvm(es@);
                assert(jvm(es@) =~= jvm(old(es)@).update(i as int, (kv, vv)));
            }
        },
        None => {
            es.push((key, v));
            proof {
                lemma_jvm(es@);
                assert(jvm(es@) =~= jvm(old(es)@).push((kv, vv)));
            }
        },
    }
}

/// `Map::remove` on the members of an object.
pub fn remove_from(es: &mut Vec<(String, Json)>, key: &str)
    ensures
        jvm(final(es)@) == remove_member(jvm(old(es)@), key@),
{
    proof {
        lemma_jvm(es@);
    }
    let found = find_member(es, key);
    match found {
        Some(i) => {
            es.remove(i);
            proof {
                lemma_jvm(es@);
                assert(jvm(es@) =~= jvm(old(es)@).remove(i as int));
            }
        },
        None => {},
    }
}

/// An empty JSON object.
pub fn empty_object() -> (r: Json)
    ensures
        jv(r) == JsonV::Object(Seq::empty()),
{
    let v: Vec<(String, Json)> = Vec::new();
    let r = Json::Object(v);
    assert(jv_members(v@, 0) =~= Seq::<(Seq<char>, JsonV)>::empty());
    r
}

/// A JSON string.
pub fn json_string(s: &str) -> (r: Json)
    ensures
        jv(r) == JsonV::Str(s@),
{
    Json::Str(String::from_str(s))
}

} // verus!
