use vstd::prelude::*;
use crate::text::text_eq;
use serde_json::Value;

verus! {

/// A JSON value as the handlers read and rewrite it.
#[derive(Debug, PartialEq, Eq)]
pub enum JsonValue {
    Null,
    Bool(bool),
    /// A signed integer (a value read from JSON text is an `Int` only when it is negative).
    Int(i64),
    /// An unsigned integer (a value read from JSON text that fits is a `UInt`).
    UInt(u64),
    /// Any other number, kept as its JSON text.
    Decimal(String),
    Str(String),
    Array(Vec<JsonValue>),
    /// The members of an object, in the order the map yields them.
    Object(Vec<(String, JsonValue)>),
}

/// The mathematical model of a JSON value.
pub enum Json {
    Null,
    Bool(bool),
    Int(int),
    Decimal(Seq<char>),
    Str(Seq<char>),
    Array(Seq<Json>),
    Object(Seq<(Seq<char>, Json)>),
}

impl JsonValue {
    /// The value's model.
    pub open spec fn model(self) -> Json
        decreases self,
    {
        match self {
            JsonValue::Null => Json::Null,
            JsonValue::Bool(b) => Json::Bool(b),
            JsonValue::Int(i) => Json::Int(i as int),
            JsonValue::UInt(u) => Json::Int(u as int),
            JsonValue::Decimal(s) => Json::Decimal(s@),
            JsonValue::Str(s) => Json::Str(s@),
            JsonValue::Array(v) => Json::Array(items_model(v@)),
            JsonValue::Object(v) => Json::Object(entries_model(v@)),
        }
    }
}

/// The models of a sequence of values.
pub open spec fn items_model(s: Seq<JsonValue>) -> Seq<Json>
    decreases s,
{
    Seq::new(s.len(), |i: int| if 0 <= i < s.len() { s[i].model() } else { Json::Null })
}

/// The models of the members of an object.
pub open spec fn entries_model(s: Seq<(String, JsonValue)>) -> Seq<(Seq<char>, Json)>
    decreases s,
{
    Seq::new(
        s.len(),
        |i: int| if 0 <= i < s.len() { (s[i].0@, s[i].1.model()) } else { (Seq::empty(), Json::Null) },
    )
}

/// Position of the first member named `k`, or `es.len()` when there is none.
pub open spec fn key_pos(es: Seq<(Seq<char>, Json)>, k: Seq<char>) -> int
    decreases es.len(),
{
    if es.len() == 0 {
        0
    } else {
        let p = key_pos(es.drop_last(), k);
        if p < es.len() - 1 {
            p
        } else if es.last().0 == k {
            es.len() - 1
        } else {
            es.len() as int
        }
    }
}

/// `key_pos` is the first position holding `k`, or the length when no member is named `k`.
pub proof fn lemma_key_pos(es: Seq<(Seq<char>, Json)>, k: Seq<char>)
    ensures
        0 <= key_pos(es, k) <= es.len(),
        key_pos(es, k) < es.len() ==> es[key_pos(es, k)].0 == k,
        forall|j: int| 0 <= j < key_pos(es, k) ==> es[j].0 != k,
    decreases es.len(),
{
    if es.len() > 0 {
        let d = es.drop_last();
        lemma_key_pos(d, k);
        assert forall|j: int| 0 <= j < key_pos(es, k) implies es[j].0 != k by {
            if j < es.len() - 1 {
                assert(es[j] == d[j]);
            }
        }
    }
}

/// The lookup of `k2` after a member is appended.
pub proof fn lemma_member_push(es: Seq<(Seq<char>, Json)>, e: (Seq<char>, Json), k2: Seq<char>)
    ensures
        member(es.push(e), k2) == (if member(es, k2) is Some {
            member(es, k2)
        } else if e.0 == k2 {
            Some(e.1)
        } else {
            None
        }),
{
    lemma_key_pos(es, k2);
    assert(es.push(e).drop_last() =~= es);
}

/// The lookup of `k2` in terms of the members but the last.
pub proof fn lemma_member_last(es: Seq<(Seq<char>, Json)>, k2: Seq<char>)
    requires
        es.len() > 0,
    ensures
        member(es, k2) == (if member(es.drop_last(), k2) is Some {
            member(es.drop_last(), k2)
        } else if es.last().0 == k2 {
            Some(es.last().1)
        } else {
            None
        }),
{
    lemma_member_push(es.drop_last(), es.last(), k2);
    assert(es.drop_last().push(es.last()) =~= es);
}

/// After setting `k`, looking up `k` gives the new value and any other name is unaffected.
pub proof fn lemma_member_with(es: Seq<(Seq<char>, Json)>, k: Seq<char>, v: Json, k2: Seq<char>)
    ensures
        member(with_member(es, k, v), k2) == (if k2 == k {
            Some(v)
        } else {
            member(es, k2)
        }),
{
    lemma_key_pos(es, k);
    lemma_key_pos(es, k2);
    let p = key_pos(es, k);
    if p < es.len() {
        let n = es.update(p, (k, v));
        lemma_key_pos(n, k2);
        let q = key_pos(n, k2);
        let q0 = key_pos(es, k2);
        if k2 == k {
            assert(forall|j: int| 0 <= j < p ==> n[j] == es[j]);
            assert(n[p].0 == k);
            if q < p {
                assert(n[q].0 == k2);
                assert(es[q].0 == k);
            }
            assert(q == p);
        } else {
            assert(forall|j: int| 0 <= j < es.len() && j != p ==> n[j] == es[j]);
            if q < q0 {
                assert(n[q].0 == k2);
                assert(es[q].0 == k2);
            }
            if q0 < q {
                if q0 < es.len() {
                    assert(n[q0].0 == k2);
                }
            }
            assert(q == q0);
        }
    } else {
        lemma_member_push(es, (k, v), k2);
    }
}

/// After removing `k`, looking up `k` finds nothing and any other name is unaffected.
pub proof fn lemma_member_without(es: Seq<(Seq<char>, Json)>, k: Seq<char>, k2: Seq<char>)
    ensures
        member(without_member(es, k), k2) == (if k2 == k {
            None
        } else {
            member(es, k2)
        }),
    decreases es.len(),
{
    if es.len() == 0 {
        lemma_key_pos(es, k2);
    } else {
        lemma_member_without(es.drop_last(), k, k2);
        lemma_member_last(es, k2);
        if es.last().0 != k {
            lemma_member_push(without_member(es.drop_last(), k), es.last(), k2);
        }
    }
}

/// The value of the member named `k`, if any.
pub open spec fn member(es: Seq<(Seq<char>, Json)>, k: Seq<char>) -> Option<Json> {
    let p = key_pos(es, k);
    if p < es.len() {
        Some(es[p].1)
    } else {
        None
    }
}

/// Sets the member named `k` to `v`: in place when it exists, else appended at the end.
pub open spec fn with_member(es: Seq<(Seq<char>, Json)>, k: Seq<char>, v: Json) -> Seq<(Seq<char>, Json)> {
    let p = key_pos(es, k);
    if p < es.len() {
        es.update(p, (k, v))
    } else {
        es.push((k, v))
    }
}

/// Drops every member named `k`, keeping the others in order.
pub open spec fn without_member(es: Seq<(Seq<char>, Json)>, k: Seq<char>) -> Seq<(Seq<char>, Json)>
    decreases es.len(),
{
    if es.len() == 0 {
        es
    } else if es.last().0 == k {
        without_member(es.drop_last(), k)
    } else {
        without_member(es.drop_last(), k).push(es.last())
    }
}

/// Position of the first member named `k`, or the length when there is none.
pub fn find_member(es: &Vec<(String, JsonValue)>, k: &str) -> (r: usize)
    ensures
        r == key_pos(entries_model(es@), k@),
{
    let ghost m = entries_model(es@);
    proof {
        lemma_key_pos(m, k@);
    }
    let mut i: usize = 0;
    while i < es.len()
        invariant
            i <= es@.len(),
            m == entries_model(es@),
            forall|j: int| 0 <= j < i ==> m[j].0 != k@,
            0 <= key_pos(m, k@) <= m.len(),
            key_pos(m, k@) < m.len() ==> m[key_pos(m, k@)].0 == k@,
            forall|j: int| 0 <= j < key_pos(m, k@) ==> m[j].0 != k@,
        decreases es@.len() - i,
    {
        if text_eq(es[i].0.as_str(), k) {
            assert(m[i as int].0 == k@);
            return i;
        }
        i += 1;
    }
    i
}

/// Sets the member named `k` to `v`, as `with_member` says.
pub fn set_member(es: &mut Vec<(String, JsonValue)>, k: String, v: JsonValue)
    ensures
        entries_model(final(es)@) == with_member(entries_model(old(es)@), k@, v.model()),
{
    let p = find_member(es, k.as_str());
    let ghost m = entries_model(es@);
    if p < es.len() {
        es.set(p, (k, v));
        assert(entries_model(es@) =~= m.update(p as int, (k@, v.model())));
    } else {
        es.push((k, v));
        assert(entries_model(es@) =~= m.push((k@, v.model())));
    }
}

/// Removes every member named `k`, as `without_member` says.
pub fn remove_member(es: Vec<(String, JsonValue)>, k: &str) -> (r: Vec<(String, JsonValue)>)
    ensures
        entries_model(r@) == without_member(entries_model(es@), k@),
{
    let ghost m = entries_model(es@);
    let mut out: Vec<(String, JsonValue)> = Vec::new();
    let mut rest = es;
    let ghost n = m.len();
    while rest.len() > 0
        invariant
            m == entries_model(es@),
            n == m.len(),
            rest@.len() <= n,
            entries_model(rest@) == m.skip(n - rest@.len()),
            entries_model(out@) == without_member(m.take(n - rest@.len()), k@),
        decreases rest@.len(),
    {
        let ghost i = n - rest@.len();
        let ghost before = entries_model(out@);
        let ghost old_rest = rest@;
        let e = rest.remove(0);
        assert(m.take(i + 1).drop_last() =~= m.take(i));
        assert forall|j: int| 0 <= j < rest@.len() implies entries_model(rest@)[j] == m.skip(
            n - rest@.len(),
        )[j] by {
            assert(rest@[j] == old_rest[j + 1]);
            assert(entries_model(old_rest)[j + 1] == m.skip(i)[j + 1]);
        }
        assert(entries_model(rest@) =~= m.skip(n - rest@.len()));
        assert(m[i] == (e.0@, e.1.model())) by {
            assert(entries_model(old_rest)[0] == m.skip(i)[0]);
        }
        if !text_eq(e.0.as_str(), k) {
            out.push(e);
            assert(entries_model(out@) =~= before.push(m[i]));
        }
    }
    assert(m.take(n as int) =~= m);
    out
}

/// serde_json reads `s` as a JSON number (`serde_json::Number::from_str` succeeds); this
/// depends on the text alone.
pub uninterp spec fn number_text_readable(s: Seq<char>) -> bool;

/// Whether serde_json reads the text as a number: `serde_json::Number::from_str` succeeds.
#[verifier::external_body]
fn number_readable(s: &str) -> (b: bool)
    ensures
        b == number_text_readable(s@),
{
    s.parse::<serde_json::Number>().is_ok()
}

/// Every number kept as text in the value is one serde_json reads.
pub open spec fn numbers_readable(j: Json) -> bool
    decreases j,
{
    match j {
        Json::Decimal(s) => number_text_readable(s),
        Json::Array(items) => items_readable(items),
        Json::Object(es) => members_readable(es),
        _ => true,
    }
}

/// Every item's numbers are readable.
pub open spec fn items_readable(items: Seq<Json>) -> bool
    decreases items,
{
    if items.len() == 0 {
        true
    } else {
        items_readable(items.drop_last()) && numbers_readable(items.last())
    }
}

/// Every member's numbers are readable.
pub open spec fn members_readable(es: Seq<(Seq<char>, Json)>) -> bool
    decreases es,
{
    if es.len() == 0 {
        true
    } else {
        members_readable(es.drop_last()) && numbers_readable(es.last().1)
    }
}

/// Whether every number kept as text in the value is one serde_json reads, as
/// `numbers_readable` says.
pub fn numbers_are_readable(v: &JsonValue) -> (b: bool)
    ensures
        b == numbers_readable(v.model()),
    decreases v,
{
    match v {
        JsonValue::Decimal(s) => number_readable(s.as_str()),
        JsonValue::Array(items) => {
            let ghost m = items_model(items@);
            let mut ok = true;
            for i in 0..items.len()
                invariant
                    *v == JsonValue::Array(*items),
                    m == items_model(items@),
                    ok == items_readable(m.take(i as int)),
            {
                assert(m.take(i + 1).drop_last() =~= m.take(i as int));
                proof {
                    assert(decreases_to!(*v => (*v)->Array_0));
                    assert((*v)->Array_0 == *items);
                    vstd::std_specs::vec::axiom_vec_index_decreases(*items, i as int);
                    assert(decreases_to!(*items => items@[i as int]));
                    assert(decreases_to!(*v => items@[i as int]));
                }
                let c = numbers_are_readable(&items[i]);
                ok = ok && c;
            }
            assert(m.take(items@.len() as int) =~= m);
            ok
        },
        JsonValue::Object(es) => {
            let ghost m = entries_model(es@);
            let mut ok = true;
            for i in 0..es.len()
                invariant
                    *v == JsonValue::Object(*es),
                    m == entries_model(es@),
                    ok == members_readable(m.take(i as int)),
            {
                assert(m.take(i + 1).drop_last() =~= m.take(i as int));
                proof {
                    assert(decreases_to!(*v => (*v)->Object_0));
                    assert((*v)->Object_0 == *es);
                    vstd::std_specs::vec::axiom_vec_index_decreases(*es, i as int);
                    assert(decreases_to!(*es => es@[i as int]));
                    assert(decreases_to!(es@[i as int] => es@[i as int].1));
                    assert(decreases_to!(*v => es@[i as int].1));
                }
                let c = numbers_are_readable(&es[i].1);
                ok = ok && c;
            }
            assert(m.take(es@.len() as int) =~= m);
            ok
        },
        _ => true,
    }
}

/// serde_json's text of a value (`serde_json::Value`'s `to_string`); this depends on the
/// value's model alone.
pub uninterp spec fn json_text(v: Json) -> Seq<char>;

#[verifier::external_type_specification]
#[verifier::external_body]
pub struct ExSerdeJsonValue(serde_json::Value);

/// The `serde_json::Value` of a value, variant by variant; a number kept as text is read with
/// `serde_json::Number::from_str`. Nothing is claimed of the result, which only
/// `json_value_text` reads.
#[verifier::external_body]
fn serde_value(v: &JsonValue) -> serde_json::Value
    requires
        numbers_readable(v.model()),
{
    match v {
        JsonValue::Null => serde_json::Value::Null,
        JsonValue::Bool(b) => serde_json::Value::Bool(*b),
        JsonValue::Int(i) => serde_json::Value::from(*i),
        JsonValue::UInt(u) => serde_json::Value::from(*u),
        JsonValue::Decimal(s) => serde_json::Value::Number(s.parse().unwrap()),
        JsonValue::Str(s) => serde_json::Value::String(s.clone()),
        JsonValue::Array(items) => serde_json::Value::Array(items.iter().map(serde_value).collect()),
        JsonValue::Object(es) => serde_json::Value::Object(
            es.iter().map(|(k, v)| (k.clone(), serde_value(v))).collect(),
        ),
    }
}

/// serde_json's text of the value (`serde_json::Value`'s `to_string` of `serde_value`).
/// Claimed: it is `json_text` of the value's model.
#[verifier::external_body]
pub(crate) fn json_value_text(v: &JsonValue) -> (r: String)
    requires
        numbers_readable(v.model()),
    ensures
        r@ == json_text(v.model()),
{
    serde_value(v).to_string()
}

/// The model of what serde_json reads from a text (`serde_json::from_str::<serde_json::Value>`),
/// or `None` when the text is not JSON; this depends on the text alone.
pub uninterp spec fn json_parse(text: Seq<char>) -> Option<Json>;

/// No two members of the object have the same name.
pub open spec fn names_unique(es: Seq<(Seq<char>, Json)>) -> bool {
    forall|i: int, j: int| 0 <= i < j < es.len() ==> #[trigger] es[i].0 != #[trigger] es[j].0
}

/// No object anywhere in the value has two members with the same name.
pub open spec fn all_names_unique(j: Json) -> bool
    decreases j,
{
    match j {
        Json::Array(items) => items_names_unique(items),
        Json::Object(es) => names_unique(es) && members_names_unique(es),
        _ => true,
    }
}

/// No object in any item has a repeated name.
pub open spec fn items_names_unique(items: Seq<Json>) -> bool
    decreases items,
{
    if items.len() == 0 {
        true
    } else {
        items_names_unique(items.drop_last()) && all_names_unique(items.last())
    }
}

/// No object in any member's value has a repeated name.
pub open spec fn members_names_unique(es: Seq<(Seq<char>, Json)>) -> bool
    decreases es,
{
    if es.len() == 0 {
        true
    } else {
        members_names_unique(es.drop_last()) && all_names_unique(es.last().1)
    }
}

/// Each member's value of an object with no repeated names anywhere has none either.
pub proof fn lemma_member_names_unique(es: Seq<(Seq<char>, Json)>, i: int)
    requires
        members_names_unique(es),
        0 <= i < es.len(),
    ensures
        all_names_unique(es[i].1),
    decreases es.len(),
{
    if i < es.len() - 1 {
        lemma_member_names_unique(es.drop_last(), i);
        assert(es.drop_last()[i] == es[i]);
    }
}

/// The library's value of a `serde_json::Value`, variant by variant: an integer becomes `UInt`
/// or `Int`, any other number its text. Nothing is claimed of it but through `parse_json_text`.
#[verifier::external_body]
fn json_value_of(v: &Value) -> JsonValue {
    match v {
        Value::Null => JsonValue::Null,
        Value::Bool(b) => JsonValue::Bool(*b),
        Value::Number(n) => match (n.as_u64(), n.as_i64()) {
            (Some(u), _) => JsonValue::UInt(u),
            (None, Some(i)) => JsonValue::Int(i),
            (None, None) => JsonValue::Decimal(n.to_string()),
        },
        Value::String(s) => JsonValue::Str(s.clone()),
        Value::Array(items) => JsonValue::Array(items.iter().map(json_value_of).collect()),
        Value::Object(m) => JsonValue::Object(
            m.iter().map(|(k, v)| (k.clone(), json_value_of(v))).collect(),
        ),
    }
}

/// Reads a JSON text with `serde_json::from_str::<serde_json::Value>`. Claimed: the result is
/// `json_parse` of the text, and, as `serde_json::Map` holds each name once, no object in it
/// has a repeated name.
#[verifier::external_body]
pub(crate) fn parse_json_text(text: &str) -> (r: Option<JsonValue>)
    ensures
        match r {
            Some(v) => json_parse(text@) == Some(v.model()) && all_names_unique(v.model()),
            None => json_parse(text@) is None,
        },
{
    match serde_json::from_str::<serde_json::Value>(text) {
        Ok(v) => Some(json_value_of(&v)),
        Err(_) => None,
    }
}

} // verus!
