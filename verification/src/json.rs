//! JSON values as the library holds them.

use serde_json::Value;
use vstd::prelude::*;

verus! {

/// A JSON number, held the way `serde_json` holds one: a non-negative or a
/// negative integer, or a float kept as the text `serde_json` writes for it.
#[derive(Debug)]
pub enum JsonNumber {
    PosInt(u64),
    NegInt(i64),
    Float(String),
}

/// A JSON value. An object's members are kept in order, each key once.
#[derive(Debug)]
pub enum JsonValue {
    Null,
    Bool(bool),
    Number(JsonNumber),
    Str(String),
    Array(Vec<JsonValue>),
    Object(Vec<(String, JsonValue)>),
}

/// What a JSON number is: a non-negative or a negative integer, or a float
/// known by the text written for it.
pub enum Num {
    PosInt(u64),
    NegInt(i64),
    Float(Seq<char>),
}

/// What a JSON value is, as a mathematical object. An object is its list of
/// members, in the order held.
pub enum Json {
    Null,
    Bool(bool),
    Number(Num),
    Str(Seq<char>),
    Array(Seq<Json>),
    Object(Seq<(Seq<char>, Json)>),
}

pub open spec fn num_model(n: JsonNumber) -> Num {
    match n {
        JsonNumber::PosInt(x) => Num::PosInt(x),
        JsonNumber::NegInt(x) => Num::NegInt(x),
        JsonNumber::Float(t) => Num::Float(t@),
    }
}

/// The value `v` stands for.
pub open spec fn model(v: JsonValue) -> Json
    decreases v, width(v) + 1,
{
    match v {
        JsonValue::Null => Json::Null,
        JsonValue::Bool(b) => Json::Bool(b),
        JsonValue::Number(n) => Json::Number(num_model(n)),
        JsonValue::Str(s) => Json::Str(s@),
        JsonValue::Array(xs) => Json::Array(item_models(v, xs@.len() as int)),
        JsonValue::Object(ms) => Json::Object(member_models(v, ms@.len() as int)),
    }
}

/// The models of the first `n` items of an array.
pub open spec fn item_models(v: JsonValue, n: int) -> Seq<Json>
    decreases v, n,
{
    if n <= 0 || n > width(v) {
        Seq::empty()
    } else {
        match v {
            JsonValue::Array(xs) => item_models(v, n - 1).push(model(xs@[n - 1])),
            _ => Seq::empty(),
        }
    }
}

/// The models of the first `n` members of an object.
pub open spec fn member_models(v: JsonValue, n: int) -> Seq<(Seq<char>, Json)>
    decreases v, n,
{
    if n <= 0 || n > width(v) {
        Seq::empty()
    } else {
        match v {
            JsonValue::Object(ms) => member_models(v, n - 1).push(
                (ms@[n - 1].0@, model(ms@[n - 1].1)),
            ),
            _ => Seq::empty(),
        }
    }
}

impl View for JsonValue {
    type V = Json;

    open spec fn view(&self) -> Json {
        model(*self)
    }
}

/// The model of an object held as its list of members.
pub open spec fn members_model(ms: Seq<(String, JsonValue)>) -> Seq<(Seq<char>, Json)> {
    Seq::new(ms.len(), |i: int| (ms[i].0@, ms[i].1@))
}

/// An array's model lists its items' models; an object's, its members'.
pub proof fn lemma_model(v: JsonValue)
    ensures
        v is Array ==> v@ == Json::Array(Seq::new(width(v) as nat, |i: int| v->Array_0@[i]@)),
        v is Object ==> v@ == Json::Object(members_model(v->Object_0@)),
{
    lemma_prefix_models(v, width(v));
    if v is Array {
        assert(item_models(v, width(v)) =~= Seq::new(width(v) as nat, |i: int| v->Array_0@[i]@));
    }
    if v is Object {
        assert(member_models(v, width(v)) =~= members_model(v->Object_0@));
    }
}

proof fn lemma_prefix_models(v: JsonValue, n: int)
    requires
        0 <= n <= width(v),
    ensures
        v is Array ==> item_models(v, n).len() == n && forall|i: int|
            0 <= i < n ==> #[trigger] item_models(v, n)[i] == model(v->Array_0@[i]),
        v is Object ==> member_models(v, n).len() == n && forall|i: int|
            0 <= i < n ==> #[trigger] member_models(v, n)[i] == (
                v->Object_0@[i].0@,
                model(v->Object_0@[i].1),
            ),
    decreases n,
{
    if n > 0 {
        lemma_prefix_models(v, n - 1);
    }
}

/// The number of items or members a value holds directly.
pub open spec fn width(v: JsonValue) -> int {
    match v {
        JsonValue::Array(xs) => xs@.len() as int,
        JsonValue::Object(ms) => ms@.len() as int,
        _ => 0,
    }
}

#[verifier::external_type_specification]
#[verifier::external_body]
pub struct ExValue(Value);

/// The compact JSON text `serde_json` writes for a value
/// (`Value::to_string`): it depends on the value alone.
pub uninterp spec fn json_text(j: Json) -> Seq<char>;

/// A value as a `serde_json::Value`, item for item and member for member;
/// a float's text is read back with `Number`'s `FromStr`. Only
/// `serde_text` calls it; nothing is claimed of it on its own.
#[verifier::external_body]
fn to_serde(v: &JsonValue) -> Value {
    match v {
        JsonValue::Null => Value::Null,
        JsonValue::Bool(b) => Value::Bool(*b),
        JsonValue::Number(JsonNumber::PosInt(n)) => Value::from(*n),
        JsonValue::Number(JsonNumber::NegInt(n)) => Value::from(*n),
        JsonValue::Number(JsonNumber::Float(t)) => t.parse().map_or(Value::Null, Value::Number),
        JsonValue::Str(s) => Value::String(s.clone()),
        JsonValue::Array(xs) => Value::Array(xs.iter().map(to_serde).collect()),
        JsonValue::Object(ms) => Value::Object(ms.iter().map(|(k, x)| (k.clone(), to_serde(x))).collect()),
    }
}

/// `serde_json`'s `Value::to_string` of the value: claimed to be
/// `json_text` of it. What that text is, `serde_json` decides, and it is
/// not stated here.
#[verifier::external_body]
fn serde_text(v: &JsonValue) -> (s: String)
    ensures
        s@ == json_text(v@),
{
    to_serde(v).to_string()
}

pub fn push_all(out: &mut Vec<char>, s: &[char])
    ensures
        final(out)@ == old(out)@ + s@,
{
    let mut i: usize = 0;
    while i < s.len()
        invariant
            i <= s.len(),
            out@ == old(out)@ + s@.take(i as int),
        decreases s.len() - i,
    {
        out.push(s[i]);
        assert(s@.take(i + 1) =~= s@.take(i as int).push(s@[i as int]));
        i += 1;
    }
    assert(s@.take(s.len() as int) =~= s@);
}

pub fn push_text(out: &mut Vec<char>, lit: &str)
    ensures
        final(out)@ == old(out)@ + lit@,
{
    let cs = crate::text::chars_of(lit);
    push_all(out, cs.as_slice());
}

/// The compact JSON text of `v`, as `Value::to_string` gives it.
pub fn json_string(v: &JsonValue) -> (s: String)
    ensures
        s@ == json_text(v@),
{
    serde_text(v)
}

/// The value of the member named `key` in a list of members: the first
/// such (an object holds each key once).
pub open spec fn lookup(ms: Seq<(Seq<char>, Json)>, key: Seq<char>) -> Option<Json>
    decreases ms.len(),
{
    if ms.len() == 0 {
        None
    } else if ms[0].0 == key {
        Some(ms[0].1)
    } else {
        lookup(ms.drop_first(), key)
    }
}

/// `Value::get(key)`: an object's member of that name.
pub open spec fn get(j: Json, key: Seq<char>) -> Option<Json> {
    match j {
        Json::Object(ms) => lookup(ms, key),
        _ => None,
    }
}

/// The index of the member named `key`, if there is one.
pub fn find_member(ms: &Vec<(String, JsonValue)>, key: &str) -> (r: Option<usize>)
    ensures
        match r {
            Some(i) => i < ms.len() && ms@[i as int].0@ == key@ && lookup(
                members_model(ms@),
                key@,
            ) == Some(ms@[i as int].1@),
            None => lookup(members_model(ms@), key@) is None,
        },
{
    let k = crate::text::chars_of(key);
    let ghost all = members_model(ms@);
    let mut i: usize = 0;
    assert(all.skip(0) =~= all);
    while i < ms.len()
        invariant
            i <= ms.len(),
            k@ == key@,
            all == members_model(ms@),
            lookup(all, key@) == lookup(all.skip(i as int), key@),
        decreases ms.len() - i,
    {
        let name = crate::text::chars_of(ms[i].0.as_str());
        assert(all.skip(i as int)[0] == all[i as int]);
        if crate::text::same_chars(name.as_slice(), k.as_slice()) {
            return Some(i);
        }
        assert(all.skip(i as int).drop_first() =~= all.skip(i + 1));
        i += 1;
    }
    None
}

/// `Value::get(key)` on a value held as its list of members.
pub fn row_member<'a>(ms: &'a Vec<(String, JsonValue)>, key: &str) -> (r: Option<&'a JsonValue>)
    ensures
        match r {
            Some(x) => lookup(members_model(ms@), key@) == Some(x@),
            None => lookup(members_model(ms@), key@) is None,
        },
{
    match find_member(ms, key) {
        Some(i) => Some(&ms[i].1),
        None => None,
    }
}

/// `Value::get(key)`.
pub fn member<'a>(v: &'a JsonValue, key: &str) -> (r: Option<&'a JsonValue>)
    ensures
        match r {
            Some(x) => get(v@, key@) == Some(x@),
            None => get(v@, key@) is None,
        },
{
    proof {
        lemma_model(*v);
    }
    match v {
        JsonValue::Object(ms) => row_member(ms, key),
        _ => None,
    }
}

/// `Value::as_str`.
pub open spec fn str_of(j: Json) -> Option<Seq<char>> {
    match j {
        Json::Str(s) => Some(s),
        _ => None,
    }
}

pub fn as_str(v: &JsonValue) -> (r: Option<&String>)
    ensures
        match r {
            Some(s) => str_of(v@) == Some(s@),
            None => str_of(v@) is None,
        },
{
    match v {
        JsonValue::Str(s) => Some(s),
        _ => None,
    }
}

/// `Value::as_u64`: a non-negative integer.
pub open spec fn u64_of(j: Json) -> Option<u64> {
    match j {
        Json::Number(Num::PosInt(n)) => Some(n),
        _ => None,
    }
}

pub fn as_u64(v: &JsonValue) -> (r: Option<u64>)
    ensures
        r == u64_of(v@),
{
    match v {
        JsonValue::Number(JsonNumber::PosInt(n)) => Some(*n),
        _ => None,
    }
}

pub fn copy_number(n: &JsonNumber) -> (r: JsonNumber)
    ensures
        num_model(r) == num_model(*n),
{
    match n {
        JsonNumber::PosInt(x) => JsonNumber::PosInt(*x),
        JsonNumber::NegInt(x) => JsonNumber::NegInt(*x),
        JsonNumber::Float(t) => JsonNumber::Float(t.clone()),
    }
}

/// A copy of `v`: the same value.
pub fn copy_json(v: &JsonValue) -> (r: JsonValue)
    ensures
        r@ == v@,
    decreases v,
{
    proof {
        lemma_model(*v);
    }
    match v {
        JsonValue::Null => JsonValue::Null,
        JsonValue::Bool(b) => JsonValue::Bool(*b),
        JsonValue::Number(n) => JsonValue::Number(copy_number(n)),
        JsonValue::Str(s) => JsonValue::Str(s.clone()),
        JsonValue::Array(xs) => {
            let mut out: Vec<JsonValue> = Vec::new();
            let mut i: usize = 0;
            while i < xs.len()
                invariant
                    i <= xs.len(),
                    out.len() == i,
                    *v == JsonValue::Array(*xs),
                    forall|k: int| 0 <= k < i ==> #[trigger] out@[k]@ == xs@[k]@,
                decreases xs.len() - i,
            {
                proof {
                    assert(decreases_to!(*v => (*v)->Array_0));
                    assert(decreases_to!(*xs => xs@));
                    assert(decreases_to!(xs@ => xs@[i as int]));
                }
                let c = copy_json(&xs[i]);
                out.push(c);
                i += 1;
            }
            let r = JsonValue::Array(out);
            proof {
                lemma_model(r);
                assert(Seq::new(width(r) as nat, |k: int| r->Array_0@[k]@) =~= Seq::new(
                    width(*v) as nat,
                    |k: int| v->Array_0@[k]@,
                ));
            }
            r
        },
        JsonValue::Object(ms) => {
            let out = copy_members(ms);
            let r = JsonValue::Object(out);
            proof {
                lemma_model(r);
            }
            r
        },
    }
}

/// A copy of a list of members.
pub fn copy_members(ms: &Vec<(String, JsonValue)>) -> (r: Vec<(String, JsonValue)>)
    ensures
        members_model(r@) == members_model(ms@),
    decreases ms,
{
    let mut out: Vec<(String, JsonValue)> = Vec::new();
    let mut i: usize = 0;
    while i < ms.len()
        invariant
            i <= ms.len(),
            out.len() == i,
            forall|k: int|
                0 <= k < i ==> #[trigger] out@[k].0@ == ms@[k].0@ && out@[k].1@ == ms@[k].1@,
        decreases ms.len() - i,
    {
        proof {
            assert(decreases_to!(*ms => ms@));
            assert(decreases_to!(ms@ => ms@[i as int]));
            assert(decreases_to!(ms@[i as int] => ms@[i as int].1));
        }
        let value = copy_json(&ms[i].1);
        out.push((ms[i].0.clone(), value));
        i += 1;
    }
    assert(members_model(out@) =~= members_model(ms@));
    out
}

/// The text `serde_json` writes for a float zero, of either sign.
pub open spec fn is_zero_text(t: Seq<char>) -> bool {
    t == "0.0"@ || t == "-0.0"@
}

/// `==` on `serde_json` numbers: integers by their value, floats by the
/// float they stand for (the text `serde_json` writes is one per float,
/// but for the two zeros, which are equal); an integer is no float.
pub open spec fn num_eq(a: Num, b: Num) -> bool {
    match (a, b) {
        (Num::Float(x), Num::Float(y)) => x == y || (is_zero_text(x) && is_zero_text(y)),
        (Num::Float(_), _) => false,
        (_, Num::Float(_)) => false,
        _ => int_value(a) == int_value(b),
    }
}

pub open spec fn int_value(n: Num) -> int {
    match n {
        Num::PosInt(x) => x as int,
        Num::NegInt(x) => x as int,
        Num::Float(_) => 0,
    }
}

/// `==` on `serde_json` values: the same kind, equal numbers, strings and
/// booleans, and items and members equal one for one.
pub open spec fn json_eq(a: Json, b: Json) -> bool
    decreases a, 0int,
{
    match (a, b) {
        (Json::Null, Json::Null) => true,
        (Json::Bool(x), Json::Bool(y)) => x == y,
        (Json::Number(x), Json::Number(y)) => num_eq(x, y),
        (Json::Str(x), Json::Str(y)) => x == y,
        (Json::Array(xs), Json::Array(ys)) => xs.len() == ys.len() && items_eq(xs, ys, xs.len() as int),
        (Json::Object(xs), Json::Object(ys)) => xs.len() == ys.len() && members_eq(
            xs,
            ys,
            xs.len() as int,
        ),
        _ => false,
    }
}

/// The first `n` items are equal one for one.
pub open spec fn items_eq(xs: Seq<Json>, ys: Seq<Json>, n: int) -> bool
    decreases xs, n,
{
    if n <= 0 || n > xs.len() {
        true
    } else {
        proof {
            assert(decreases_to!(xs => xs[n - 1]));
        }
        items_eq(xs, ys, n - 1) && json_eq(xs[n - 1], ys[n - 1])
    }
}

/// The first `n` members have equal keys and equal values one for one.
pub open spec fn members_eq(xs: Seq<(Seq<char>, Json)>, ys: Seq<(Seq<char>, Json)>, n: int) -> bool
    decreases xs, n,
{
    if n <= 0 || n > xs.len() {
        true
    } else {
        proof {
            assert(decreases_to!(xs => xs[n - 1]));
            assert(decreases_to!(xs[n - 1] => xs[n - 1].1));
        }
        members_eq(xs, ys, n - 1) && xs[n - 1].0 == ys[n - 1].0 && json_eq(xs[n - 1].1, ys[n - 1].1)
    }
}

proof fn lemma_items_eq_prefix(xs: Seq<Json>, ys: Seq<Json>, m: int, n: int)
    requires
        0 <= m <= n <= xs.len(),
        items_eq(xs, ys, n),
    ensures
        items_eq(xs, ys, m),
    decreases n,
{
    if m < n {
        lemma_items_eq_prefix(xs, ys, m, n - 1);
    }
}

proof fn lemma_members_eq_prefix(xs: Seq<(Seq<char>, Json)>, ys: Seq<(Seq<char>, Json)>, m: int, n: int)
    requires
        0 <= m <= n <= xs.len(),
        members_eq(xs, ys, n),
    ensures
        members_eq(xs, ys, m),
    decreases n,
{
    if m < n {
        lemma_members_eq_prefix(xs, ys, m, n - 1);
    }
}

fn is_zero_float(t: &String) -> (r: bool)
    ensures
        r == is_zero_text(t@),
{
    let c = crate::text::chars_of(t.as_str());
    crate::text::is_text(c.as_slice(), "0.0") || crate::text::is_text(c.as_slice(), "-0.0")
}

/// `==` on numbers, as `serde_json` compares them.
pub fn numbers_equal(a: &JsonNumber, b: &JsonNumber) -> (r: bool)
    ensures
        r == num_eq(num_model(*a), num_model(*b)),
{
    match (a, b) {
        (JsonNumber::PosInt(x), JsonNumber::PosInt(y)) => *x == *y,
        (JsonNumber::NegInt(x), JsonNumber::NegInt(y)) => *x == *y,
        (JsonNumber::PosInt(x), JsonNumber::NegInt(y)) => *y >= 0 && *x == *y as u64,
        (JsonNumber::NegInt(x), JsonNumber::PosInt(y)) => *x >= 0 && *x as u64 == *y,
        (JsonNumber::Float(x), JsonNumber::Float(y)) => {
            let p = crate::text::chars_of(x.as_str());
            let q = crate::text::chars_of(y.as_str());
            crate::text::same_chars(p.as_slice(), q.as_slice()) || (is_zero_float(x)
                && is_zero_float(y))
        },
        _ => false,
    }
}

/// `==` on values, as `serde_json` compares them.
pub fn json_equal(a: &JsonValue, b: &JsonValue) -> (r: bool)
    ensures
        r == json_eq(a@, b@),
    decreases a,
{
    proof {
        lemma_model(*a);
        lemma_model(*b);
    }
    match (a, b) {
        (JsonValue::Null, JsonValue::Null) => true,
        (JsonValue::Bool(x), JsonValue::Bool(y)) => *x == *y,
        (JsonValue::Number(x), JsonValue::Number(y)) => numbers_equal(x, y),
        (JsonValue::Str(x), JsonValue::Str(y)) => {
            let p = crate::text::chars_of(x.as_str());
            let q = crate::text::chars_of(y.as_str());
            crate::text::same_chars(p.as_slice(), q.as_slice())
        },
        (JsonValue::Array(xs), JsonValue::Array(ys)) => {
            let ghost sa = Seq::new(width(*a) as nat, |k: int| a->Array_0@[k]@);
            let ghost sb = Seq::new(width(*b) as nat, |k: int| b->Array_0@[k]@);
            if xs.len() != ys.len() {
                assert(sa.len() != sb.len());
                return false;
            }
            let mut i: usize = 0;
            while i < xs.len()
                invariant
                    i <= xs.len(),
                    xs.len() == ys.len(),
                    *a == JsonValue::Array(*xs),
                    *b == JsonValue::Array(*ys),
                    sa == Seq::new(width(*a) as nat, |k: int| a->Array_0@[k]@),
                    sb == Seq::new(width(*b) as nat, |k: int| b->Array_0@[k]@),
                    a@ == Json::Array(sa),
                    b@ == Json::Array(sb),
                    items_eq(sa, sb, i as int),
                decreases xs.len() - i,
            {
                proof {
                    assert(decreases_to!(*a => (*a)->Array_0));
                    assert(decreases_to!(*xs => xs@));
                    assert(decreases_to!(xs@ => xs@[i as int]));
                }
                if !json_equal(&xs[i], &ys[i]) {
                    proof {
                        assert(!items_eq(sa, sb, i + 1));
                        if items_eq(sa, sb, sa.len() as int) {
                            lemma_items_eq_prefix(sa, sb, i + 1, sa.len() as int);
                        }
                    }
                    return false;
                }
                i += 1;
            }
            true
        },
        (JsonValue::Object(xs), JsonValue::Object(ys)) => {
            let ghost sa = members_model(xs@);
            let ghost sb = members_model(ys@);
            if xs.len() != ys.len() {
                assert(sa.len() != sb.len());
                return false;
            }
            let mut i: usize = 0;
            while i < xs.len()
                invariant
                    i <= xs.len(),
                    xs.len() == ys.len(),
                    *a == JsonValue::Object(*xs),
                    *b == JsonValue::Object(*ys),
                    sa == members_model(xs@),
                    sb == members_model(ys@),
                    a@ == Json::Object(sa),
                    b@ == Json::Object(sb),
                    members_eq(sa, sb, i as int),
                decreases xs.len() - i,
            {
                let p = crate::text::chars_of(xs[i].0.as_str());
                let q = crate::text::chars_of(ys[i].0.as_str());
                if !crate::text::same_chars(p.as_slice(), q.as_slice()) {
                    proof {
                        assert(!members_eq(sa, sb, i + 1));
                        if members_eq(sa, sb, sa.len() as int) {
                            lemma_members_eq_prefix(sa, sb, i + 1, sa.len() as int);
                        }
                    }
                    return false;
                }
                proof {
                    assert(decreases_to!(*a => (*a)->Object_0));
                    assert(decreases_to!(*xs => xs@));
                    assert(decreases_to!(xs@ => xs@[i as int]));
                    assert(decreases_to!(xs@[i as int] => xs@[i as int].1));
                }
                if !json_equal(&xs[i].1, &ys[i].1) {
                    proof {
                        assert(!members_eq(sa, sb, i + 1));
                        if members_eq(sa, sb, sa.len() as int) {
                            lemma_members_eq_prefix(sa, sb, i + 1, sa.len() as int);
                        }
                    }
                    return false;
                }
                i += 1;
            }
            true
        },
        _ => false,
    }
}

} // verus!
