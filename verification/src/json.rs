//! JSON documents as plain values, read and written by `serde_json`.

use vstd::prelude::*;

verus! {

/// The value of a JSON text as `serde_json` holds it.
#[verifier::external_type_specification]
#[verifier::external_body]
pub struct ExValue(serde_json::Value);

/// A JSON value. Numbers that are not whole are told apart from whole ones, but not from each
/// other.
#[derive(Debug, PartialEq)]
pub enum Json {
    Null,
    Bool(bool),
    Integer(i128),
    Fraction,
    Text(String),
    List(Vec<Json>),
    Object(Vec<(String, Json)>),
}

/// What a [`Json`] stands for.
pub ghost enum JsonView {
    Null,
    Bool(bool),
    Integer(int),
    Fraction,
    Text(Seq<char>),
    List(Seq<JsonView>),
    Object(Map<Seq<char>, JsonView>),
}

impl View for Json {
    type V = JsonView;

    open spec fn view(&self) -> JsonView {
        value_of(*self)
    }
}

/// What a value stands for.
pub open spec fn value_of(j: Json) -> JsonView
    decreases j,
{
    match j {
        Json::Null => JsonView::Null,
        Json::Bool(b) => JsonView::Bool(b),
        Json::Integer(i) => JsonView::Integer(i as int),
        Json::Fraction => JsonView::Fraction,
        Json::Text(s) => JsonView::Text(s@),
        Json::List(v) => JsonView::List(items_of(v@)),
        Json::Object(v) => JsonView::Object(members_of(v@)),
    }
}

/// What a list stands for.
pub open spec fn items_of(v: Seq<Json>) -> Seq<JsonView>
    decreases v,
{
    if v.len() == 0 {
        Seq::empty()
    } else {
        items_of(v.drop_last()).push(value_of(v.last()))
    }
}

/// What the members of an object stand for; of several with one name the last counts.
pub open spec fn members_of(v: Seq<(String, Json)>) -> Map<Seq<char>, JsonView>
    decreases v,
{
    if v.len() == 0 {
        Map::empty()
    } else {
        members_of(v.drop_last()).insert(v.last().0@, value_of(v.last().1))
    }
}

/// Lists and objects in `v` are nested at most `n` deep.
pub open spec fn shallow(v: JsonView, n: nat) -> bool
    decreases n,
{
    match v {
        JsonView::List(s) => n > 0 && forall|i: int|
            0 <= i < s.len() ==> shallow(#[trigger] s[i], (n - 1) as nat),
        JsonView::Object(m) => n > 0 && forall|k: Seq<char>| #[trigger]
            m.dom().contains(k) ==> shallow(m[k], (n - 1) as nat),
        _ => true,
    }
}

/// All numbers in `v` are whole and can be held in 64 bits; lists and objects are nested at most
/// `n` deep.
pub open spec fn whole(v: JsonView, n: nat) -> bool
    decreases n,
{
    match v {
        JsonView::Integer(i) => i64::MIN <= i <= u64::MAX,
        JsonView::Fraction => false,
        JsonView::List(s) => n > 0 && forall|i: int|
            0 <= i < s.len() ==> whole(#[trigger] s[i], (n - 1) as nat),
        JsonView::Object(m) => n > 0 && forall|k: Seq<char>| #[trigger]
            m.dom().contains(k) ==> whole(m[k], (n - 1) as nat),
        _ => true,
    }
}

/// The names of members are all different.
pub open spec fn names_differ(v: Seq<(String, Json)>) -> bool {
    forall|i: int, k: int|
        0 <= i < k < v.len() ==> (#[trigger] v[i]).0@ != (#[trigger] v[k]).0@
}

/// All numbers in `j` are whole and can be held in 64 bits, no object in it has two members of one
/// name, and lists and objects are nested at most `n` deep.
pub open spec fn writable(j: Json, n: nat) -> bool
    decreases n,
{
    match j {
        Json::Integer(i) => i64::MIN <= i <= u64::MAX,
        Json::Fraction => false,
        Json::List(v) => n > 0 && forall|i: int|
            0 <= i < v@.len() ==> writable(#[trigger] v@[i], (n - 1) as nat),
        Json::Object(v) => n > 0 && names_differ(v@) && forall|i: int|
            0 <= i < v@.len() ==> writable((#[trigger] v@[i]).1, (n - 1) as nat),
        _ => true,
    }
}

/// How deep `serde_json` lets lists and objects be nested in a text.
pub open spec fn depth_limit() -> nat {
    127
}

/// What a text stands for, where it is a JSON document: what `serde_json::from_str` makes of it.
pub uninterp spec fn json_of(text: Seq<char>) -> Option<JsonView>;

/// What a value of `serde_json` holds.
pub uninterp spec fn json_view(v: serde_json::Value) -> JsonView;

/// `serde_json::from_str`: a text that is no JSON document, or one that is nested too deep, gives
/// nothing. What it gives is fixed by the text.
#[verifier::external_body]
fn value_from_text(text: &str) -> (r: Option<serde_json::Value>)
    ensures
        r is Some == json_of(text@) is Some,
        r matches Some(v) ==> json_of(text@) == Some(json_view(v)) && shallow(
            json_view(v),
            depth_limit(),
        ),
{
    serde_json::from_str(text).ok()
}

/// The variants of `serde_json::Value` as plain values: `Number::as_i128` gives the whole numbers,
/// and of two members of one name an object keeps one.
#[verifier::external_body]
fn plain(v: serde_json::Value) -> (r: Json)
    requires
        shallow(json_view(v), depth_limit()),
    ensures
        r@ == json_view(v),
{
    match v {
        serde_json::Value::Null => Json::Null,
        serde_json::Value::Bool(b) => Json::Bool(b),
        serde_json::Value::Number(n) => n.as_i128().map_or(Json::Fraction, Json::Integer),
        serde_json::Value::String(s) => Json::Text(s),
        serde_json::Value::Array(a) => Json::List(a.into_iter().map(plain).collect()),
        serde_json::Value::Object(m) => Json::Object(
            m.into_iter().map(|(k, x)| (k, plain(x))).collect(),
        ),
    }
}

/// Plain values as variants of `serde_json::Value`: `Number::from_i128` takes every whole number
/// that can be held in 64 bits, and an object holds each member under its name.
#[verifier::external_body]
fn value(j: &Json) -> (r: serde_json::Value)
    requires
        writable(*j, depth_limit()),
    ensures
        json_view(r) == j@,
{
    match j {
        Json::Null | Json::Fraction => serde_json::Value::Null,
        Json::Bool(b) => serde_json::Value::Bool(*b),
        Json::Integer(i) => serde_json::Number::from_i128(*i).map(serde_json::Value::Number).into(),
        Json::Text(s) => serde_json::Value::String(s.clone()),
        Json::List(a) => serde_json::Value::Array(a.iter().map(value).collect()),
        Json::Object(m) => serde_json::Value::Object(
            m.iter().map(|(k, x)| (k.clone(), value(x))).collect(),
        ),
    }
}

/// `serde_json::Value::to_string`: the text that is written from a value of whole numbers reads as
/// the value it was written from. Nothing is said of how the text is laid out.
#[verifier::external_body]
fn text_from_value(v: &serde_json::Value) -> (r: String)
    requires
        whole(json_view(*v), depth_limit()),
    ensures
        json_of(r@) == Some(json_view(*v)),
{
    v.to_string()
}

/// Reads a JSON document.
pub fn parse(text: &str) -> (r: Option<Json>)
    ensures
        match r {
            Some(j) => json_of(text@) == Some(j@),
            None => json_of(text@) is None,
        },
{
    match value_from_text(text) {
        Some(v) => Some(plain(v)),
        None => None,
    }
}

/// Writes a JSON document.
pub fn to_text(j: &Json) -> (r: String)
    requires
        writable(*j, depth_limit()),
    ensures
        json_of(r@) == Some(j@),
{
    proof {
        lemma_writable_is_whole(*j, depth_limit());
    }
    let v = value(j);
    text_from_value(&v)
}

/// The member of that name, where the value is an object that has one.
pub open spec fn member(v: JsonView, key: Seq<char>) -> Option<JsonView> {
    match v {
        JsonView::Object(m) if m.dom().contains(key) => Some(m[key]),
        _ => None,
    }
}

/// The text, where the value is one.
pub open spec fn as_text(v: Option<JsonView>) -> Option<Seq<char>> {
    match v {
        Some(JsonView::Text(s)) => Some(s),
        _ => None,
    }
}

/// The number, where the value is one that a `u64` holds.
pub open spec fn as_natural(v: Option<JsonView>) -> Option<u64> {
    match v {
        Some(JsonView::Integer(i)) if 0 <= i <= u64::MAX => Some(i as u64),
        _ => None,
    }
}

/// The number, where the value is one that an `i64` holds.
pub open spec fn as_integer(v: Option<JsonView>) -> Option<i64> {
    match v {
        Some(JsonView::Integer(i)) if i64::MIN <= i <= i64::MAX => Some(i as i64),
        _ => None,
    }
}

/// The items, where the value is a list.
pub open spec fn as_list(v: Option<JsonView>) -> Option<Seq<JsonView>> {
    match v {
        Some(JsonView::List(s)) => Some(s),
        _ => None,
    }
}

/// What an optional value stands for.
pub open spec fn optional_view(j: Option<&Json>) -> Option<JsonView> {
    match j {
        Some(j) => Some(j@),
        None => None,
    }
}

proof fn lemma_members_prefix(v: Seq<(String, Json)>, n: int, key: Seq<char>)
    requires
        0 <= n <= v.len(),
        forall|i: int| n <= i < v.len() ==> (#[trigger] v[i]).0@ != key,
    ensures
        members_of(v).dom().contains(key) == members_of(v.take(n)).dom().contains(key),
        members_of(v).dom().contains(key) ==> members_of(v)[key] == members_of(v.take(n))[key],
    decreases v.len(),
{
    if n < v.len() {
        let before = v.drop_last();
        assert forall|i: int| n <= i < before.len() implies (#[trigger] before[i]).0@ != key by {
            assert(before[i] == v[i]);
        }
        lemma_members_prefix(before, n, key);
        assert(before.take(n) =~= v.take(n));
        assert(v[v.len() - 1].0@ != key);
    } else {
        assert(v.take(n) =~= v);
    }
}

/// A list stands for what its items stand for.
pub proof fn lemma_items(v: Seq<Json>)
    ensures
        items_of(v).len() == v.len(),
        forall|i: int| 0 <= i < v.len() ==> #[trigger] items_of(v)[i] == value_of(v[i]),
    decreases v.len(),
{
    if v.len() > 0 {
        lemma_items(v.drop_last());
        assert forall|i: int| 0 <= i < v.len() implies #[trigger] items_of(v)[i] == value_of(v[i]) by {
            if i < v.len() - 1 {
                assert(items_of(v.drop_last())[i] == value_of(v.drop_last()[i]));
            }
        }
    }
}

/// Each member that an object stands for was put into it.
proof fn lemma_member_is_held(v: Seq<(String, Json)>, key: Seq<char>)
    requires
        members_of(v).dom().contains(key),
    ensures
        exists|i: int|
            0 <= i < v.len() && (#[trigger] v[i]).0@ == key && members_of(v)[key] == value_of(v[i].1),
    decreases v.len(),
{
    let n = v.len() - 1;
    if v[n].0@ == key {
        assert(v.last() == v[n]);
    } else {
        let before = v.drop_last();
        lemma_member_is_held(before, key);
        let i = choose|i: int|
            0 <= i < before.len() && (#[trigger] before[i]).0@ == key && members_of(before)[key]
                == value_of(before[i].1);
        assert(v[i] == before[i]);
    }
}

/// What can be written stands for whole numbers.
proof fn lemma_writable_is_whole(j: Json, n: nat)
    requires
        writable(j, n),
    ensures
        whole(j@, n),
    decreases n,
{
    match j {
        Json::List(v) => {
            lemma_items(v@);
            let items = items_of(v@);
            assert forall|i: int| 0 <= i < items.len() implies whole(
                #[trigger] items[i],
                (n - 1) as nat,
            ) by {
                lemma_writable_is_whole(v@[i], (n - 1) as nat);
            }
        },
        Json::Object(v) => {
            let members = members_of(v@);
            assert forall|k: Seq<char>| #[trigger] members.dom().contains(k) implies whole(
                members[k],
                (n - 1) as nat,
            ) by {
                lemma_member_is_held(v@, k);
                let i = choose|i: int|
                    0 <= i < v@.len() && (#[trigger] v@[i]).0@ == k && members[k] == value_of(
                        v@[i].1,
                    );
                lemma_writable_is_whole(v@[i].1, (n - 1) as nat);
            }
        },
        _ => {},
    }
}

impl Json {
    /// Finds the member of that name.
    pub fn get(&self, key: &str) -> (r: Option<&Json>)
        ensures
            optional_view(r) == member(self@, key@),
    {
        match self {
            Json::Object(m) => {
                let mut i: usize = m.len();
                let wanted = key.to_owned();
                while i > 0
                    invariant
                        i <= m.len(),
                        wanted@ == key@,
                        self@ == JsonView::Object(members_of(m@)),
                        forall|j: int| i <= j < m@.len() ==> (#[trigger] m@[j]).0@ != key@,
                    decreases i,
                {
                    if m[i - 1].0 == wanted {
                        proof {
                            lemma_members_prefix(m@, i as int, key@);
                            assert(m@.take(i as int).drop_last() =~= m@.take(i - 1));
                            assert(m@.take(i as int).last() == m@[i - 1]);
                        }
                        return Some(&m[i - 1].1);
                    }
                    i -= 1;
                }
                proof {
                    lemma_members_prefix(m@, 0, key@);
                    assert(m@.take(0) =~= Seq::empty());
                }
                None
            },
            _ => None,
        }
    }

    /// The text, where the value is one.
    pub fn as_str(&self) -> (r: Option<&String>)
        ensures
            match r {
                Some(s) => as_text(Some(self@)) == Some(s@),
                None => as_text(Some(self@)) is None,
            },
    {
        match self {
            Json::Text(s) => Some(s),
            _ => None,
        }
    }

    /// The number, where the value is one that a `u64` holds.
    pub fn as_u64(&self) -> (r: Option<u64>)
        ensures
            r == as_natural(Some(self@)),
    {
        match self {
            Json::Integer(i) if 0 <= *i && *i <= u64::MAX as i128 => Some(*i as u64),
            _ => None,
        }
    }

    /// The number, where the value is one that an `i64` holds.
    pub fn as_i64(&self) -> (r: Option<i64>)
        ensures
            r == as_integer(Some(self@)),
    {
        match self {
            Json::Integer(i) if i64::MIN as i128 <= *i && *i <= i64::MAX as i128 => Some(*i as i64),
            _ => None,
        }
    }

    /// The items, where the value is a list.
    pub fn as_array(&self) -> (r: Option<&Vec<Json>>)
        ensures
            match r {
                Some(v) => as_list(Some(self@)) == Some(items_of(v@)),
                None => as_list(Some(self@)) is None,
            },
    {
        match self {
            Json::List(v) => Some(v),
            _ => None,
        }
    }

    /// Tests for an object.
    pub fn is_object(&self) -> (r: bool)
        ensures
            r == self@ is Object,
    {
        match self {
            Json::Object(_) => true,
            _ => false,
        }
    }

    /// Tests for the absence of a value.
    pub fn is_null(&self) -> (r: bool)
        ensures
            r == (self@ == JsonView::Null),
    {
        match self {
            Json::Null => true,
            _ => false,
        }
    }
}

/// Reads a text, where there is one.
pub fn text_in(j: Option<&Json>) -> (r: Option<String>)
    ensures
        match r {
            Some(s) => as_text(optional_view(j)) == Some(s@),
            None => as_text(optional_view(j)) is None,
        },
{
    match j {
        Some(j) => match j.as_str() {
            Some(s) => Some(s.clone()),
            None => None,
        },
        None => None,
    }
}

/// Reads a number, where there is one that a `u64` holds.
pub fn natural_in(j: Option<&Json>) -> (r: Option<u64>)
    ensures
        r == as_natural(optional_view(j)),
{
    match j {
        Some(j) => j.as_u64(),
        None => None,
    }
}

/// Reads a number, where there is one that an `i64` holds.
pub fn integer_in(j: Option<&Json>) -> (r: Option<i64>)
    ensures
        r == as_integer(optional_view(j)),
{
    match j {
        Some(j) => j.as_i64(),
        None => None,
    }
}

/// One item more at the end of a list.
pub proof fn lemma_push_item(v: Seq<Json>, j: Json)
    ensures
        items_of(v.push(j)) == items_of(v).push(value_of(j)),
{
    assert(v.push(j).drop_last() =~= v);
}

/// Puts a member into an object.
pub fn put_member(m: &mut Vec<(String, Json)>, key: &str, j: Json)
    ensures
        members_of(final(m)@) == members_of(old(m)@).insert(key@, j@),
        final(m)@ == old(m)@.push(final(m)@.last()),
        final(m)@.last().0@ == key@,
        final(m)@.last().1 == j,
{
    let ghost start = m@;
    m.push((key.to_owned(), j));
    assert(m@.drop_last() =~= start);
}

/// A member that was put into an object is found under its name, with the value that was put in
/// last; all others are as they were.
pub proof fn lemma_member_is_found(v: Seq<(String, Json)>, e: (String, Json), other: Seq<char>)
    ensures
        member(JsonView::Object(members_of(v.push(e))), e.0@) == Some(value_of(e.1)),
        other != e.0@ ==> member(JsonView::Object(members_of(v.push(e))), other) == member(
            JsonView::Object(members_of(v)),
            other,
        ),
        member(JsonView::Object(members_of(Seq::empty())), other) is None,
{
    assert(v.push(e).drop_last() =~= v);
}

/// A number is read where it can be held: none that is below zero where only others can be, and
/// none that is not whole.
pub proof fn lemma_numbers_are_read_where_they_fit(n: int)
    ensures
        as_natural(Some(JsonView::Integer(n))) is Some == (0 <= n <= u64::MAX),
        as_integer(Some(JsonView::Integer(n))) is Some == (i64::MIN <= n <= i64::MAX),
        0 <= n <= u64::MAX ==> as_natural(Some(JsonView::Integer(n))) == Some(n as u64),
        i64::MIN <= n <= i64::MAX ==> as_integer(Some(JsonView::Integer(n))) == Some(n as i64),
        as_natural(Some(JsonView::Fraction)) is None,
        as_integer(Some(JsonView::Fraction)) is None,
        as_natural(None) is None,
        as_integer(None) is None,
        as_text(Some(JsonView::Integer(n))) is None,
{
}

} // verus!
