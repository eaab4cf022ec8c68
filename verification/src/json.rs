//! JSON documents as plain values.

use crate::digest;
use crate::order;
use crate::order::text_less;
use crate::text;
use crate::text::text_equal;
use vstd::prelude::*;
use vstd::string::*;

verus! {

#[verifier::external_type_specification]
#[verifier::external_body]
pub struct ExJsonValue(serde_json::Value);

#[verifier::external_type_specification]
#[verifier::external_body]
pub struct ExJsonNumber(serde_json::Number);

#[verifier::external_type_specification]
#[verifier::external_body]
pub struct ExJsonError(serde_json::Error);

/// A JSON document. The members of an object stand in the order of their
/// names, each name once.
#[derive(Debug)]
pub enum Json {
    Null,
    Bool(bool),
    Number(serde_json::Number),
    Text(String),
    List(Vec<Json>),
    Object(Vec<Member>),
}

/// A member of an object.
#[derive(Debug)]
pub struct Member {
    pub name: String,
    pub value: Json,
}

/// The contents of [`Json`].
pub enum JsonModel {
    Null,
    Bool(bool),
    Number(serde_json::Number),
    Text(Seq<char>),
    List(Seq<JsonModel>),
    Object(Seq<(Seq<char>, JsonModel)>),
}

/// The contents of a document.
pub open spec fn json_model(j: Json) -> JsonModel
    decreases j,
{
    match j {
        Json::Null => JsonModel::Null,
        Json::Bool(b) => JsonModel::Bool(b),
        Json::Number(n) => JsonModel::Number(n),
        Json::Text(s) => JsonModel::Text(s@),
        Json::List(list) => JsonModel::List(
            Seq::new(
                list@.len(),
                |i: int|
                    if 0 <= i < list@.len() {
                        json_model(list@[i])
                    } else {
                        arbitrary()
                    },
            ),
        ),
        Json::Object(members) => JsonModel::Object(
            Seq::new(
                members@.len(),
                |i: int|
                    if 0 <= i < members@.len() {
                        (members@[i].name@, json_model(members@[i].value))
                    } else {
                        arbitrary()
                    },
            ),
        ),
    }
}

impl View for Json {
    type V = JsonModel;

    open spec fn view(&self) -> JsonModel {
        json_model(*self)
    }
}

/// The contents of a list of documents.
pub open spec fn list_models(s: Seq<Json>) -> Seq<JsonModel> {
    Seq::new(s.len(), |i: int| json_model(s[i]))
}

/// The contents of the members of an object.
pub open spec fn member_models(s: Seq<Member>) -> Seq<(Seq<char>, JsonModel)> {
    Seq::new(s.len(), |i: int| (s[i].name@, json_model(s[i].value)))
}

/// The contents of a list.
pub proof fn lemma_list_model(list: Vec<Json>)
    ensures
        json_model(Json::List(list)) == JsonModel::List(list_models(list@)),
{
    assert(json_model(Json::List(list))->List_0 =~= list_models(list@));
}

/// The contents of an object.
pub proof fn lemma_object_model(members: Vec<Member>)
    ensures
        json_model(Json::Object(members)) == JsonModel::Object(member_models(members@)),
{
    assert(json_model(Json::Object(members))->Object_0 =~= member_models(members@));
}

/// What a JSON text stands for.
pub uninterp spec fn parsed_json(text: Seq<char>) -> Option<JsonModel>;

/// What a JSON value of the outside library holds.
pub uninterp spec fn json_contents(value: serde_json::Value) -> JsonModel;

/// The names of members.
pub open spec fn member_names(members: Seq<(Seq<char>, JsonModel)>) -> Seq<Seq<char>> {
    members.map_values(|m: (Seq<char>, JsonModel)| m.0)
}

/// The last of the first `n` members with this name; -1 where there is none.
pub open spec fn last_member(
    members: Seq<(Seq<char>, JsonModel)>,
    name: Seq<char>,
    n: nat,
) -> int
    decreases n,
{
    if n == 0 || members[n - 1].0 == name {
        n - 1
    } else {
        last_member(members, name, (n - 1) as nat)
    }
}

/// A document with the members of every object in the order of their names, each
/// name once: of members with one name the last stays.
pub open spec fn closed_json(doc: JsonModel) -> JsonModel
    decreases doc,
{
    match doc {
        JsonModel::List(xs) => JsonModel::List(
            Seq::new(
                xs.len(),
                |i: int|
                    if 0 <= i < xs.len() {
                        closed_json(xs[i])
                    } else {
                        arbitrary()
                    },
            ),
        ),
        JsonModel::Object(xs) => {
            let names = order::sorted_set(member_names(xs));
            JsonModel::Object(
                Seq::new(
                    names.len(),
                    |k: int|
                        {
                            let i = last_member(xs, names[k], xs.len());
                            if 0 <= i < xs.len() {
                                (names[k], closed_json(xs[i].1))
                            } else {
                                arbitrary()
                            }
                        },
                ),
            )
        },
        _ => doc,
    }
}

/// The compact text of a value of the outside library.
pub uninterp spec fn value_text(contents: JsonModel) -> Seq<char>;

/// The indented text of a value of the outside library.
pub uninterp spec fn value_pretty(contents: JsonModel) -> Seq<char>;

/// The compact text of a document.
pub open spec fn printed_json(doc: JsonModel) -> Seq<char> {
    value_text(closed_json(doc))
}

/// The indented text of a document.
pub open spec fn pretty_json(doc: JsonModel) -> Seq<char> {
    value_pretty(closed_json(doc))
}

/// Reads a JSON text.
///
/// Calls `serde_json::from_str`. Which texts it accepts, and what they stand
/// for, depends on the text alone and is named [`parsed_json`].
#[verifier::external_body]
pub(crate) fn read_value(text: &str) -> (r: Result<serde_json::Value, serde_json::Error>)
    ensures
        r is Ok <==> parsed_json(text@) is Some,
        r matches Ok(v) ==> parsed_json(text@) == Some(json_contents(v)),
{
    serde_json::from_str::<serde_json::Value>(text)
}

/// Takes a `serde_json::Value` apart, variant by variant; the result holds what
/// the value holds. The members of an object come in the order of their names.
#[verifier::external_body]
pub(crate) fn open_value(value: serde_json::Value) -> (r: Json)
    ensures
        r@ == json_contents(value),
{
    match value {
        serde_json::Value::Null => Json::Null,
        serde_json::Value::Bool(b) => Json::Bool(b),
        serde_json::Value::Number(n) => Json::Number(n),
        serde_json::Value::String(s) => Json::Text(s),
        serde_json::Value::Array(a) => Json::List(a.into_iter().map(open_value).collect()),
        serde_json::Value::Object(o) => Json::Object(
            o.into_iter().map(|(name, v)| Member { name, value: open_value(v) }).collect(),
        ),
    }
}

/// Puts a `serde_json::Value` together, variant by variant. The map of an object
/// is ordered by name, and a member replaces an earlier one of the same name.
#[verifier::external_body]
fn close_value(doc: &Json) -> (r: serde_json::Value)
    ensures
        json_contents(r) == closed_json(doc@),
{
    match doc {
        Json::Null => serde_json::Value::Null,
        Json::Bool(b) => serde_json::Value::Bool(*b),
        Json::Number(n) => serde_json::Value::Number(n.clone()),
        Json::Text(s) => serde_json::Value::String(s.clone()),
        Json::List(list) => serde_json::Value::Array(list.iter().map(close_value).collect()),
        Json::Object(members) => serde_json::Value::Object(
            members.iter().map(|m| (m.name.clone(), close_value(&m.value))).collect(),
        ),
    }
}

/// Writes a value on one line.
///
/// Calls `serde_json::to_string`. The text depends on what the value holds alone
/// and is named [`value_text`]. Writing a `serde_json::Value` never fails, since
/// all its names are texts.
#[verifier::external_body]
fn print_value(value: &serde_json::Value) -> (r: String)
    ensures
        r@ == value_text(json_contents(*value)),
{
    serde_json::to_string(value).unwrap_or_default()
}

/// Writes a value with indentation.
///
/// Calls `serde_json::to_string_pretty`. The text depends on what the value holds
/// alone and is named [`value_pretty`].
#[verifier::external_body]
fn print_value_pretty(value: &serde_json::Value) -> (r: String)
    ensures
        r@ == value_pretty(json_contents(*value)),
{
    serde_json::to_string_pretty(value).unwrap_or_default()
}

/// Writes a document on one line.
pub(crate) fn print_json(doc: &Json) -> (r: String)
    ensures
        r@ == printed_json(doc@),
{
    let value = close_value(doc);
    print_value(&value)
}

/// Writes a document with indentation.
pub(crate) fn print_json_pretty(doc: &Json) -> (r: String)
    ensures
        r@ == pretty_json(doc@),
{
    let value = close_value(doc);
    print_value_pretty(&value)
}

/// A copy of a number.
///
/// Calls `clone` on a `serde_json::Number`, which gives the same number.
#[verifier::external_body]
fn copy_number(n: &serde_json::Number) -> (r: serde_json::Number)
    ensures
        r == *n,
{
    n.clone()
}

/// The JSON number of an unsigned integer.
pub uninterp spec fn json_number(n: u64) -> serde_json::Number;

/// The JSON number of an unsigned integer.
///
/// Calls `serde_json::Number::from`. The number depends on the integer alone and
/// is named [`json_number`]; it is written in decimal digits.
#[verifier::external_body]
pub(crate) fn number_from(n: u64) -> (r: serde_json::Number)
    ensures
        r == json_number(n),
        printed_json(JsonModel::Number(r)) == digest::decimal(n as nat),
{
    serde_json::Number::from(n)
}

/// The integer that a text denotes: decimal digits, a minus sign before those of
/// a negative one, within sixty-four bits.
pub open spec fn integer_text(s: Seq<char>) -> Option<i64> {
    if s.len() > 0 && s[0] == '-' {
        let digits = s.drop_first();
        if text::is_decimal(digits) && text::decimal_value(digits) <= 9223372036854775808 {
            Some((-(text::decimal_value(digits) as int)) as i64)
        } else {
            None
        }
    } else if text::is_decimal(s) && text::decimal_value(s) <= i64::MAX {
        Some(text::decimal_value(s) as i64)
    } else {
        None
    }
}

/// The integer that a number is.
///
/// Calls `serde_json::Number::as_i64`, which gives the integers that the number
/// was read as and that fit; such a number is written in decimal digits. Any
/// other number is written with a point or an exponent and gives none.
#[verifier::external_body]
fn number_as_i64(n: &serde_json::Number) -> (r: Option<i64>)
    ensures
        r == integer_text(printed_json(JsonModel::Number(*n))),
{
    n.as_i64()
}

/// Reads a JSON text.
pub fn parse_json(text: &str) -> (r: Option<Json>)
    ensures
        match r {
            Some(j) => parsed_json(text@) == Some(j@),
            None => parsed_json(text@) is None,
        },
{
    match read_value(text) {
        Ok(v) => Some(open_value(v)),
        Err(_) => None,
    }
}

/// The position of the first member with this name, from position `k` on.
pub open spec fn find_member(s: Seq<(Seq<char>, JsonModel)>, name: Seq<char>, k: int) -> Option<int>
    decreases s.len() - k,
{
    if k < 0 || k >= s.len() {
        None
    } else if s[k].0 == name {
        Some(k)
    } else {
        find_member(s, name, k + 1)
    }
}

/// The value of a member of an object.
pub open spec fn member(doc: JsonModel, name: Seq<char>) -> Option<JsonModel> {
    match doc {
        JsonModel::Object(s) => match find_member(s, name, 0) {
            Some(k) => Some(s[k].1),
            None => None,
        },
        _ => None,
    }
}

pub proof fn lemma_find_member(s: Seq<(Seq<char>, JsonModel)>, name: Seq<char>, k: int)
    requires
        0 <= k,
    ensures
        match find_member(s, name, k) {
            Some(p) => k <= p < s.len() && s[p].0 == name && forall|q: int|
                k <= q < p ==> (#[trigger] s[q]).0 != name,
            None => forall|p: int| k <= p < s.len() ==> (#[trigger] s[p]).0 != name,
        },
    decreases s.len() - k,
{
    if k < s.len() && s[k].0 != name {
        lemma_find_member(s, name, k + 1);
    }
}

/// The position of a member.
pub fn position(members: &Vec<Member>, name: &str) -> (r: Option<usize>)
    ensures
        match r {
            Some(k) => k < members@.len() && find_member(member_models(members@), name@, 0) == Some(
                k as int,
            ),
            None => find_member(member_models(members@), name@, 0) is None,
        },
{
    let ghost s = member_models(members@);
    let mut k: usize = 0;
    while k < members.len()
        invariant
            k <= members.len(),
            s == member_models(members@),
            find_member(s, name@, 0) == find_member(s, name@, k as int),
        decreases members.len() - k,
    {
        assert(s[k as int].0 == members@[k as int].name@);
        if text_equal(members[k].name.as_str(), name) {
            return Some(k);
        }
        k += 1;
    }
    None
}

/// The integer, where the document is one.
pub open spec fn integer_in(doc: JsonModel) -> Option<i64> {
    match doc {
        JsonModel::Number(_) => integer_text(printed_json(doc)),
        _ => None,
    }
}

/// The text, where the document is one.
pub open spec fn text_in(doc: Option<JsonModel>) -> Option<Seq<char>> {
    match doc {
        Some(JsonModel::Text(s)) => Some(s),
        _ => None,
    }
}

/// The truth value, where the document is one.
pub open spec fn bool_in(doc: Option<JsonModel>) -> Option<bool> {
    match doc {
        Some(JsonModel::Bool(b)) => Some(b),
        _ => None,
    }
}

impl Json {
    /// Takes a value of the outside library apart.
    pub fn from_value(value: serde_json::Value) -> (r: Self)
        ensures
            r@ == json_contents(value),
    {
        open_value(value)
    }

    /// The text of a member of an object.
    pub fn text_at<'a>(&'a self, name: &str) -> (r: Option<&'a String>)
        ensures
            match r {
                Some(s) => text_in(member(self@, name@)) == Some(s@),
                None => text_in(member(self@, name@)) is None,
            },
    {
        match self.get(name) {
            Some(j) => j.as_text(),
            None => None,
        }
    }

    /// The truth value of a member of an object.
    pub fn bool_at(&self, name: &str) -> (r: Option<bool>)
        ensures
            r == bool_in(member(self@, name@)),
    {
        match self.get(name) {
            Some(j) => j.as_bool(),
            None => None,
        }
    }

    /// The value of a member of an object.
    pub fn get<'a>(&'a self, name: &str) -> (r: Option<&'a Json>)
        ensures
            match r {
                Some(j) => member(self@, name@) == Some(j@),
                None => member(self@, name@) is None,
            },
    {
        match self {
            Json::Object(members) => {
                proof {
                    lemma_object_model(*members);
                }
                match position(members, name) {
                    Some(k) => {
                        assert(member_models(members@)[k as int].1 == members@[k as int].value@);
                        Some(&members[k].value)
                    },
                    None => None,
                }
            },
            _ => None,
        }
    }

    /// The truth value, where the document is one.
    pub fn as_bool(&self) -> (r: Option<bool>)
        ensures
            match r {
                Some(b) => self@ == JsonModel::Bool(b),
                None => !(self@ is Bool),
            },
    {
        match self {
            Json::Bool(b) => Some(*b),
            _ => None,
        }
    }

    /// The integer, where the document is one.
    pub fn as_i64(&self) -> (r: Option<i64>)
        ensures
            r == integer_in(self@),
    {
        match self {
            Json::Number(n) => number_as_i64(n),
            _ => None,
        }
    }

    /// The text, where the document is one.
    pub fn as_text<'a>(&'a self) -> (r: Option<&'a String>)
        ensures
            match r {
                Some(s) => self@ == JsonModel::Text(s@),
                None => !(self@ is Text),
            },
    {
        match self {
            Json::Text(s) => Some(s),
            _ => None,
        }
    }
}

impl Clone for Json {
    fn clone(&self) -> (r: Self)
        ensures
            r@ == self@,
        decreases self,
    {
        match self {
            Json::Null => Json::Null,
            Json::Bool(b) => Json::Bool(*b),
            Json::Number(n) => Json::Number(copy_number(n)),
            Json::Text(s) => Json::Text(s.clone()),
            Json::List(list) => {
                let mut out: Vec<Json> = Vec::new();
                let mut i: usize = 0;
                while i < list.len()
                    invariant
                        i <= list.len(),
                        *self == Json::List(*list),
                        out.len() == i,
                        forall|k: int| 0 <= k < i ==> (#[trigger] out@[k])@ == list@[k]@,
                    decreases list.len() - i,
                {
                    assert(decreases_to!(*self => list@[i as int])) by {
                        assert(decreases_to!(self->List_0 => self->List_0@));
                        assert(decreases_to!(list@ => list@[i as int]));
                    }
                    out.push(list[i].clone());
                    i += 1;
                }
                proof {
                    lemma_list_model(*list);
                    lemma_list_model(out);
                    assert(list_models(out@) =~= list_models(list@)) by {
                        assert forall|k: int| 0 <= k < out@.len() implies list_models(out@)[k]
                            == list_models(list@)[k] by {
                            assert(out@[k]@ == list@[k]@);
                        }
                    }
                }
                Json::List(out)
            },
            Json::Object(members) => {
                let mut out: Vec<Member> = Vec::new();
                let mut i: usize = 0;
                while i < members.len()
                    invariant
                        i <= members.len(),
                        *self == Json::Object(*members),
                        out.len() == i,
                        forall|k: int|
                            0 <= k < i ==> (#[trigger] out@[k]).name@ == members@[k].name@
                                && out@[k].value@ == members@[k].value@,
                    decreases members.len() - i,
                {
                    assert(decreases_to!(*self => members@[i as int].value)) by {
                        assert(decreases_to!(self->Object_0 => self->Object_0@));
                        assert(decreases_to!(members@ => members@[i as int]));
                    }
                    out.push(
                        Member { name: members[i].name.clone(), value: members[i].value.clone() },
                    );
                    i += 1;
                }
                proof {
                    lemma_object_model(*members);
                    lemma_object_model(out);
                    assert(member_models(out@) =~= member_models(members@)) by {
                        assert forall|k: int| 0 <= k < out@.len() implies member_models(out@)[k]
                            == member_models(members@)[k] by {
                            assert(out@[k].name@ == members@[k].name@);
                        }
                    }
                }
                Json::Object(out)
            },
        }
    }
}

/// Where a name belongs in an object: behind every member with a smaller name.
pub open spec fn slot(s: Seq<(Seq<char>, JsonModel)>, name: Seq<char>, k: int) -> int
    decreases s.len() - k,
{
    if k < 0 || k >= s.len() || !order::text_lt(s[k].0, name) {
        k
    } else {
        slot(s, name, k + 1)
    }
}

/// An object with a member set: in the place of the member with this name, or
/// behind the members with smaller names.
pub open spec fn with_member(
    s: Seq<(Seq<char>, JsonModel)>,
    name: Seq<char>,
    value: JsonModel,
) -> Seq<(Seq<char>, JsonModel)> {
    match find_member(s, name, 0) {
        Some(k) => s.update(k, (name, value)),
        None => s.insert(slot(s, name, 0), (name, value)),
    }
}

pub proof fn lemma_slot(s: Seq<(Seq<char>, JsonModel)>, name: Seq<char>, k: int)
    requires
        0 <= k <= s.len(),
    ensures
        k <= slot(s, name, k) <= s.len(),
    decreases s.len() - k,
{
    if k < s.len() && order::text_lt(s[k].0, name) {
        lemma_slot(s, name, k + 1);
    }
}

/// Sets a member of an object.
pub fn set_member(members: &mut Vec<Member>, name: String, value: Json)
    ensures
        member_models(final(members)@) == with_member(
            member_models(old(members)@),
            name@,
            value@,
        ),
{
    let ghost s = member_models(members@);
    let ghost x = (name@, value@);
    match position(members, name.as_str()) {
        Some(k) => {
            members.set(k, Member { name, value });
            assert(member_models(members@) =~= s.update(k as int, x));
        },
        None => {
            let mut at: usize = 0;
            while at < members.len() && text_less(members[at].name.as_str(), name.as_str())
                invariant
                    at <= members.len(),
                    s == member_models(members@),
                    slot(s, name@, 0) == slot(s, name@, at as int),
                decreases members.len() - at,
            {
                assert(s[at as int].0 == members@[at as int].name@);
                at += 1;
            }
            proof {
                if at < members.len() {
                    assert(s[at as int].0 == members@[at as int].name@);
                }
            }
            members.insert(at, Member { name, value });
            assert(member_models(members@) =~= s.insert(at as int, x));
        },
    }
}

/// A member that was set is found with its value; the others are found as before.
pub proof fn lemma_with_member(
    s: Seq<(Seq<char>, JsonModel)>,
    name: Seq<char>,
    value: JsonModel,
    other: Seq<char>,
)
    ensures
        member(JsonModel::Object(with_member(s, name, value)), name) == Some(value),
        other != name ==> member(JsonModel::Object(with_member(s, name, value)), other) == member(
            JsonModel::Object(s),
            other,
        ),
        with_member(with_member(s, name, value), name, value) == with_member(s, name, value),
{
    let t = with_member(s, name, value);
    lemma_find_member(s, name, 0);
    lemma_find_member(t, name, 0);
    lemma_find_member(s, other, 0);
    lemma_find_member(t, other, 0);
    lemma_slot(s, name, 0);
    let at = match find_member(s, name, 0) {
        Some(k) => k,
        None => slot(s, name, 0),
    };
    assert(t[at] == (name, value));
    assert forall|i: int| 0 <= i < at implies (#[trigger] t[i]).0 != name by {
        assert(t[i] == s[i]);
    }
    assert(find_member(t, name, 0) == Some(at));
    assert(with_member(t, name, value) =~= t);
    if other != name {
        match find_member(s, other, 0) {
            Some(j) => {
                let shifted = if find_member(s, name, 0) is None && j >= at {
                    j + 1
                } else {
                    j
                };
                assert(t[shifted] == s[j]);
                assert forall|i: int| 0 <= i < shifted implies (#[trigger] t[i]).0 != other by {
                    if i != at {
                        let was = if find_member(s, name, 0) is None && i > at {
                            i - 1
                        } else {
                            i
                        };
                        assert(t[i] == s[was]);
                    }
                }
                assert(find_member(t, other, 0) == Some(shifted));
            },
            None => {
                assert forall|i: int| 0 <= i < t.len() implies (#[trigger] t[i]).0 != other by {
                    if i != at {
                        let was = if find_member(s, name, 0) is None && i > at {
                            i - 1
                        } else {
                            i
                        };
                        assert(t[i] == s[was]);
                    }
                }
                assert(find_member(t, other, 0) is None);
            },
        }
    }
}

} // verus!
