//! JSON values as the remote reads and writes them.

use vstd::prelude::*;

use crate::text::same;

verus! {

/// A JSON number, kept the way a JSON parser classifies it.
#[derive(Clone, Copy, PartialEq, Eq, Structural, Debug)]
pub enum Number {
    /// An integer of at least zero.
    PosInt(u64),
    /// An integer below zero.
    NegInt(i64),
    /// Any other number, as the bits of its IEEE 754 double.
    Float(u64),
}

/// A JSON value.
///
/// An object lists its members in any order. When a name occurs twice, the
/// later member counts.
#[derive(Debug)]
pub enum Json {
    Null,
    Bool(bool),
    Number(Number),
    Str(String),
    Array(Vec<Json>),
    Object(Vec<(String, Json)>),
}

/// What a [`Json`] stands for.
#[verifier::ext_equal]
pub enum JsonView {
    Null,
    Bool(bool),
    Number(Number),
    Str(Seq<char>),
    Array(Seq<JsonView>),
    Object(Map<Seq<char>, JsonView>),
}

/// The value that `json` stands for.
pub open spec fn json_view(json: Json) -> JsonView
    decreases json,
{
    match json {
        Json::Null => JsonView::Null,
        Json::Bool(b) => JsonView::Bool(b),
        Json::Number(n) => JsonView::Number(n),
        Json::Str(s) => JsonView::Str(s@),
        Json::Array(items) => JsonView::Array(items_view(items@)),
        Json::Object(members) => JsonView::Object(members_view(members@)),
    }
}

/// The values that the items of an array stand for.
pub open spec fn items_view(items: Seq<Json>) -> Seq<JsonView>
    decreases items,
{
    Seq::new(
        items.len(),
        |i: int|
            if 0 <= i < items.len() {
                json_view(items[i])
            } else {
                JsonView::Null
            },
    )
}

/// The members of an object by name. Of two members with one name the later counts.
pub open spec fn members_view(members: Seq<(String, Json)>) -> Map<Seq<char>, JsonView>
    decreases members,
{
    if members.len() == 0 {
        Map::empty()
    } else {
        members_view(members.drop_last()).insert(
            members.last().0@,
            json_view(members.last().1),
        )
    }
}

impl View for Json {
    type V = JsonView;

    open spec fn view(&self) -> JsonView {
        json_view(*self)
    }
}

impl JsonView {
    /// The member of an object with the given name. Only objects have members.
    pub open spec fn field(self, name: Seq<char>) -> Option<JsonView> {
        match self {
            JsonView::Object(members) => if members.contains_key(name) {
                Some(members[name])
            } else {
                None
            },
            _ => None,
        }
    }

    /// The text of a JSON string.
    pub open spec fn text(self) -> Option<Seq<char>> {
        match self {
            JsonView::Str(s) => Some(s),
            _ => None,
        }
    }

    /// The value of a number that is an integer of at least zero.
    pub open spec fn uint(self) -> Option<u64> {
        match self {
            JsonView::Number(Number::PosInt(n)) => Some(n),
            _ => None,
        }
    }

    /// The items of an array.
    pub open spec fn items(self) -> Option<Seq<JsonView>> {
        match self {
            JsonView::Array(items) => Some(items),
            _ => None,
        }
    }

    /// The text of the member with the given name.
    pub open spec fn field_text(self, name: Seq<char>) -> Option<Seq<char>> {
        match self.field(name) {
            Some(v) => v.text(),
            None => None,
        }
    }

    /// The unsigned integer in the member with the given name.
    pub open spec fn field_uint(self, name: Seq<char>) -> Option<u64> {
        match self.field(name) {
            Some(v) => v.uint(),
            None => None,
        }
    }
}

/// A string as a value.
pub open spec fn text_json(s: Seq<char>) -> JsonView {
    JsonView::Str(s)
}

/// An unsigned integer as a value.
pub open spec fn uint_json(n: u64) -> JsonView {
    JsonView::Number(Number::PosInt(n))
}

/// An object with one member.
pub open spec fn object1(name: Seq<char>, value: JsonView) -> JsonView {
    JsonView::Object(Map::empty().insert(name, value))
}

/// An object with two members. Of two members with one name the second counts.
pub open spec fn object2(
    name1: Seq<char>,
    value1: JsonView,
    name2: Seq<char>,
    value2: JsonView,
) -> JsonView {
    JsonView::Object(Map::empty().insert(name1, value1).insert(name2, value2))
}

/// An object with three members. Of members with one name the last counts.
pub open spec fn object3(
    name1: Seq<char>,
    value1: JsonView,
    name2: Seq<char>,
    value2: JsonView,
    name3: Seq<char>,
    value3: JsonView,
) -> JsonView {
    JsonView::Object(
        Map::empty().insert(name1, value1).insert(name2, value2).insert(name3, value3),
    )
}

/// The value behind a reference that may be missing.
pub open spec fn opt_view(json: Option<&Json>) -> Option<JsonView> {
    match json {
        Some(j) => Some(j@),
        None => None,
    }
}

/// A member after which the name does not occur again is the one that counts.
proof fn lemma_last_member(members: Seq<(String, Json)>, name: Seq<char>, i: int)
    requires
        0 <= i < members.len(),
        members[i].0@ == name,
        forall|j: int| i < j < members.len() ==> (#[trigger] members[j]).0@ != name,
    ensures
        members_view(members).contains_key(name),
        members_view(members)[name] == members[i].1@,
    decreases members.len(),
{
    if i < members.len() - 1 {
        assert(members.last() == members[members.len() - 1]);
        lemma_last_member(members.drop_last(), name, i);
    }
}

/// A name that no member has is not in the object.
proof fn lemma_no_member(members: Seq<(String, Json)>, name: Seq<char>)
    requires
        forall|j: int| 0 <= j < members.len() ==> (#[trigger] members[j]).0@ != name,
    ensures
        !members_view(members).contains_key(name),
    decreases members.len(),
{
    if members.len() > 0 {
        assert(members.last() == members[members.len() - 1]);
        assert forall|j: int| 0 <= j < members.drop_last().len() implies (
        #[trigger] members.drop_last()[j]).0@ != name by {
            assert(members.drop_last()[j] == members[j]);
        }
        lemma_no_member(members.drop_last(), name);
    }
}

/// Replacing the value of the member that counts replaces it in the object.
proof fn lemma_replace_member(members: Seq<(String, Json)>, i: int, new: (String, Json))
    requires
        0 <= i < members.len(),
        new.0@ == members[i].0@,
        forall|j: int|
            i < j < members.len() ==> (#[trigger] members[j]).0@ != members[i].0@,
    ensures
        members_view(members.update(i, new)) == members_view(members).insert(
            new.0@,
            new.1@,
        ),
    decreases members.len(),
{
    let updated = members.update(i, new);
    if i == members.len() - 1 {
        assert(updated.drop_last() == members.drop_last());
        assert(members_view(updated) == members_view(members).insert(new.0@, new.1@));
    } else {
        assert(updated.drop_last() == members.drop_last().update(i, new));
        assert forall|j: int| i < j < members.drop_last().len() implies (
        #[trigger] members.drop_last()[j]).0@ != members[i].0@ by {
            assert(members.drop_last()[j] == members[j]);
        }
        lemma_replace_member(members.drop_last(), i, new);
        assert(members.last() == members[members.len() - 1]);
        assert(updated.last() == members.last());
        assert(members_view(updated) == members_view(members).insert(new.0@, new.1@));
    }
}

/// Where the member that counts under a name stands.
fn find_member(members: &Vec<(String, Json)>, name: &str) -> (r: Option<usize>)
    ensures
        match r {
            Some(i) => {
                &&& i < members@.len()
                &&& members@[i as int].0@ == name@
                &&& forall|j: int| i < j < members@.len() ==> (#[trigger] members@[j]).0@ != name@
                &&& members_view(members@).contains_key(name@)
                &&& members_view(members@)[name@] == members@[i as int].1@
            },
            None => {
                &&& forall|j: int| 0 <= j < members@.len() ==> (#[trigger] members@[j]).0@ != name@
                &&& !members_view(members@).contains_key(name@)
            },
        },
{
    let mut i: usize = members.len();
    while i > 0
        invariant
            i <= members@.len(),
            forall|j: int| i <= j < members@.len() ==> (#[trigger] members@[j]).0@ != name@,
        decreases i,
    {
        i -= 1;
        if same(members[i].0.as_str(), name) {
            proof {
                lemma_last_member(members@, name@, i as int);
            }
            return Some(i);
        }
    }
    proof {
        lemma_no_member(members@, name@);
    }
    None
}

/// Sets a member of an object: an old value under the same name is replaced.
pub(crate) fn set_member(members: &mut Vec<(String, Json)>, name: String, value: Json)
    ensures
        members_view(final(members)@) == members_view(old(members)@).insert(name@, value@),
{
    match find_member(members, name.as_str()) {
        Some(i) => {
            proof {
                lemma_replace_member(members@, i as int, (name, value));
            }
            members.set(i, (name, value));
        },
        None => {
            let ghost before = members@;
            members.push((name, value));
            assert(members@.drop_last() == before);
        },
    }
}

/// A copy of a value.
pub(crate) fn copy_json(json: &Json) -> (r: Json)
    ensures
        r@ == json@,
    decreases json,
{
    match json {
        Json::Null => Json::Null,
        Json::Bool(b) => Json::Bool(*b),
        Json::Number(n) => Json::Number(*n),
        Json::Str(s) => Json::Str(s.clone()),
        Json::Array(items) => Json::Array(copy_items(items)),
        Json::Object(members) => Json::Object(copy_members(members)),
    }
}

/// A copy of the items of an array.
pub(crate) fn copy_items(items: &Vec<Json>) -> (r: Vec<Json>)
    ensures
        items_view(r@) == items_view(items@),
    decreases items,
{
    let mut out: Vec<Json> = Vec::new();
    let mut i: usize = 0;
    while i < items.len()
        invariant
            i <= items@.len(),
            items_view(out@) == items_view(items@.take(i as int)),
        decreases items@.len() - i,
    {
        assert(decreases_to!(items => items@[i as int]));
        let item = copy_json(&items[i]);
        let ghost before = out@;
        out.push(item);
        i += 1;
        assert(items_view(out@) =~= items_view(before).push(item@));
        assert(items_view(items@.take(i as int)) =~= items_view(items@.take(i - 1)).push(
            items@[i - 1]@,
        ));
    }
    assert(items@.take(items@.len() as int) == items@);
    out
}

/// A copy of the members of an object.
pub(crate) fn copy_members(members: &Vec<(String, Json)>) -> (r: Vec<(String, Json)>)
    ensures
        members_view(r@) == members_view(members@),
    decreases members,
{
    let mut out: Vec<(String, Json)> = Vec::new();
    let mut i: usize = 0;
    while i < members.len()
        invariant
            i <= members@.len(),
            members_view(out@) == members_view(members@.take(i as int)),
        decreases members@.len() - i,
    {
        assert(decreases_to!(members => members@[i as int].1));
        let value = copy_json(&members[i].1);
        let ghost before = out@;
        out.push((members[i].0.clone(), value));
        i += 1;
        assert(out@.drop_last() == before);
        assert(members@.take(i as int).drop_last() == members@.take(i - 1));
    }
    assert(members@.take(members@.len() as int) == members@);
    out
}

impl Clone for Json {
    /// A copy with the same value.
    fn clone(&self) -> (r: Json)
        ensures
            r@ == self@,
    {
        copy_json(self)
    }
}

impl Json {
    /// The member of an object with the given name.
    pub fn get(&self, name: &str) -> (r: Option<&Json>)
        ensures
            opt_view(r) == self@.field(name@),
    {
        match self {
            Json::Object(members) => match find_member(members, name) {
                Some(i) => Some(&members[i].1),
                None => None,
            },
            _ => None,
        }
    }

    /// The text of a JSON string.
    pub fn as_str(&self) -> (r: Option<&str>)
        ensures
            match r {
                Some(s) => self@.text() == Some(s@),
                None => self@.text() is None,
            },
    {
        match self {
            Json::Str(s) => Some(s.as_str()),
            _ => None,
        }
    }

    /// The value of a number that is an integer of at least zero.
    pub fn as_u64(&self) -> (r: Option<u64>)
        ensures
            r == self@.uint(),
    {
        match self {
            Json::Number(Number::PosInt(n)) => Some(*n),
            _ => None,
        }
    }

    /// The items of an array.
    pub fn as_array(&self) -> (r: Option<&Vec<Json>>)
        ensures
            match r {
                Some(items) => self@.items() == Some(items_view(items@)),
                None => self@.items() is None,
            },
    {
        match self {
            Json::Array(items) => Some(items),
            _ => None,
        }
    }

    /// Whether the value is a number.
    pub fn is_number(&self) -> (r: bool)
        ensures
            r == (self@ is Number),
    {
        match self {
            Json::Number(_) => true,
            _ => false,
        }
    }

    /// Whether the value is `true` or `false`.
    pub fn is_boolean(&self) -> (r: bool)
        ensures
            r == (self@ is Bool),
    {
        match self {
            Json::Bool(_) => true,
            _ => false,
        }
    }

    /// The text of the member with the given name.
    pub(crate) fn get_text(&self, name: &str) -> (r: Option<&str>)
        ensures
            match r {
                Some(s) => self@.field_text(name@) == Some(s@),
                None => self@.field_text(name@) is None,
            },
    {
        match self.get(name) {
            Some(v) => v.as_str(),
            None => None,
        }
    }

    /// The unsigned integer in the member with the given name.
    pub(crate) fn get_uint(&self, name: &str) -> (r: Option<u64>)
        ensures
            r == self@.field_uint(name@),
    {
        match self.get(name) {
            Some(v) => v.as_u64(),
            None => None,
        }
    }
}

/// A string as a value.
pub(crate) fn text_value(s: &str) -> (r: Json)
    ensures
        r@ == text_json(s@),
{
    Json::Str(s.to_owned())
}

/// An unsigned integer as a value.
pub(crate) fn uint_value(n: u64) -> (r: Json)
    ensures
        r@ == uint_json(n),
{
    Json::Number(Number::PosInt(n))
}

/// An object with one member.
pub(crate) fn one_member(name: &str, value: Json) -> (r: Json)
    ensures
        r@ == object1(name@, value@),
{
    let mut members: Vec<(String, Json)> = Vec::new();
    set_member(&mut members, name.to_owned(), value);
    Json::Object(members)
}

/// An object with two members.
pub(crate) fn two_members(name1: &str, value1: Json, name2: &str, value2: Json) -> (r: Json)
    ensures
        r@ == object2(name1@, value1@, name2@, value2@),
{
    let mut members: Vec<(String, Json)> = Vec::new();
    set_member(&mut members, name1.to_owned(), value1);
    set_member(&mut members, name2.to_owned(), value2);
    Json::Object(members)
}

/// An object with three members.
pub(crate) fn three_members(
    name1: &str,
    value1: Json,
    name2: &str,
    value2: Json,
    name3: &str,
    value3: Json,
) -> (r: Json)
    ensures
        r@ == object3(name1@, value1@, name2@, value2@, name3@, value3@),
{
    let mut members: Vec<(String, Json)> = Vec::new();
    set_member(&mut members, name1.to_owned(), value1);
    set_member(&mut members, name2.to_owned(), value2);
    set_member(&mut members, name3.to_owned(), value3);
    Json::Object(members)
}

/// A value in memory stands for the value that its form says: each form for its own, with
/// the contents that it holds.
pub proof fn law_values_stand_for_themselves(
    b: bool,
    n: Number,
    s: String,
    items: Vec<Json>,
    members: Vec<(String, Json)>,
)
    ensures
        Json::Null@ == JsonView::Null,
        Json::Bool(b)@ == JsonView::Bool(b),
        Json::Number(n)@ == JsonView::Number(n),
        Json::Str(s)@ == JsonView::Str(s@),
        Json::Array(items)@ matches JsonView::Array(v) && v.len() == items@.len() && forall|i: int|
            0 <= i < v.len() ==> #[trigger] v[i] == items@[i]@,
        Json::Object(members)@ == JsonView::Object(members_view(members@)),
        items_view(items@) == Seq::new(items@.len(), |i: int| items@[i]@),
{
}

/// The value of a member is the one that was given last under its name, and no name is a
/// member that was not given.
pub proof fn law_the_later_member_counts(members: Seq<(String, Json)>, name: Seq<char>, i: int)
    ensures
        0 <= i < members.len() && members[i].0@ == name && (forall|j: int|
            i < j < members.len() ==> (#[trigger] members[j]).0@ != name) ==> members_view(
            members,
        ).contains_key(name) && members_view(members)[name] == members[i].1@,
        (forall|j: int| 0 <= j < members.len() ==> (#[trigger] members[j]).0@ != name)
            ==> !members_view(members).contains_key(name),
{
    if 0 <= i < members.len() && members[i].0@ == name && (forall|j: int|
        i < j < members.len() ==> (#[trigger] members[j]).0@ != name) {
        lemma_last_member(members, name, i);
    }
    if forall|j: int| 0 <= j < members.len() ==> (#[trigger] members[j]).0@ != name {
        lemma_no_member(members, name);
    }
}

/// What is read from a value is what the value is: a text only from a string, a number only
/// from an integer of at least zero, items only from an array, and a member only from an
/// object that has it.
pub proof fn law_values_are_read_as_they_are(
    v: JsonView,
    name: Seq<char>,
    s: Seq<char>,
    n: u64,
    items: Seq<JsonView>,
    member: JsonView,
)
    ensures
        v.text() == Some(s) <==> v == JsonView::Str(s),
        v.uint() == Some(n) <==> v == JsonView::Number(Number::PosInt(n)),
        v.items() == Some(items) <==> v == JsonView::Array(items),
        v.field(name) == Some(member) <==> (v matches JsonView::Object(m) && m.contains_key(name)
            && m[name] == member),
        v.field_text(name) == Some(s) <==> v.field(name) == Some(JsonView::Str(s)),
        v.field_uint(name) == Some(n) <==> v.field(name) == Some(
            JsonView::Number(Number::PosInt(n)),
        ),
{
    if v.field(name) is Some && v.field(name)->0 == JsonView::Str(s) {
    }
}

/// A reference that may be missing stands for the value behind it.
pub proof fn law_missing_stays_missing(json: Json)
    ensures
        opt_view(Some(&json)) == Some(json@),
        opt_view(None) is None,
{
}

/// An object that is made of some members has these and no others.
pub proof fn law_objects_have_their_members(
    name1: Seq<char>,
    value1: JsonView,
    name2: Seq<char>,
    value2: JsonView,
    name3: Seq<char>,
    value3: JsonView,
)
    requires
        name1 != name2,
        name1 != name3,
        name2 != name3,
    ensures
        text_json(name1) == JsonView::Str(name1),
        object1(name1, value1) == JsonView::Object(map![name1 => value1]),
        object2(name1, value1, name2, value2) matches JsonView::Object(m) && m.dom() == set![
            name1,
            name2,
        ] && m[name1] == value1 && m[name2] == value2,
        object3(name1, value1, name2, value2, name3, value3) matches JsonView::Object(m)
            && m.dom() == set![name1, name2, name3] && m[name1] == value1 && m[name2] == value2
            && m[name3] == value3,
        forall|n: u64| #[trigger] uint_json(n) == JsonView::Number(Number::PosInt(n)),
{
    let m1 = object1(name1, value1)->Object_0;
    assert(m1 == map![name1 => value1]);
    let m2 = object2(name1, value1, name2, value2)->Object_0;
    assert(m2.dom() == set![name1, name2]);
    let m3 = object3(name1, value1, name2, value2, name3, value3)->Object_0;
    assert(m3.dom() == set![name1, name2, name3]);
}

} // verus!
