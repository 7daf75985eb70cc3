use crate::grammar::is_number_literal;
use crate::laws::law_last_member_wins;
use vstd::prelude::*;

verus! {

/// The mathematical model of a JSON value.
///
/// A number is kept as the characters of its literal. An object is the
/// sequence of its members, each key once, in the order in which the keys
/// first occurred; `as_map` reads it as a mapping.
pub ghost enum Json {
    Null,
    Boolean(bool),
    Number(Seq<char>),
    String(Seq<char>),
    Array(Seq<Json>),
    Object(Seq<(Seq<char>, Json)>),
}

impl Json {
    /// Every number in the value is a number literal, and no object in it has
    /// a key twice.
    pub open spec fn well_formed(self) -> bool
        decreases self,
    {
        match self {
            Json::Number(literal) => is_number_literal(literal),
            Json::Array(items) => forall|i: int|
                0 <= i < items.len() ==> (#[trigger] items[i]).well_formed(),
            Json::Object(members) => unique_keys(members) && forall|i: int|
                0 <= i < members.len() ==> (#[trigger] members[i]).1.well_formed(),
            _ => true,
        }
    }
}

/// An array is well formed exactly where each of its items is.
pub proof fn lemma_well_formed_items(items: Seq<Json>)
    ensures
        Json::Array(items).well_formed() <==> forall|i: int|
            0 <= i < items.len() ==> (#[trigger] items[i]).well_formed(),
{
    assert(Json::Array(items)->Array_0 == items);
}

/// A parsed JSON value.
///
/// `Number` holds the number's literal as it stood in the text, and no
/// floating-point value: to turn the literal into a double is left to the
/// caller. `Object` holds its members in the order in which their keys first
/// occurred, each key once: where the text repeats a key, the member keeps its
/// place and takes the last value. Two objects with the same members in
/// another order are different values to `==`; `get` reads an object as the
/// mapping that it stands for.
#[derive(Debug, PartialEq, Eq)]
pub enum JsonValue {
    Null,
    Boolean(bool),
    Number(String),
    String(String),
    Array(Vec<JsonValue>),
    Object(Vec<(String, JsonValue)>),
}

/// The models of a sequence of values.
pub open spec fn values_view(items: Seq<JsonValue>) -> Seq<Json>
    decreases items,
{
    Seq::new(items.len(), |i: int| if 0 <= i < items.len() { items[i].view() } else { Json::Null })
}

/// The models of a sequence of members.
pub open spec fn members_view(members: Seq<(String, JsonValue)>) -> Seq<(Seq<char>, Json)>
    decreases members,
{
    Seq::new(
        members.len(),
        |i: int|
            if 0 <= i < members.len() {
                (members[i].0@, members[i].1.view())
            } else {
                (Seq::empty(), Json::Null)
            },
    )
}

impl View for JsonValue {
    type V = Json;

    open spec fn view(&self) -> Json
        decreases self,
    {
        match self {
            JsonValue::Null => Json::Null,
            JsonValue::Boolean(b) => Json::Boolean(*b),
            JsonValue::Number(literal) => Json::Number(literal@),
            JsonValue::String(s) => Json::String(s@),
            JsonValue::Array(items) => Json::Array(values_view(items@)),
            JsonValue::Object(members) => Json::Object(members_view(members@)),
        }
    }
}

/// The index of the first member with key `key`, if there is one.
pub open spec fn key_index(members: Seq<(Seq<char>, Json)>, key: Seq<char>) -> Option<int>
    decreases members.len(),
{
    if members.len() == 0 {
        None
    } else {
        match key_index(members.drop_last(), key) {
            Some(i) => Some(i),
            None => if members.last().0 == key {
                Some(members.len() - 1)
            } else {
                None
            },
        }
    }
}

/// The value that `members` gives to `key`.
pub open spec fn lookup(members: Seq<(Seq<char>, Json)>, key: Seq<char>) -> Option<Json> {
    match key_index(members, key) {
        Some(i) => Some(members[i].1),
        None => None,
    }
}

/// `members` with `key` set to `value`: a member with that key takes the new
/// value where it stands, and a new key is added at the end.
pub open spec fn with_member(members: Seq<(Seq<char>, Json)>, key: Seq<char>, value: Json) -> Seq<
    (Seq<char>, Json),
> {
    match key_index(members, key) {
        Some(i) => members.update(i, (key, value)),
        None => members.push((key, value)),
    }
}

/// No two members have the same key.
pub open spec fn unique_keys(members: Seq<(Seq<char>, Json)>) -> bool {
    forall|i: int, j: int|
        0 <= i < j < members.len() ==> (#[trigger] members[i]).0 != (#[trigger] members[j]).0
}

/// The members read as a mapping from key to value, a later member
/// overwriting an earlier one with the same key.
pub open spec fn as_map(members: Seq<(Seq<char>, Json)>) -> Map<Seq<char>, Json>
    decreases members.len(),
{
    if members.len() == 0 {
        Map::empty()
    } else {
        as_map(members.drop_last()).insert(members.last().0, members.last().1)
    }
}

/// `key_index` finds the first member with the key, and only such a member.
pub proof fn lemma_key_index(members: Seq<(Seq<char>, Json)>, key: Seq<char>)
    ensures
        match key_index(members, key) {
            Some(i) => 0 <= i < members.len() && members[i].0 == key && forall|j: int|
                0 <= j < i ==> (#[trigger] members[j]).0 != key,
            None => forall|j: int| 0 <= j < members.len() ==> (#[trigger] members[j]).0 != key,
        },
    decreases members.len(),
{
    if members.len() > 0 {
        let init = members.drop_last();
        lemma_key_index(init, key);
        assert(forall|j: int| 0 <= j < init.len() ==> #[trigger] members[j] == init[j]);
    }
}

/// Pushing a value onto a sequence pushes its model onto the models.
pub proof fn lemma_values_view_push(items: Seq<JsonValue>, value: JsonValue)
    ensures
        values_view(items.push(value)) == values_view(items).push(value@),
{
    assert(values_view(items.push(value)) =~= values_view(items).push(value@));
}

/// Pushing a member onto a sequence pushes its model onto the models.
pub proof fn lemma_members_view_push(
    members: Seq<(String, JsonValue)>,
    key: String,
    value: JsonValue,
)
    ensures
        members_view(members.push((key, value))) == members_view(members).push((key@, value@)),
{
    assert(members_view(members.push((key, value))) =~= members_view(members).push(
        (key@, value@),
    ));
}

/// Replacing a member replaces its model.
pub proof fn lemma_members_view_update(
    members: Seq<(String, JsonValue)>,
    i: int,
    key: String,
    value: JsonValue,
)
    requires
        0 <= i < members.len(),
    ensures
        members_view(members.update(i, (key, value))) == members_view(members).update(
            i,
            (key@, value@),
        ),
{
    assert(members_view(members.update(i, (key, value))) =~= members_view(members).update(
        i,
        (key@, value@),
    ));
}

/// The index of the first member of `members` with key `key`.
pub fn find_member(members: &Vec<(String, JsonValue)>, key: &String) -> (r: Option<usize>)
    ensures
        match r {
            Some(i) => key_index(members_view(members@), key@) == Some(i as int),
            None => key_index(members_view(members@), key@) is None,
        },
{
    let ghost model = members_view(members@);
    let mut i: usize = 0;
    while i < members.len()
        invariant
            i <= members.len(),
            model == members_view(members@),
            forall|j: int| 0 <= j < i ==> (#[trigger] model[j]).0 != key@,
        decreases members.len() - i,
    {
        if members[i].0 == *key {
            proof {
                assert(model[i as int].0 == key@);
                lemma_key_index(model, key@);
            }
            return Some(i);
        }
        i = i + 1;
    }
    proof {
        lemma_key_index(model, key@);
    }
    None
}

/// Sets `key` to `value` in `members`: a member that has the key takes the new
/// value where it stands, and a new key is added at the end.
pub fn insert_member(members: &mut Vec<(String, JsonValue)>, key: String, value: JsonValue)
    ensures
        members_view(final(members)@) == with_member(members_view(old(members)@), key@, value@),
        unique_keys(members_view(old(members)@)) ==> unique_keys(members_view(final(members)@)),
{
    proof {
        law_last_member_wins(members_view(members@), key@, value@);
    }
    match find_member(members, &key) {
        Some(i) => {
            proof {
                lemma_key_index(members_view(members@), key@);
                lemma_members_view_update(members@, i as int, key, value);
            }
            members[i] = (key, value);
        },
        None => {
            proof {
                lemma_members_view_push(members@, key, value);
            }
            members.push((key, value));
        },
    }
}

impl Clone for JsonValue {
    /// A copy that stands for the same value.
    #[verifier::loop_isolation(false)]
    fn clone(&self) -> (r: Self)
        ensures
            r@ == self@,
        decreases self,
    {
        match self {
            JsonValue::Null => JsonValue::Null,
            JsonValue::Boolean(b) => JsonValue::Boolean(*b),
            JsonValue::Number(literal) => JsonValue::Number(literal.clone()),
            JsonValue::String(s) => JsonValue::String(s.clone()),
            JsonValue::Array(items) => {
                let mut copies: Vec<JsonValue> = Vec::new();
                let mut i: usize = 0;
                while i < items.len()
                    invariant
                        i <= items.len(),
                        copies@.len() == i,
                        forall|j: int| 0 <= j < i ==> (#[trigger] copies@[j])@ == items@[j]@,
                    decreases items.len() - i,
                {
                    copies.push(items[i].clone());
                    i = i + 1;
                }
                assert(values_view(copies@) =~= values_view(items@));
                JsonValue::Array(copies)
            },
            JsonValue::Object(members) => {
                let mut copies: Vec<(String, JsonValue)> = Vec::new();
                let mut i: usize = 0;
                while i < members.len()
                    invariant
                        i <= members.len(),
                        copies@.len() == i,
                        forall|j: int|
                            0 <= j < i ==> (#[trigger] copies@[j]).0@ == members@[j].0@
                                && copies@[j].1@ == members@[j].1@,
                    decreases members.len() - i,
                {
                    copies.push((members[i].0.clone(), members[i].1.clone()));
                    i = i + 1;
                }
                assert(members_view(copies@) =~= members_view(members@));
                JsonValue::Object(copies)
            },
        }
    }
}

impl JsonValue {
    /// The value that an object gives to `key`; `None` where the object has no
    /// such key, or the value is no object.
    pub fn get(&self, key: &str) -> (r: Option<&JsonValue>)
        ensures
            match self@ {
                Json::Object(members) => match lookup(members, key@) {
                    Some(v) => r matches Some(found) && found@ == v,
                    None => r is None,
                },
                _ => r is None,
            },
    {
        match self {
            JsonValue::Object(members) => {
                let wanted = key.to_owned();
                match find_member(members, &wanted) {
                    Some(i) => {
                        proof {
                            lemma_key_index(members_view(members@), key@);
                        }
                        Some(&members[i].1)
                    },
                    None => None,
                }
            },
            _ => None,
        }
    }
}

} // verus!
