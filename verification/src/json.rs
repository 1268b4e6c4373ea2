//! JSON trees as plain values.
//!
//! Parsing is left to `serde_json`; everything that reads a tree works on the
//! [`Json`] type of this module.
use crate::text::same_text;
use serde_json::Value as JsonTree;
use vstd::prelude::*;
use vstd::string::*;

verus! {

/// A JSON value.
#[derive(Debug)]
pub enum Json {
    Null,
    Bool(bool),
    /// A number, as far as it is an unsigned or a signed 64-bit integer.
    Number(Option<u64>, Option<i64>),
    String(String),
    Array(Vec<Json>),
    /// Members with their names; a name occurs once.
    Object(Vec<(String, Json)>),
}

/// Model of a JSON value.
pub enum JsonModel {
    Null,
    Bool(bool),
    Number(Option<u64>, Option<i64>),
    String(Seq<char>),
    Array(Seq<JsonModel>),
    Object(Seq<(Seq<char>, JsonModel)>),
}

impl Json {
    pub open spec fn view(&self) -> JsonModel
        decreases self,
    {
        match self {
            Json::Null => JsonModel::Null,
            Json::Bool(b) => JsonModel::Bool(*b),
            Json::Number(u, i) => JsonModel::Number(*u, *i),
            Json::String(s) => JsonModel::String(s@),
            Json::Array(v) => JsonModel::Array(
                Seq::new(
                    v@.len(),
                    |i: int|
                        if 0 <= i < v@.len() {
                            v@[i].view()
                        } else {
                            arbitrary()
                        },
                ),
            ),
            Json::Object(v) => JsonModel::Object(
                Seq::new(
                    v@.len(),
                    |i: int|
                        if 0 <= i < v@.len() {
                            (v@[i].0@, v@[i].1.view())
                        } else {
                            arbitrary()
                        },
                ),
            ),
        }
    }
}

/// Position of the first member named `key` at or after `i`.
pub open spec fn member_from(m: Seq<(Seq<char>, JsonModel)>, key: Seq<char>, i: int) -> Option<
    JsonModel,
>
    decreases m.len() - i,
{
    if i < 0 || i >= m.len() {
        None
    } else if m[i].0 == key {
        Some(m[i].1)
    } else {
        member_from(m, key, i + 1)
    }
}

/// The member of an object with a given name; `None` on any other value.
pub open spec fn member(j: JsonModel, key: Seq<char>) -> Option<JsonModel> {
    match j {
        JsonModel::Object(m) => member_from(m, key, 0),
        _ => None,
    }
}

/// The text of a string value.
pub open spec fn text_of(j: JsonModel) -> Option<Seq<char>> {
    match j {
        JsonModel::String(s) => Some(s),
        _ => None,
    }
}

/// The text of a member that is a string.
pub open spec fn member_text(j: JsonModel, key: Seq<char>) -> Option<Seq<char>> {
    match member(j, key) {
        Some(v) => text_of(v),
        None => None,
    }
}

/// The value of a number that is an unsigned 64-bit integer.
pub open spec fn unsigned_number(j: JsonModel) -> Option<u64> {
    match j {
        JsonModel::Number(u, _) => u,
        _ => None,
    }
}

/// The value of a number that is a signed 64-bit integer.
pub open spec fn signed_number(j: JsonModel) -> Option<i64> {
    match j {
        JsonModel::Number(_, i) => i,
        _ => None,
    }
}

/// The unsigned number of a member.
pub open spec fn member_unsigned(j: JsonModel, key: Seq<char>) -> Option<u64> {
    match member(j, key) {
        Some(v) => unsigned_number(v),
        None => None,
    }
}

/// The signed number of a member.
pub open spec fn member_signed(j: JsonModel, key: Seq<char>) -> Option<i64> {
    match member(j, key) {
        Some(v) => signed_number(v),
        None => None,
    }
}

/// The items of an array.
pub open spec fn items_of(j: JsonModel) -> Option<Seq<JsonModel>> {
    match j {
        JsonModel::Array(items) => Some(items),
        _ => None,
    }
}

/// The models of a list of values.
pub open spec fn models(v: Seq<Json>) -> Seq<JsonModel> {
    v.map_values(|j: Json| j@)
}

/// The models of a list of members.
pub open spec fn member_models(v: Seq<(String, Json)>) -> Seq<(Seq<char>, JsonModel)> {
    v.map_values(|e: (String, Json)| (e.0@, e.1@))
}

/// Finds a member by name in a list of members.
pub fn find_member<'a>(members: &'a [(String, Json)], key: &str) -> (r: Option<&'a Json>)
    ensures
        match r {
            Some(v) => member_from(member_models(members@), key@, 0) == Some(v@),
            None => member_from(member_models(members@), key@, 0) is None,
        },
{
    let ghost m = member_models(members@);
    let mut i: usize = 0;
    while i < members.len()
        invariant
            i <= members.len(),
            m == member_models(members@),
            member_from(m, key@, i as int) == member_from(m, key@, 0),
        decreases members.len() - i,
    {
        if same_text(members[i].0.as_str(), key) {
            return Some(&members[i].1);
        }
        i += 1;
    }
    None
}

impl Json {
    /// Looks a member up by name.
    pub fn get(&self, key: &str) -> (r: Option<&Json>)
        ensures
            match r {
                Some(v) => member(self@, key@) == Some(v@),
                None => member(self@, key@) is None,
            },
    {
        match self {
            Json::Object(members) => {
                assert(self@->Object_0 =~= member_models(members@));
                find_member(members.as_slice(), key)
            },
            _ => None,
        }
    }

    /// The text of a string value.
    pub fn as_str(&self) -> (r: Option<&str>)
        ensures
            match r {
                Some(s) => text_of(self@) == Some(s@),
                None => text_of(self@) is None,
            },
    {
        match self {
            Json::String(s) => Some(s.as_str()),
            _ => None,
        }
    }

    /// The text of a member that is a string.
    pub fn get_str(&self, key: &str) -> (r: Option<&str>)
        ensures
            match r {
                Some(s) => member_text(self@, key@) == Some(s@),
                None => member_text(self@, key@) is None,
            },
    {
        match self.get(key) {
            Some(v) => v.as_str(),
            None => None,
        }
    }

    /// The unsigned number of a member.
    pub fn get_u64(&self, key: &str) -> (r: Option<u64>)
        ensures
            r == member_unsigned(self@, key@),
    {
        match self.get(key) {
            Some(Json::Number(u, _)) => *u,
            _ => None,
        }
    }

    /// The signed number of a member.
    pub fn get_i64(&self, key: &str) -> (r: Option<i64>)
        ensures
            r == member_signed(self@, key@),
    {
        match self.get(key) {
            Some(Json::Number(_, i)) => *i,
            _ => None,
        }
    }

    /// The items of an array value.
    pub fn as_array(&self) -> (r: Option<&Vec<Json>>)
        ensures
            match r {
                Some(v) => items_of(self@) == Some(models(v@)),
                None => items_of(self@) is None,
            },
    {
        match self {
            Json::Array(v) => {
                assert(self@->Array_0 =~= models(v@));
                Some(v)
            },
            _ => None,
        }
    }

    /// The members of an object value.
    pub fn as_object(&self) -> (r: Option<&Vec<(String, Json)>>)
        ensures
            match r {
                Some(v) => self@ == JsonModel::Object(member_models(v@)),
                None => !(self@ is Object),
            },
    {
        match self {
            Json::Object(v) => {
                assert(self@->Object_0 =~= member_models(v@));
                Some(v)
            },
            _ => None,
        }
    }

    /// Tests for the null value.
    pub fn is_null(&self) -> (r: bool)
        ensures
            r == (self@ is Null),
    {
        matches!(self, Json::Null)
    }
}

/// The tree of values of the `serde_json` crate.
#[verifier::external_type_specification]
#[verifier::external_body]
pub struct ExValue(JsonTree);

/// What a `serde_json` value holds.
pub uninterp spec fn tree_of(value: JsonTree) -> JsonModel;

/// What `serde_json::from_str` makes of a text: a tree, or the message of its
/// error.
pub uninterp spec fn parsed(text: Seq<char>) -> Result<JsonModel, Seq<char>>;

/// Calls `serde_json::from_str` for a `serde_json::Value`. The result is a
/// function of the text: the tree that it stands for, or the displayed error.
#[verifier::external_body]
fn parse_value(text: &str) -> (r: Result<JsonTree, String>)
    ensures
        match r {
            Ok(v) => parsed(text@) == Ok::<JsonModel, Seq<char>>(tree_of(v)),
            Err(e) => parsed(text@) == Err::<JsonModel, Seq<char>>(e@),
        },
{
    serde_json::from_str::<JsonTree>(text).map_err(|e| e.to_string())
}

/// Moves a `serde_json::Value` into a [`Json`], variant by variant; of a
/// number it keeps what `as_u64` and `as_i64` give.
#[verifier::external_body]
fn json_of(value: JsonTree) -> (r: Json)
    ensures
        r@ == tree_of(value),
{
    match value {
        JsonTree::Null => Json::Null,
        JsonTree::Bool(b) => Json::Bool(b),
        JsonTree::Number(n) => Json::Number(n.as_u64(), n.as_i64()),
        JsonTree::String(s) => Json::String(s),
        JsonTree::Array(v) => Json::Array(v.into_iter().map(json_of).collect()),
        JsonTree::Object(m) => Json::Object(
            m.into_iter().map(|(k, v)| (k, json_of(v))).collect(),
        ),
    }
}

/// Parses a JSON text.
pub fn parse_json(text: &str) -> (r: Result<Json, String>)
    ensures
        match r {
            Ok(j) => parsed(text@) == Ok::<JsonModel, Seq<char>>(j@),
            Err(e) => parsed(text@) == Err::<JsonModel, Seq<char>>(e@),
        },
{
    match parse_value(text) {
        Ok(value) => Ok(json_of(value)),
        Err(e) => Err(e),
    }
}

/// The member of an object under a name is the first one of that name, and it
/// has none where no member has that name.
pub proof fn law_member_is_first_of_its_name(m: Seq<(Seq<char>, JsonModel)>, key: Seq<char>, k: int)
    ensures
        0 <= k < m.len() && m[k].0 == key && (forall|l: int|
            0 <= l < k ==> (#[trigger] m[l]).0 != key) ==> member(JsonModel::Object(m), key)
            == Some(m[k].1),
        (forall|l: int| 0 <= l < m.len() ==> (#[trigger] m[l]).0 != key) ==> member(
            JsonModel::Object(m),
            key,
        ) is None,
{
    lemma_member_is_first(m, key, k, 0);
}

proof fn lemma_member_is_first(m: Seq<(Seq<char>, JsonModel)>, key: Seq<char>, k: int, i: int)
    requires
        0 <= i,
    ensures
        i <= k < m.len() && m[k].0 == key && (forall|l: int|
            i <= l < k ==> (#[trigger] m[l]).0 != key) ==> member_from(m, key, i) == Some(m[k].1),
        (forall|l: int| i <= l < m.len() ==> (#[trigger] m[l]).0 != key) ==> member_from(
            m,
            key,
            i,
        ) is None,
    decreases m.len() - i,
{
    if i < m.len() && m[i].0 != key {
        lemma_member_is_first(m, key, k, i + 1);
    }
}

} // verus!
