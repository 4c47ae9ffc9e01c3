//! JSON documents.

use crate::error::TtsError;
use crate::text::same_text;
use vstd::prelude::*;

verus! {

/// A JSON value. Of a number only its readings as an integer matter.
#[derive(Debug)]
pub enum Json {
    Null,
    Bool(bool),
    Number { unsigned: Option<u64>, signed: Option<i64> },
    Text(String),
    Array(Vec<Json>),
    Object(Vec<Member>),
}

/// A member of a JSON object.
#[derive(Debug)]
pub struct Member {
    pub key: String,
    pub value: Json,
}

/// What a JSON value says.
pub enum JsonTree {
    Null,
    Bool(bool),
    Number { unsigned: Option<u64>, signed: Option<i64> },
    Text(Seq<char>),
    Array(Seq<JsonTree>),
    Object(Seq<(Seq<char>, JsonTree)>),
}

impl Json {
    pub open spec fn tree(self) -> JsonTree
        decreases self,
    {
        match self {
            Json::Null => JsonTree::Null,
            Json::Bool(b) => JsonTree::Bool(b),
            Json::Number { unsigned, signed } => JsonTree::Number { unsigned, signed },
            Json::Text(s) => JsonTree::Text(s@),
            Json::Array(v) => JsonTree::Array(
                Seq::new(
                    v@.len(),
                    |i: int|
                        if 0 <= i < v@.len() {
                            v@[i].tree()
                        } else {
                            JsonTree::Null
                        },
                ),
            ),
            Json::Object(v) => JsonTree::Object(
                Seq::new(
                    v@.len(),
                    |i: int|
                        if 0 <= i < v@.len() {
                            (v@[i].key@, v@[i].value.tree())
                        } else {
                            (Seq::empty(), JsonTree::Null)
                        },
                ),
            ),
        }
    }
}

/// A value of `serde_json`.
#[verifier::external_type_specification]
#[verifier::external_body]
pub struct ExValue(serde_json::Value);

/// What a value of `serde_json` holds.
pub uninterp spec fn json_value(value: serde_json::Value) -> JsonTree;

/// The value that `serde_json::from_str` reads from a text, if it is a JSON document.
pub uninterp spec fn json_document(text: Seq<char>) -> Option<JsonTree>;

/// `serde_json::from_str` for a whole document: succeeds exactly on the texts
/// that are JSON documents, and what it reads depends on the text alone.
#[verifier::external_body]
fn from_str(text: &str) -> (r: Result<serde_json::Value, serde_json::Error>)
    ensures
        match r {
            Ok(value) => json_document(text@) == Some(json_value(value)),
            Err(_) => json_document(text@) is None,
        },
{
    serde_json::from_str(text)
}

/// Turns a `serde_json::Value` into a value of the library, variant for variant
/// and item for item: numbers by `as_u64` and `as_i64` of `serde_json::Number`,
/// objects as the list of their members.
#[verifier::external_body]
fn converted(value: serde_json::Value) -> (r: Json)
    ensures
        r.tree() == json_value(value),
{
    match value {
        serde_json::Value::Null => Json::Null,
        serde_json::Value::Bool(b) => Json::Bool(b),
        serde_json::Value::Number(n) => Json::Number { unsigned: n.as_u64(), signed: n.as_i64() },
        serde_json::Value::String(s) => Json::Text(s),
        serde_json::Value::Array(v) => Json::Array(v.into_iter().map(converted).collect()),
        serde_json::Value::Object(v) => Json::Object(
            v.into_iter().map(|(key, value)| Member { key, value: converted(value) }).collect(),
        ),
    }
}

/// Reads a JSON document.
pub fn parse(text: &str) -> (r: Result<Json, TtsError>)
    ensures
        match json_document(text@) {
            Some(tree) => r matches Ok(json) && json.tree() == tree,
            None => r matches Err(TtsError::SerdeJson(_)),
        },
{
    match from_str(text) {
        Ok(value) => Ok(converted(value)),
        Err(e) => Err(TtsError::SerdeJson(e)),
    }
}

/// The last of the members under a key.
pub open spec fn last_member(members: Seq<(Seq<char>, JsonTree)>, key: Seq<char>) -> JsonTree
    decreases members.len(),
{
    if members.len() == 0 {
        JsonTree::Null
    } else if members.last().0 == key {
        members.last().1
    } else {
        last_member(members.drop_last(), key)
    }
}

impl JsonTree {
    /// The value under a key; null if there is none.
    pub open spec fn at(self, key: Seq<char>) -> JsonTree {
        match self {
            JsonTree::Object(members) => last_member(members, key),
            _ => JsonTree::Null,
        }
    }

    pub open spec fn unsigned(self) -> Option<u64> {
        match self {
            JsonTree::Number { unsigned, signed } => unsigned,
            _ => None,
        }
    }

    pub open spec fn signed(self) -> Option<i64> {
        match self {
            JsonTree::Number { unsigned, signed } => signed,
            _ => None,
        }
    }

    pub open spec fn text(self) -> Option<Seq<char>> {
        match self {
            JsonTree::Text(s) => Some(s),
            _ => None,
        }
    }

    pub open spec fn items(self) -> Option<Seq<JsonTree>> {
        match self {
            JsonTree::Array(items) => Some(items),
            _ => None,
        }
    }

    /// The items of an array; none if this is no array.
    pub open spec fn items_or_none(self) -> Seq<JsonTree> {
        match self {
            JsonTree::Array(items) => items,
            _ => Seq::empty(),
        }
    }
}

impl Json {
    /// The value under a key, if there is one.
    pub fn get(&self, key: &str) -> (r: Option<&Json>)
        ensures
            match r {
                Some(v) => v.tree() == self.tree().at(key@),
                None => self.tree().at(key@) == JsonTree::Null,
            },
    {
        match self {
            Json::Object(members) => {
                let ghost all = self.tree()->Object_0;
                let mut i: usize = members.len();
                proof {
                    assert(all.take(i as int) == all);
                }
                while i > 0
                    invariant
                        i <= members@.len(),
                        self.tree() == JsonTree::Object(all),
                        all.len() == members@.len(),
                        forall|j: int|
                            0 <= j < all.len() ==> #[trigger] all[j] == (
                                members@[j].key@,
                                members@[j].value.tree(),
                            ),
                        last_member(all.take(i as int), key@) == last_member(all, key@),
                    decreases i,
                {
                    i = i - 1;
                    proof {
                        assert(all.take(i + 1).drop_last() == all.take(i as int));
                        assert(all.take(i + 1).last() == all[i as int]);
                    }
                    if same_text(members[i].key.as_str(), key) {
                        return Some(&members[i].value);
                    }
                }
                None
            },
            _ => None,
        }
    }

    /// The value under a key as an unsigned number.
    pub fn unsigned_at(&self, key: &str) -> (r: Result<u64, TtsError>)
        ensures
            match self.tree().at(key@).unsigned() {
                Some(n) => r == Ok::<u64, TtsError>(n),
                None => r matches Err(TtsError::Malformed(_)),
            },
    {
        match self.get(key) {
            Some(Json::Number { unsigned: Some(n), signed }) => Ok(*n),
            _ => Err(TtsError::Malformed(key.to_owned())),
        }
    }

    /// The value under a key as a signed number.
    pub fn signed_at(&self, key: &str) -> (r: Result<i64, TtsError>)
        ensures
            match self.tree().at(key@).signed() {
                Some(n) => r == Ok::<i64, TtsError>(n),
                None => r matches Err(TtsError::Malformed(_)),
            },
    {
        match self.get(key) {
            Some(Json::Number { unsigned, signed: Some(n) }) => Ok(*n),
            _ => Err(TtsError::Malformed(key.to_owned())),
        }
    }

    /// The value under a key as a text.
    pub fn text_at(&self, key: &str) -> (r: Result<String, TtsError>)
        ensures
            match self.tree().at(key@).text() {
                Some(s) => r matches Ok(t) && t@ == s,
                None => r matches Err(TtsError::Malformed(_)),
            },
    {
        match self.get(key) {
            Some(Json::Text(s)) => Ok(s.as_str().to_owned()),
            _ => Err(TtsError::Malformed(key.to_owned())),
        }
    }

    /// The items of the array under a key.
    pub fn items_at(&self, key: &str) -> (r: Option<&Vec<Json>>)
        ensures
            match self.tree().at(key@).items() {
                Some(items) => r matches Some(v) && trees(v@) == items,
                None => r is None,
            },
    {
        match self.get(key) {
            Some(Json::Array(v)) => {
                proof {
                    assert(trees(v@) == self.tree().at(key@)->Array_0);
                }
                Some(v)
            },
            _ => None,
        }
    }
}

pub open spec fn trees(items: Seq<Json>) -> Seq<JsonTree> {
    items.map_values(|j: Json| j.tree())
}

// --- Lists of numbers ---

/// The items as unsigned numbers, if all are.
pub open spec fn sizes(items: Option<Seq<JsonTree>>) -> Option<Seq<usize>> {
    match items {
        Some(items) => if forall|i: int| 0 <= i < items.len() ==> (#[trigger] items[i]).unsigned() is Some {
            Some(
                items.map_values(
                    |t: JsonTree| #[verifier::truncate] (t.unsigned().unwrap() as usize),
                ),
            )
        } else {
            None
        },
        None => None,
    }
}

/// The items as signed numbers, if all are.
pub open spec fn codes(items: Seq<JsonTree>) -> Option<Seq<i32>> {
    if forall|i: int| 0 <= i < items.len() ==> (#[trigger] items[i]).signed() is Some {
        Some(items.map_values(|t: JsonTree| #[verifier::truncate] (t.signed().unwrap() as i32)))
    } else {
        None
    }
}

impl Json {
    /// The value under a key as a list of sizes.
    pub fn sizes_at(&self, key: &str) -> (r: Result<Vec<usize>, TtsError>)
        ensures
            match sizes(self.tree().at(key@).items()) {
                Some(list) => r matches Ok(v) && v@ == list,
                None => r matches Err(TtsError::Malformed(_)),
            },
    {
        let items = match self.items_at(key) {
            Some(v) => v,
            None => {
                return Err(TtsError::Malformed(key.to_owned()));
            },
        };
        let ghost all = self.tree().at(key@)->Array_0;
        let mut list: Vec<usize> = Vec::new();
        let mut i: usize = 0;
        while i < items.len()
            invariant
                i <= items@.len(),
                all == trees(items@),
                self.tree().at(key@).items() == Some(all),
                list@.len() == i,
                forall|j: int|
                    0 <= j < i ==> (#[trigger] all[j]).unsigned() is Some && list@[j]
                        == #[verifier::truncate] (all[j].unsigned().unwrap() as usize),
            decreases items.len() - i,
        {
            proof {
                assert(all[i as int] == items@[i as int].tree());
            }
            match &items[i] {
                Json::Number { unsigned: Some(n), signed } => {
                    list.push(#[verifier::truncate] (*n as usize));
                },
                _ => {
                    proof {
                        assert(all[i as int].unsigned() is None);
                    }
                    return Err(TtsError::Malformed(key.to_owned()));
                },
            }
            i = i + 1;
        }
        proof {
            assert(list@ == sizes(Some(all)).unwrap());
        }
        Ok(list)
    }
}

/// The items of a list as signed numbers.
pub fn read_codes(items: &Vec<Json>) -> (r: Result<Vec<i32>, TtsError>)
    ensures
        match codes(trees(items@)) {
            Some(list) => r matches Ok(v) && v@ == list,
            None => r matches Err(TtsError::Malformed(_)),
        },
{
    let ghost all = trees(items@);
    let mut list: Vec<i32> = Vec::new();
    let mut i: usize = 0;
    while i < items.len()
        invariant
            i <= items@.len(),
            all == trees(items@),
            list@.len() == i,
            forall|j: int|
                0 <= j < i ==> (#[trigger] all[j]).signed() is Some && list@[j]
                    == #[verifier::truncate] (all[j].signed().unwrap() as i32),
        decreases items.len() - i,
    {
        proof {
            assert(all[i as int] == items@[i as int].tree());
        }
        match &items[i] {
            Json::Number { unsigned, signed: Some(n) } => {
                list.push(#[verifier::truncate] (*n as i32));
            },
            _ => {
                proof {
                    assert(all[i as int].signed() is None);
                }
                return Err(TtsError::Malformed("number".to_owned()));
            },
        }
        i = i + 1;
    }
    proof {
        assert(list@ == codes(all).unwrap());
    }
    Ok(list)
}

} // verus!
