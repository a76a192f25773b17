//! JSON documents, read by `serde_json` and held as plain values.
use vstd::prelude::*;

verus! {

/// A parsed document as `serde_json` holds it.
#[verifier::external_type_specification]
#[verifier::external_body]
pub struct ExValue(serde_json::Value);

/// What a JSON value holds. Of a number nothing is kept.
pub ghost enum JsonTree {
    Null,
    Bool(bool),
    Number,
    Text(Seq<char>),
    List(Seq<JsonTree>),
    Object(Seq<(Seq<char>, JsonTree)>),
}

/// What a value of `serde_json` holds, the members of an object in the order in
/// which they are handed out.
pub uninterp spec fn json_tree(value: serde_json::Value) -> JsonTree;

/// What `serde_json::from_str` makes of a text: what the value holds, or the
/// error in words.
pub uninterp spec fn json_document(text: Seq<char>) -> Result<JsonTree, Seq<char>>;

/// One level of a value: what it is, and the values directly below it.
enum JsonNode {
    Null,
    Bool(bool),
    Number,
    Text(String),
    List(Vec<serde_json::Value>),
    Object(Vec<(String, serde_json::Value)>),
}

impl JsonNode {
    spec fn tree(self) -> JsonTree {
        match self {
            JsonNode::Null => JsonTree::Null,
            JsonNode::Bool(b) => JsonTree::Bool(b),
            JsonNode::Number => JsonTree::Number,
            JsonNode::Text(text) => JsonTree::Text(text@),
            JsonNode::List(items) => JsonTree::List(
                Seq::new(items@.len(), |i: int| json_tree(items@[i])),
            ),
            JsonNode::Object(members) => JsonTree::Object(
                Seq::new(members@.len(), |i: int| (members@[i].0@, json_tree(members@[i].1))),
            ),
        }
    }
}

/// Parses a text with `serde_json::from_str`. The value holds what
/// [`json_document`] names for the text. An error comes as the words that its
/// `Display` writes.
#[verifier::external_body]
fn parse_value(text: &str) -> (parsed: Result<serde_json::Value, String>)
    ensures
        match parsed {
            Ok(value) => json_document(text@) == Ok::<JsonTree, Seq<char>>(json_tree(value)),
            Err(error) => json_document(text@) == Err::<JsonTree, Seq<char>>(error@),
        },
{
    match serde_json::from_str::<serde_json::Value>(text) {
        Ok(value) => Ok(value),
        Err(error) => Err(error.to_string()),
    }
}

/// Takes a `serde_json::Value` apart by its variants. The node is of the same
/// kind as the value and holds the values directly below it, in order.
#[verifier::external_body]
fn open_value(value: serde_json::Value) -> (node: JsonNode)
    ensures
        node.tree() == json_tree(value),
{
    match value {
        serde_json::Value::Null => JsonNode::Null,
        serde_json::Value::Bool(b) => JsonNode::Bool(b),
        serde_json::Value::Number(_) => JsonNode::Number,
        serde_json::Value::String(text) => JsonNode::Text(text),
        serde_json::Value::Array(items) => JsonNode::List(items),
        serde_json::Value::Object(members) => JsonNode::Object(members.into_iter().collect()),
    }
}

/// A member of a JSON object.
pub struct JsonMember {
    pub name: String,
    pub value: Json,
}

/// A JSON value as plain values. Of a number nothing is kept.
pub enum Json {
    Null,
    Bool(bool),
    Number,
    Text(String),
    List(Vec<Json>),
    Object(Vec<JsonMember>),
}

impl Json {
    /// What the value holds.
    pub open spec fn tree(self) -> JsonTree
        decreases self,
    {
        match self {
            Json::Null => JsonTree::Null,
            Json::Bool(b) => JsonTree::Bool(b),
            Json::Number => JsonTree::Number,
            Json::Text(text) => JsonTree::Text(text@),
            Json::List(items) => JsonTree::List(
                Seq::new(
                    items@.len(),
                    |i: int|
                        if 0 <= i < items@.len() {
                            items@[i].tree()
                        } else {
                            JsonTree::Null
                        },
                ),
            ),
            Json::Object(members) => JsonTree::Object(
                Seq::new(
                    members@.len(),
                    |i: int|
                        if 0 <= i < members@.len() {
                            (members@[i].name@, members@[i].value.tree())
                        } else {
                            (Seq::empty(), JsonTree::Null)
                        },
                ),
            ),
        }
    }
}

impl JsonTree {
    /// The first item of a list.
    pub open spec fn first(self) -> Option<JsonTree> {
        match self {
            JsonTree::List(items) => if items.len() > 0 {
                Some(items[0])
            } else {
                None
            },
            _ => None,
        }
    }

    /// The items of a list.
    pub open spec fn list(self) -> Option<Seq<JsonTree>> {
        match self {
            JsonTree::List(items) => Some(items),
            _ => None,
        }
    }

    /// The characters of a text.
    pub open spec fn text(self) -> Option<Seq<char>> {
        match self {
            JsonTree::Text(text) => Some(text),
            _ => None,
        }
    }

    /// The member of an object that has a given name.
    pub open spec fn member(self, name: Seq<char>) -> Option<JsonTree> {
        match self {
            JsonTree::Object(members) => named(members, name),
            _ => None,
        }
    }
}

/// The first of some members that has a given name.
pub open spec fn named(members: Seq<(Seq<char>, JsonTree)>, name: Seq<char>) -> Option<JsonTree>
    decreases members.len(),
{
    if members.len() == 0 {
        None
    } else if members[0].0 == name {
        Some(members[0].1)
    } else {
        named(members.skip(1), name)
    }
}

impl Json {
    /// The first item of a list.
    pub fn first(&self) -> (item: Option<&Json>)
        ensures
            match item {
                Some(json) => self.tree().first() == Some(json.tree()),
                None => self.tree().first() is None,
            },
    {
        match self {
            Json::List(items) => {
                if items.len() > 0 {
                    assert(self.tree()->List_0[0] == items@[0].tree());
                    Some(&items[0])
                } else {
                    None
                }
            },
            _ => None,
        }
    }

    /// The items of a list.
    pub fn list(&self) -> (items: Option<&Vec<Json>>)
        ensures
            match items {
                Some(items) => {
                    &&& self.tree().list() is Some
                    &&& self.tree().list()->0 == trees(items@)
                },
                None => self.tree().list() is None,
            },
    {
        match self {
            Json::List(items) => {
                assert(self.tree().list()->0 =~= trees(items@));
                Some(items)
            },
            _ => None,
        }
    }

    /// The characters of a text.
    pub fn text(&self) -> (text: Option<&str>)
        ensures
            match text {
                Some(text) => self.tree().text() == Some(text@),
                None => self.tree().text() is None,
            },
    {
        match self {
            Json::Text(text) => Some(text.as_str()),
            _ => None,
        }
    }

    /// The member of an object that has a given name.
    pub fn member(&self, name: &str) -> (value: Option<&Json>)
        ensures
            match value {
                Some(json) => self.tree().member(name@) == Some(json.tree()),
                None => self.tree().member(name@) is None,
            },
    {
        match self {
            Json::Object(members) => {
                let wanted = name.to_owned();
                let ghost below = self.tree()->Object_0;
                let mut k: usize = 0;
                assert(below.skip(0) =~= below);
                while k < members.len()
                    invariant
                        k <= members@.len(),
                        wanted@ == name@,
                        below.len() == members@.len(),
                        forall|j: int|
                            0 <= j < below.len() ==> #[trigger] below[j] == (
                                members@[j].name@,
                                members@[j].value.tree(),
                            ),
                        named(below.skip(k as int), name@) == named(below, name@),
                        self.tree() == JsonTree::Object(below),
                    decreases members@.len() - k,
                {
                    assert(below.skip(k as int)[0] == below[k as int]);
                    assert(below.skip(k as int).skip(1) =~= below.skip(k + 1));
                    if members[k].name == wanted {
                        return Some(&members[k].value);
                    }
                    k += 1;
                }
                None
            },
            _ => None,
        }
    }
}

/// What each of a list of values holds.
pub open spec fn trees(items: Seq<Json>) -> Seq<JsonTree> {
    Seq::new(items.len(), |i: int| items[i].tree())
}

/// Turns a value of `serde_json` into plain values.
fn plain_value(whole: serde_json::Value) -> (json: Json)
    ensures
        json.tree() == json_tree(whole),
    decreases json_tree(whole),
{
    let ghost tree = json_tree(whole);
    match open_value(whole) {
        JsonNode::Null => Json::Null,
        JsonNode::Bool(b) => Json::Bool(b),
        JsonNode::Number => Json::Number,
        JsonNode::Text(text) => Json::Text(text),
        JsonNode::List(values) => {
            let mut items: Vec<Json> = Vec::new();
            let ghost below = tree->List_0;
            for value in it: values
                invariant
                    it.seq() == values@,
                    tree == json_tree(whole),
                    tree == JsonTree::List(below),
                    below.len() == values@.len(),
                    forall|k: int| 0 <= k < below.len() ==> #[trigger] below[k] == json_tree(values@[k]),
                    items@.len() == it.index(),
                    forall|k: int| 0 <= k < items@.len() ==> (#[trigger] items@[k]).tree() == below[k],
            {
                assert(below[it.index() as int] == json_tree(value));
                assert(decreases_to!(tree => tree->List_0));
                assert(decreases_to!(tree->List_0 => tree->List_0[it.index() as int]));
                items.push(plain_value(value));
            }
            let json = Json::List(items);
            assert(json.tree()->List_0 =~= below);
            json
        },
        JsonNode::Object(values) => {
            let mut members: Vec<JsonMember> = Vec::new();
            let ghost below = tree->Object_0;
            for pair in it: values
                invariant
                    it.seq() == values@,
                    tree == json_tree(whole),
                    tree == JsonTree::Object(below),
                    below.len() == values@.len(),
                    forall|k: int|
                        0 <= k < below.len() ==> #[trigger] below[k] == (
                            values@[k].0@,
                            json_tree(values@[k].1),
                        ),
                    members@.len() == it.index(),
                    forall|k: int|
                        0 <= k < members@.len() ==> ((#[trigger] members@[k]).name@, members@[k].value.tree())
                            == below[k],
            {
                assert(below[it.index() as int] == (pair.0@, json_tree(pair.1)));
                assert(decreases_to!(tree => tree->Object_0));
                assert(decreases_to!(tree->Object_0 => tree->Object_0[it.index() as int]));
                assert(decreases_to!(tree->Object_0[it.index() as int] => tree->Object_0[it.index() as int].1));
                members.push(JsonMember { name: pair.0, value: plain_value(pair.1) });
            }
            let json = Json::Object(members);
            assert(json.tree()->Object_0 =~= below);
            json
        },
    }
}

/// Reads a JSON document, or says in words why it is none.
pub fn read_json(text: &str) -> (read: Result<Json, String>)
    ensures
        match read {
            Ok(json) => json_document(text@) == Ok::<JsonTree, Seq<char>>(json.tree()),
            Err(error) => json_document(text@) == Err::<JsonTree, Seq<char>>(error@),
        },
{
    match parse_value(text) {
        Ok(value) => Ok(plain_value(value)),
        Err(error) => Err(error),
    }
}

} // verus!
