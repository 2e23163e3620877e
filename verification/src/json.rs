//! JSON documents: the value type that the rest of the library reads and
//! writes, and the parser that fills it.

use vstd::prelude::*;

use crate::text::{
    decimal, decimal_text, law_decimal_stands_for_its_number, numeral, same, texts,
};

verus! {

/// A JSON document as a mathematical tree.
pub enum JsonTree {
    Null,
    Bool(bool),
    /// A number, as it is written in decimal.
    Number(Seq<char>),
    Text(Seq<char>),
    Array(Seq<JsonTree>),
    /// The members of an object, in the order in which they are kept.
    Object(Seq<MemberTree>),
}

/// One member of an object in a `JsonTree`.
pub struct MemberTree {
    pub name: Seq<char>,
    pub value: JsonTree,
}

/// A JSON document.
#[derive(Debug, PartialEq, Eq)]
pub enum Json {
    Null,
    Bool(bool),
    /// A number, as it is written in decimal.
    Number(String),
    Text(String),
    Array(Vec<Json>),
    /// The members of an object, in the order in which they are kept.
    Object(Vec<Member>),
}

/// One member of an object in a `Json`.
#[derive(Debug, PartialEq, Eq)]
pub struct Member {
    pub name: String,
    pub value: Json,
}

impl Json {
    /// The tree that a document stands for.
    pub open spec fn tree(self) -> JsonTree
        decreases self,
    {
        match self {
            Json::Null => JsonTree::Null,
            Json::Bool(b) => JsonTree::Bool(b),
            Json::Number(n) => JsonTree::Number(n@),
            Json::Text(s) => JsonTree::Text(s@),
            Json::Array(items) => JsonTree::Array(
                Seq::new(
                    items@.len(),
                    |i: int|
                        if 0 <= i < items@.len() {
                            items@[i].tree()
                        } else {
                            JsonTree::Null
                        },
                ),
            ),
            Json::Object(members) => JsonTree::Object(
                Seq::new(
                    members@.len(),
                    |i: int|
                        if 0 <= i < members@.len() {
                            members@[i].tree()
                        } else {
                            MemberTree { name: Seq::empty(), value: JsonTree::Null }
                        },
                ),
            ),
        }
    }
}

impl Member {
    /// The tree that a member stands for.
    pub open spec fn tree(self) -> MemberTree
        decreases self,
    {
        MemberTree { name: self.name@, value: self.value.tree() }
    }
}

impl View for Json {
    type V = JsonTree;

    open spec fn view(&self) -> JsonTree {
        self.tree()
    }
}

impl View for Member {
    type V = MemberTree;

    open spec fn view(&self) -> MemberTree {
        self.tree()
    }
}

/// What the JSON parser builds: a value that may hold further values.
#[verifier::external_type_specification]
#[verifier::external_body]
pub struct ExValue(serde_json::Value);

/// What a parsed value holds, down to its innermost values.
pub uninterp spec fn value_tree(value: serde_json::Value) -> JsonTree;

/// The document that a text holds, where it is one JSON document.
pub uninterp spec fn document_in_text(text: Seq<char>) -> Option<JsonTree>;

/// The document that a run of bytes holds, where it is one JSON document.
pub uninterp spec fn document_in_bytes(bytes: Seq<u8>) -> Option<JsonTree>;

/// One level of a parsed value: its children are parsed values again.
enum Node {
    Null,
    Bool(bool),
    Number(String),
    Text(String),
    Array(Vec<serde_json::Value>),
    Object(Vec<(String, serde_json::Value)>),
}

impl Node {
    /// The tree of a value whose topmost level is this one.
    spec fn tree(self) -> JsonTree {
        match self {
            Node::Null => JsonTree::Null,
            Node::Bool(b) => JsonTree::Bool(b),
            Node::Number(n) => JsonTree::Number(n@),
            Node::Text(s) => JsonTree::Text(s@),
            Node::Array(items) => JsonTree::Array(
                items@.map_values(|v: serde_json::Value| value_tree(v)),
            ),
            Node::Object(members) => JsonTree::Object(
                members@.map_values(
                    |m: (String, serde_json::Value)|
                        MemberTree { name: m.0@, value: value_tree(m.1) },
                ),
            ),
        }
    }
}

/// Calls `serde_json::from_str` for a `serde_json::Value`. The call depends on
/// the text alone: where it succeeds, the value holds the document in the text,
/// and it fails where there is none. Which texts hold a document, and which,
/// is not stated.
#[verifier::external_body]
fn value_in_text(text: &str) -> (value: Option<serde_json::Value>)
    ensures
        match value {
            Some(v) => document_in_text(text@) == Some(value_tree(v)),
            None => document_in_text(text@) is None,
        },
{
    serde_json::from_str::<serde_json::Value>(text).ok()
}

/// Calls `serde_json::from_slice` for a `serde_json::Value`. The call depends
/// on the bytes alone: where it succeeds, the value holds the document in the
/// bytes, and it fails where there is none. Which bytes hold a document, and
/// which, is not stated.
#[verifier::external_body]
fn value_in_bytes(bytes: &[u8]) -> (value: Option<serde_json::Value>)
    ensures
        match value {
            Some(v) => document_in_bytes(bytes@) == Some(value_tree(v)),
            None => document_in_bytes(bytes@) is None,
        },
{
    serde_json::from_slice::<serde_json::Value>(bytes).ok()
}

/// Takes a `serde_json::Value` apart: each of its variants becomes the one of
/// the same name, a number its `Display` text, and an object the list of the
/// pairs that `serde_json::Map::into_iter` walks. What the value holds is what
/// the pieces hold.
#[verifier::external_body]
fn open_value(value: serde_json::Value) -> (node: Node)
    ensures
        node.tree() == value_tree(value),
{
    match value {
        serde_json::Value::Null => Node::Null,
        serde_json::Value::Bool(b) => Node::Bool(b),
        serde_json::Value::Number(n) => Node::Number(n.to_string()),
        serde_json::Value::String(s) => Node::Text(s),
        serde_json::Value::Array(items) => Node::Array(items),
        serde_json::Value::Object(members) => Node::Object(members.into_iter().collect()),
    }
}

/// The document that a parsed value holds.
fn json_of(value: serde_json::Value) -> (json: Json)
    ensures
        json@ == value_tree(value),
    decreases value_tree(value),
{
    let ghost whole = value_tree(value);
    match open_value(value) {
        Node::Null => Json::Null,
        Node::Bool(b) => Json::Bool(b),
        Node::Number(n) => Json::Number(n),
        Node::Text(s) => Json::Text(s),
        Node::Array(items) => {
            let mut out: Vec<Json> = Vec::new();
            for item in iter: items
                invariant
                    whole == value_tree(value),
                    whole == Node::Array(items).tree(),
                    iter.seq() == items@,
                    out@.len() == iter.index(),
                    forall|i: int| 0 <= i < out@.len() ==> out@[i].tree() == value_tree(items@[i]),
            {
                assert(decreases_to!(whole => whole->Array_0[iter.index() as int]));
                out.push(json_of(item));
            }
            assert(Json::Array(out).tree()->Array_0 =~= whole->Array_0);
            Json::Array(out)
        },
        Node::Object(members) => {
            let mut out: Vec<Member> = Vec::new();
            for member in iter: members
                invariant
                    whole == value_tree(value),
                    whole == Node::Object(members).tree(),
                    iter.seq() == members@,
                    out@.len() == iter.index(),
                    forall|i: int|
                        0 <= i < out@.len() ==> out@[i].tree() == (MemberTree {
                            name: members@[i].0@,
                            value: value_tree(members@[i].1),
                        }),
            {
                let ghost i = iter.index() as int;
                assert(decreases_to!(whole => whole->Object_0[i].value));
                let (name, inner) = member;
                out.push(Member { name, value: json_of(inner) });
            }
            assert(Json::Object(out).tree()->Object_0 =~= whole->Object_0);
            Json::Object(out)
        },
    }
}

/// The document in `text`, where it is one JSON document.
pub fn parse_json(text: &str) -> (json: Option<Json>)
    ensures
        match json {
            Some(j) => document_in_text(text@) == Some(j@),
            None => document_in_text(text@) is None,
        },
{
    match value_in_text(text) {
        Some(value) => Some(json_of(value)),
        None => None,
    }
}

/// The document in `bytes`, where they are one JSON document.
pub fn parse_json_bytes(bytes: &[u8]) -> (json: Option<Json>)
    ensures
        match json {
            Some(j) => document_in_bytes(bytes@) == Some(j@),
            None => document_in_bytes(bytes@) is None,
        },
{
    match value_in_bytes(bytes) {
        Some(value) => Some(json_of(value)),
        None => None,
    }
}

/// The value of the first member called `name`.
pub open spec fn member_value(members: Seq<MemberTree>, name: Seq<char>) -> Option<JsonTree>
    decreases members.len(),
{
    if members.len() == 0 {
        None
    } else if members[0].name == name {
        Some(members[0].value)
    } else {
        member_value(members.skip(1), name)
    }
}

impl JsonTree {
    /// The value that an object has under `name`.
    pub open spec fn field(self, name: Seq<char>) -> Option<JsonTree> {
        match self {
            JsonTree::Object(members) => member_value(members, name),
            _ => None,
        }
    }

    /// The string that an object has under `name`.
    pub open spec fn text_field(self, name: Seq<char>) -> Option<Seq<char>> {
        match self.field(name) {
            Some(JsonTree::Text(s)) => Some(s),
            _ => None,
        }
    }

    /// The array that an object has under `name`; none is as good as an empty one.
    pub open spec fn array_field(self, name: Seq<char>) -> Seq<JsonTree> {
        match self.field(name) {
            Some(JsonTree::Array(items)) => items,
            _ => Seq::empty(),
        }
    }
}

/// The strings that the objects among `items` have under `name`, in order.
pub open spec fn text_fields(items: Seq<JsonTree>, name: Seq<char>) -> Seq<Seq<char>>
    decreases items.len(),
{
    if items.len() == 0 {
        Seq::empty()
    } else {
        let before = text_fields(items.drop_last(), name);
        match items.last().text_field(name) {
            Some(s) => before.push(s),
            None => before,
        }
    }
}

impl Json {
    /// The value that an object has under `name`.
    pub fn get(&self, name: &str) -> (value: Option<&Json>)
        ensures
            match value {
                Some(v) => self@.field(name@) == Some(v@),
                None => self@.field(name@) is None,
            },
    {
        match self {
            Json::Object(members) => {
                let ghost all = self@->Object_0;
                let mut i: usize = 0;
                assert(all.skip(0) == all);
                while i < members.len()
                    invariant
                        i <= members@.len(),
                        all.len() == members@.len(),
                        forall|j: int| 0 <= j < all.len() ==> all[j] == members@[j].tree(),
                        member_value(all, name@) == member_value(all.skip(i as int), name@),
                        self@.field(name@) == member_value(all, name@),
                    decreases members@.len() - i,
                {
                    let ghost rest = all.skip(i as int);
                    assert(rest[0] == members@[i as int].tree());
                    if same(&members[i].name, name) {
                        return Some(&members[i].value);
                    }
                    assert(rest.skip(1) == all.skip(i + 1));
                    i = i + 1;
                }
                None
            },
            _ => None,
        }
    }

    /// The string that an object has under `name`.
    pub fn get_text(&self, name: &str) -> (text: Option<&str>)
        ensures
            match text {
                Some(s) => self@.text_field(name@) == Some(s@),
                None => self@.text_field(name@) is None,
            },
    {
        match self.get(name) {
            Some(Json::Text(s)) => Some(s.as_str()),
            _ => None,
        }
    }

    /// The strings that the objects in the array under `name` have under `inner`.
    pub fn get_texts(&self, name: &str, inner: &str) -> (out: Vec<String>)
        ensures
            texts(out@) == text_fields(self@.array_field(name@), inner@),
    {
        let mut out: Vec<String> = Vec::new();
        match self.get(name) {
            Some(Json::Array(items)) => {
                let ghost all = self@.array_field(name@);
                let mut i: usize = 0;
                assert(all.take(0) == Seq::<JsonTree>::empty());
                while i < items.len()
                    invariant
                        i <= items@.len(),
                        all.len() == items@.len(),
                        forall|j: int| 0 <= j < all.len() ==> all[j] == items@[j]@,
                        texts(out@) == text_fields(all.take(i as int), inner@),
                    decreases items@.len() - i,
                {
                    assert(all.take(i + 1).drop_last() == all.take(i as int));
                    let ghost before = out@;
                    if let Some(s) = items[i].get_text(inner) {
                        out.push(s.to_owned());
                        assert(texts(out@) == texts(before).push(s@));
                    }
                    i = i + 1;
                }
                assert(all.take(i as int) == all);
            },
            _ => {},
        }
        out
    }
}

impl JsonTree {
    /// The number `n`.
    pub open spec fn number(n: nat) -> JsonTree {
        JsonTree::Number(decimal(n))
    }
}

impl MemberTree {
    /// The member `name` with a value.
    pub open spec fn new(name: Seq<char>, value: JsonTree) -> MemberTree {
        MemberTree { name, value }
    }
}

impl Json {
    /// The string `s`.
    pub fn text(s: &str) -> (json: Json)
        ensures
            json@ == JsonTree::Text(s@),
    {
        Json::Text(s.to_owned())
    }

    /// The number `n`.
    pub fn number(n: u64) -> (json: Json)
        ensures
            json@ == JsonTree::number(n as nat),
    {
        Json::Number(decimal_text(n))
    }

    /// The object with the one member given.
    pub(crate) fn object_of_one(a: Member) -> (json: Json)
        ensures
            json@ == JsonTree::Object(seq![a@]),
    {
        let json = Json::Object(vec![a]);
        assert(json@->Object_0 =~= seq![a@]);
        json
    }

    /// The object with the two members given.
    pub(crate) fn object_of_two(a: Member, b: Member) -> (json: Json)
        ensures
            json@ == JsonTree::Object(seq![a@, b@]),
    {
        let json = Json::Object(vec![a, b]);
        assert(json@->Object_0 =~= seq![a@, b@]);
        json
    }

    /// The object with the three members given.
    pub(crate) fn object_of_three(a: Member, b: Member, c: Member) -> (json: Json)
        ensures
            json@ == JsonTree::Object(seq![a@, b@, c@]),
    {
        let json = Json::Object(vec![a, b, c]);
        assert(json@->Object_0 =~= seq![a@, b@, c@]);
        json
    }
}

impl Member {
    /// The member `name` with a value.
    pub fn new(name: &str, value: Json) -> (member: Member)
        ensures
            member@ == MemberTree::new(name@, value@),
    {
        Member { name: name.to_owned(), value }
    }
}

/// What an object has under a name is the value of the first member of that
/// name, wherever it stands.
pub proof fn law_field_is_the_first_of_its_name(members: Seq<MemberTree>, name: Seq<char>, k: int)
    requires
        0 <= k < members.len(),
        members[k].name == name,
        forall|j: int| 0 <= j < k ==> (#[trigger] members[j]).name != name,
    ensures
        JsonTree::Object(members).field(name) == Some(members[k].value),
    decreases k,
{
    if k > 0 {
        let rest = members.skip(1);
        assert(members[0].name != name);
        assert(rest[k - 1] == members[k]);
        assert forall|j: int| 0 <= j < k - 1 implies (#[trigger] rest[j]).name != name by {
            assert(rest[j] == members[j + 1]);
        }
        law_field_is_the_first_of_its_name(rest, name, k - 1);
    }
}

/// An object has nothing under a name that none of its members has, and what is
/// no object has nothing under any name.
pub proof fn law_no_field_without_its_name(doc: JsonTree, name: Seq<char>)
    requires
        doc matches JsonTree::Object(members) ==> forall|j: int|
            0 <= j < members.len() ==> (#[trigger] members[j]).name != name,
    ensures
        doc.field(name) is None,
{
    if let JsonTree::Object(members) = doc {
        lemma_no_member(members, name);
    }
}

proof fn lemma_no_member(members: Seq<MemberTree>, name: Seq<char>)
    requires
        forall|j: int| 0 <= j < members.len() ==> (#[trigger] members[j]).name != name,
    ensures
        member_value(members, name) is None,
    decreases members.len(),
{
    if members.len() > 0 {
        let rest = members.skip(1);
        assert forall|j: int| 0 <= j < rest.len() implies (#[trigger] rest[j]).name != name by {
            assert(rest[j] == members[j + 1]);
        }
        assert(members[0].name != name);
        lemma_no_member(rest, name);
    }
}

/// A string is found as a string and an array as an array, and neither is found
/// in anything else.
pub proof fn law_fields_are_found_as_what_they_are(doc: JsonTree, name: Seq<char>)
    ensures
        match doc.field(name) {
            Some(JsonTree::Text(s)) => doc.text_field(name) == Some(s),
            _ => doc.text_field(name) is None,
        },
        match doc.field(name) {
            Some(JsonTree::Array(items)) => doc.array_field(name) == items,
            _ => doc.array_field(name) == Seq::<JsonTree>::empty(),
        },
{
}

proof fn lemma_text_fields_join(a: Seq<JsonTree>, b: Seq<JsonTree>, name: Seq<char>)
    ensures
        text_fields(a + b, name) == text_fields(a, name) + text_fields(b, name),
    decreases b.len(),
{
    if b.len() == 0 {
        assert(a + b == a);
        assert(text_fields(a, name) + text_fields(b, name) == text_fields(a, name));
    } else {
        lemma_text_fields_join(a, b.drop_last(), name);
        assert((a + b).drop_last() == a + b.drop_last());
        assert((a + b).last() == b.last());
        assert(text_fields(a + b, name) == text_fields(a, name) + text_fields(b, name));
    }
}

/// Of a list, each item that has a string under a name contributes that string,
/// once and in its place, and every other item contributes nothing.
pub proof fn law_each_item_contributes_its_string(
    a: Seq<JsonTree>,
    item: JsonTree,
    b: Seq<JsonTree>,
    name: Seq<char>,
)
    ensures
        text_fields(a + seq![item] + b, name) == text_fields(a, name) + (match item.field(name) {
            Some(JsonTree::Text(s)) => seq![s],
            _ => Seq::empty(),
        }) + text_fields(b, name),
        text_fields(Seq::empty(), name) == Seq::<Seq<char>>::empty(),
{
    lemma_text_fields_join(a + seq![item], b, name);
    assert((a + seq![item]).drop_last() == a);
    assert((a + seq![item]).last() == item);
    assert(text_fields(a + seq![item], name) == text_fields(a, name) + (match item.field(name) {
        Some(JsonTree::Text(s)) => seq![s],
        _ => Seq::empty(),
    }));
}

/// A string is among those of a list just where an item, at whatever place, has
/// it under the name asked for.
pub proof fn law_strings_are_found_at_every_place(
    items: Seq<JsonTree>,
    name: Seq<char>,
    s: Seq<char>,
)
    ensures
        text_fields(items, name).contains(s) <==> exists|i: int|
            0 <= i < items.len() && (#[trigger] items[i]).field(name) == Some(JsonTree::Text(s)),
    decreases items.len(),
{
    let all = text_fields(items, name);
    if items.len() > 0 {
        let head = items.drop_last();
        let before = text_fields(head, name);
        law_strings_are_found_at_every_place(head, name, s);
        if before.contains(s) {
            let i = choose|i: int|
                0 <= i < head.len() && (#[trigger] head[i]).field(name) == Some(JsonTree::Text(s));
            assert(items[i].field(name) == Some(JsonTree::Text(s)));
            let k = before.index_of(s);
            assert(all[k] == s);
        }
        if items.last().field(name) == Some(JsonTree::Text(s)) {
            assert(items[items.len() - 1].field(name) == Some(JsonTree::Text(s)));
            assert(all[all.len() - 1] == s);
        }
        if exists|i: int|
            0 <= i < items.len() && (#[trigger] items[i]).field(name) == Some(JsonTree::Text(s)) {
            let i = choose|i: int|
                0 <= i < items.len() && (#[trigger] items[i]).field(name) == Some(
                    JsonTree::Text(s),
                );
            if i < head.len() {
                assert(head[i].field(name) == Some(JsonTree::Text(s)));
            }
        }
        if all.contains(s) && !before.contains(s) {
            let k = all.index_of(s);
            if k < before.len() {
                assert(before[k] == s);
            }
            assert(items[items.len() - 1].field(name) == Some(JsonTree::Text(s)));
        }
    }
}

/// A document stands for the tree of the same shape: each of its values for the
/// like value, in its place.
pub proof fn law_document_stands_for_its_tree(
    s: String,
    b: bool,
    items: Vec<Json>,
    members: Vec<Member>,
)
    ensures
        Json::Null@ == JsonTree::Null,
        Json::Bool(b)@ == JsonTree::Bool(b),
        Json::Text(s)@ == JsonTree::Text(s@),
        Json::Number(s)@ == JsonTree::Number(s@),
        Json::Array(items)@ is Array,
        Json::Array(items)@->Array_0 == items@.map_values(|j: Json| j@),
        Json::Object(members)@ is Object,
        Json::Object(members)@->Object_0 == members@.map_values(
            |m: Member| MemberTree { name: m.name@, value: m.value@ },
        ),
{
    reveal_with_fuel(Json::tree, 2);
    reveal_with_fuel(Member::tree, 2);
    assert(Json::Array(items)@->Array_0 =~= items@.map_values(|j: Json| j@));
    assert(Json::Object(members)@->Object_0 =~= members@.map_values(
        |m: Member| MemberTree { name: m.name@, value: m.value@ },
    ));
}

/// A number is written in the digits that stand for it.
pub proof fn law_number_is_written_in_its_digits(n: nat)
    ensures
        JsonTree::number(n) is Number,
        numeral(JsonTree::number(n)->Number_0) == n,
        JsonTree::number(n)->Number_0 == decimal(n),
{
    law_decimal_stands_for_its_number(n);
}

/// One level of a parsed value holds what is seen in it, each of its children in
/// its place.
proof fn law_a_level_holds_what_is_seen_in_it(
    b: bool,
    s: String,
    items: Vec<serde_json::Value>,
    members: Vec<(String, serde_json::Value)>,
)
    ensures
        Node::Null.tree() is Null,
        Node::Bool(b).tree() == JsonTree::Bool(b),
        Node::Number(s).tree() == JsonTree::Number(s@),
        Node::Text(s).tree() == JsonTree::Text(s@),
        Node::Array(items).tree() is Array,
        Node::Array(items).tree()->Array_0.len() == items@.len(),
        forall|i: int|
            0 <= i < items@.len() ==> #[trigger] Node::Array(items).tree()->Array_0[i]
                == value_tree(items@[i]),
        Node::Object(members).tree() is Object,
        Node::Object(members).tree()->Object_0.len() == members@.len(),
        forall|i: int|
            0 <= i < members@.len() ==> #[trigger] Node::Object(members).tree()->Object_0[i] == (
            MemberTree { name: members@[i].0@, value: value_tree(members@[i].1) }),
{
}

} // verus!
