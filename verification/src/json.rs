//! JSON values as the library reads them.

use crate::text::same_text;
use vstd::prelude::*;

verus! {

/// A JSON value. Numbers are held as the bit pattern of their
/// double-precision value; an object lists each of its keys once.
#[derive(Debug, PartialEq)]
pub enum Json {
    Null,
    Bool(bool),
    Number(Option<u64>),
    Text(String),
    List(Vec<Json>),
    Object(Vec<(String, Json)>),
}

/// The mathematical value of a [`Json`].
pub enum JsonView {
    Null,
    Bool(bool),
    Number(Option<u64>),
    Text(Seq<char>),
    List(Seq<JsonView>),
    Object(Seq<(Seq<char>, JsonView)>),
}

impl Json {
    /// The mathematical value.
    pub open spec fn tree(self) -> JsonView
        decreases self,
    {
        match self {
            Json::Null => JsonView::Null,
            Json::Bool(b) => JsonView::Bool(b),
            Json::Number(n) => JsonView::Number(n),
            Json::Text(s) => JsonView::Text(s@),
            Json::List(items) => JsonView::List(
                Seq::new(
                    items@.len(),
                    |i: int|
                        if 0 <= i < items@.len() {
                            items@[i].tree()
                        } else {
                            arbitrary()
                        },
                ),
            ),
            Json::Object(fields) => JsonView::Object(
                Seq::new(
                    fields@.len(),
                    |i: int|
                        if 0 <= i < fields@.len() {
                            (fields@[i].0@, fields@[i].1.tree())
                        } else {
                            arbitrary()
                        },
                ),
            ),
        }
    }
}

impl View for Json {
    type V = JsonView;

    open spec fn view(&self) -> JsonView {
        self.tree()
    }
}

/// The value of the first of `fields` whose key is `key`.
pub open spec fn lookup(fields: Seq<(Seq<char>, JsonView)>, key: Seq<char>) -> Option<JsonView>
    decreases fields.len(),
{
    if fields.len() == 0 {
        None
    } else if fields[0].0 == key {
        Some(fields[0].1)
    } else {
        lookup(fields.skip(1), key)
    }
}

impl JsonView {
    /// The value under `key`, when this is an object that has it.
    pub open spec fn field(self, key: Seq<char>) -> Option<JsonView> {
        match self {
            JsonView::Object(fields) => lookup(fields, key),
            _ => None,
        }
    }

    /// The text, when this is one.
    pub open spec fn text(self) -> Option<Seq<char>> {
        match self {
            JsonView::Text(s) => Some(s),
            _ => None,
        }
    }

    /// The items, when this is a list.
    pub open spec fn items(self) -> Option<Seq<JsonView>> {
        match self {
            JsonView::List(items) => Some(items),
            _ => None,
        }
    }

    /// The bits of the number, when this is one.
    pub open spec fn number(self) -> Option<u64> {
        match self {
            JsonView::Number(n) => n,
            _ => None,
        }
    }

    /// The text under `key`.
    pub open spec fn text_field(self, key: Seq<char>) -> Option<Seq<char>> {
        match self.field(key) {
            Some(v) => v.text(),
            None => None,
        }
    }

    /// The items of the list under `key`.
    pub open spec fn items_field(self, key: Seq<char>) -> Option<Seq<JsonView>> {
        match self.field(key) {
            Some(v) => v.items(),
            None => None,
        }
    }

    /// The bits of the number under `key`.
    pub open spec fn number_field(self, key: Seq<char>) -> Option<u64> {
        match self.field(key) {
            Some(v) => v.number(),
            None => None,
        }
    }
}

/// The views of a sequence of values.
pub open spec fn json_views(items: Seq<Json>) -> Seq<JsonView> {
    items.map_values(|v: Json| v@)
}

impl Json {
    /// The value under `key`, when this is an object that has it.
    pub fn get(&self, key: &str) -> (r: Option<&Json>)
        ensures
            r is Some == self@.field(key@) is Some,
            r is Some ==> r->0@ == self@.field(key@)->0,
    {
        match self {
            Json::Object(fields) => {
                let ghost all = self@->Object_0;
                let mut i: usize = 0;
                assert(all.skip(0) == all);
                while i < fields.len()
                    invariant
                        i <= fields@.len(),
                        *self == Json::Object(*fields),
                        self@ == JsonView::Object(all),
                        all.len() == fields@.len(),
                        forall|k: int|
                            0 <= k < all.len() ==> #[trigger] all[k] == (
                                fields@[k].0@,
                                fields@[k].1@,
                            ),
                        lookup(all.skip(i as int), key@) == lookup(all, key@),
                    decreases fields@.len() - i,
                {
                    assert(all.skip(i as int)[0] == all[i as int]);
                    if same_text(fields[i].0.as_str(), key) {
                        return Some(&fields[i].1);
                    }
                    assert(all.skip(i as int).skip(1) == all.skip(i + 1));
                    i += 1;
                }
                None
            },
            _ => None,
        }
    }

    /// The text, when this is one.
    pub fn as_text(&self) -> (r: Option<&String>)
        ensures
            r is Some == self@.text() is Some,
            r is Some ==> r->0@ == self@.text()->0,
    {
        match self {
            Json::Text(s) => Some(s),
            _ => None,
        }
    }

    /// The items, when this is a list.
    pub fn as_list(&self) -> (r: Option<&Vec<Json>>)
        ensures
            r is Some == self@.items() is Some,
            r is Some ==> json_views(r->0@) == self@.items()->0,
    {
        match self {
            Json::List(items) => {
                assert(json_views(items@) =~= self@->List_0);
                Some(items)
            },
            _ => None,
        }
    }

    /// The bits of the number, when this is one.
    pub fn as_number(&self) -> (r: Option<u64>)
        ensures
            r == self@.number(),
    {
        match self {
            Json::Number(n) => *n,
            _ => None,
        }
    }

    /// Whether this is an object that has `key`.
    pub fn has_key(&self, key: &str) -> (r: bool)
        ensures
            r == self@.field(key@) is Some,
    {
        self.get(key).is_some()
    }

    /// The text under `key`.
    pub fn text_at(&self, key: &str) -> (r: Option<&String>)
        ensures
            r is Some == self@.text_field(key@) is Some,
            r is Some ==> r->0@ == self@.text_field(key@)->0,
    {
        match self.get(key) {
            Some(v) => v.as_text(),
            None => None,
        }
    }

    /// The items of the list under `key`.
    pub fn list_at(&self, key: &str) -> (r: Option<&Vec<Json>>)
        ensures
            r is Some == self@.items_field(key@) is Some,
            r is Some ==> json_views(r->0@) == self@.items_field(key@)->0,
    {
        match self.get(key) {
            Some(v) => v.as_list(),
            None => None,
        }
    }

    /// The bits of the number under `key`.
    pub fn number_at(&self, key: &str) -> (r: Option<u64>)
        ensures
            r == self@.number_field(key@),
    {
        match self.get(key) {
            Some(v) => v.as_number(),
            None => None,
        }
    }
}

/// The parsed document type of `serde_json`.
#[verifier::external_type_specification]
#[verifier::external_body]
pub struct ExValue(serde_json::Value);

/// What a parsed document holds.
pub uninterp spec fn document_view(value: serde_json::Value) -> JsonView;

/// The document that a text denotes, when the text is well-formed JSON.
pub uninterp spec fn json_document(text: Seq<char>) -> Option<JsonView>;

/// The document that bytes denote, when they are well-formed JSON.
pub uninterp spec fn json_document_in(bytes: Seq<u8>) -> Option<JsonView>;

pub open spec fn json_opt(v: Option<Json>) -> Option<JsonView> {
    match v {
        Some(v) => Some(v@),
        None => None,
    }
}

pub open spec fn document_opt(v: Option<serde_json::Value>) -> Option<JsonView> {
    match v {
        Some(v) => Some(document_view(v)),
        None => None,
    }
}

/// `serde_json::from_str` parses a text into a document, or fails. The
/// contract names what the parsed document holds, which depends on the text
/// alone; it does not say which texts are well-formed.
#[verifier::external_body]
fn document_from_str(text: &str) -> (r: Option<serde_json::Value>)
    ensures
        document_opt(r) == json_document(text@),
{
    serde_json::from_str::<serde_json::Value>(text).ok()
}

/// `serde_json::from_slice` parses bytes into a document, or fails. The
/// contract names what the parsed document holds, which depends on the bytes
/// alone; it does not say which bytes are well-formed.
#[verifier::external_body]
fn document_from_slice(bytes: &[u8]) -> (r: Option<serde_json::Value>)
    ensures
        document_opt(r) == json_document_in(bytes@),
{
    serde_json::from_slice::<serde_json::Value>(bytes).ok()
}

/// The outermost layer of a document.
enum Layer<'a> {
    Null,
    Bool(bool),
    Number(Option<u64>),
    Text(&'a String),
    List(&'a Vec<serde_json::Value>),
    Object(Vec<(&'a String, &'a serde_json::Value)>),
}

impl<'a> Layer<'a> {
    /// Whether this is the outermost layer of a document that holds `view`.
    spec fn shows(self, view: JsonView) -> bool {
        match (self, view) {
            (Layer::Null, JsonView::Null) => true,
            (Layer::Bool(b), JsonView::Bool(c)) => b == c,
            (Layer::Number(n), JsonView::Number(m)) => n == m,
            (Layer::Text(s), JsonView::Text(t)) => s@ == t,
            (Layer::List(v), JsonView::List(items)) => v@.len() == items.len() && forall|i: int|
                0 <= i < items.len() ==> document_view(#[trigger] v@[i]) == items[i],
            (Layer::Object(v), JsonView::Object(fields)) => v@.len() == fields.len() && forall|
                i: int,
            |
                0 <= i < fields.len() ==> fields[i] == (
                    (#[trigger] v@[i]).0@,
                    document_view(*v@[i].1),
                ),
            _ => false,
        }
    }
}

/// Tells the variants of a `serde_json::Value` apart: the number by the bits
/// of `Number::as_f64`, lists and objects in the order in which they iterate.
/// The contract says that the layer is the outermost of what the document
/// holds.
#[verifier::external_body]
fn layer_of(value: &serde_json::Value) -> (r: Layer<'_>)
    ensures
        r.shows(document_view(*value)),
{
    match value {
        serde_json::Value::Null => Layer::Null,
        serde_json::Value::Bool(b) => Layer::Bool(*b),
        serde_json::Value::Number(n) => Layer::Number(n.as_f64().map(|x| x.to_bits())),
        serde_json::Value::String(s) => Layer::Text(s),
        serde_json::Value::Array(items) => Layer::List(items),
        serde_json::Value::Object(fields) => Layer::Object(fields.iter().collect()),
    }
}

/// What a document holds.
fn json_of(value: &serde_json::Value) -> (r: Json)
    ensures
        r@ == document_view(*value),
    decreases document_view(*value),
{
    let ghost whole = document_view(*value);
    match layer_of(value) {
        Layer::Null => Json::Null,
        Layer::Bool(b) => Json::Bool(b),
        Layer::Number(n) => Json::Number(n),
        Layer::Text(s) => Json::Text(s.clone()),
        Layer::List(items) => {
            let mut out: Vec<Json> = Vec::new();
            let mut i: usize = 0;
            while i < items.len()
                invariant
                    i <= items@.len(),
                    out@.len() == i,
                    whole == document_view(*value),
                    Layer::List(items).shows(whole),
                    forall|k: int| 0 <= k < i ==> (#[trigger] out@[k])@ == whole->List_0[k],
                decreases items@.len() - i,
            {
                assert(document_view(items@[i as int]) == whole->List_0[i as int]);
                out.push(json_of(&items[i]));
                i += 1;
            }
            let list = Json::List(out);
            assert(list@->List_0 =~= whole->List_0);
            list
        },
        Layer::Object(fields) => {
            let mut out: Vec<(String, Json)> = Vec::new();
            let mut i: usize = 0;
            while i < fields.len()
                invariant
                    i <= fields@.len(),
                    out@.len() == i,
                    whole == document_view(*value),
                    Layer::Object(fields).shows(whole),
                    forall|k: int|
                        0 <= k < i ==> ((#[trigger] out@[k]).0@, out@[k].1@) == whole->Object_0[k],
                decreases fields@.len() - i,
            {
                let (key, inner) = fields[i];
                assert(whole->Object_0[i as int] == (key@, document_view(*inner)));
                assert(decreases_to!(whole => whole->Object_0[i as int]));
                assert(decreases_to!(whole->Object_0[i as int] => whole->Object_0[i as int].1));
                out.push((key.clone(), json_of(inner)));
                i += 1;
            }
            let object = Json::Object(out);
            assert(object@->Object_0 =~= whole->Object_0);
            object
        },
    }
}

/// Parse a text as JSON.
pub fn parse_json(text: &str) -> (r: Option<Json>)
    ensures
        json_opt(r) == json_document(text@),
{
    match document_from_str(text) {
        Some(value) => Some(json_of(&value)),
        None => None,
    }
}

/// Parse bytes as JSON.
pub fn parse_json_bytes(bytes: &[u8]) -> (r: Option<Json>)
    ensures
        json_opt(r) == json_document_in(bytes@),
{
    match document_from_slice(bytes) {
        Some(value) => Some(json_of(&value)),
        None => None,
    }
}

// ---------------------------------------------------------------------
// Writing
// ---------------------------------------------------------------------

/// Whether lists and objects stand at most `depth` deep in a value.
pub open spec fn nests_within(value: JsonView, depth: nat) -> bool
    decreases depth,
{
    match value {
        JsonView::List(items) => depth > 0 && forall|i: int|
            0 <= i < items.len() ==> nests_within(#[trigger] items[i], (depth - 1) as nat),
        JsonView::Object(fields) => depth > 0 && forall|i: int|
            0 <= i < fields.len() ==> nests_within((#[trigger] fields[i]).1, (depth - 1) as nat),
        _ => true,
    }
}

/// The views of a sequence of keyed documents.
pub open spec fn field_views(v: Seq<(String, serde_json::Value)>) -> Seq<(Seq<char>, JsonView)> {
    v.map_values(|f: (String, serde_json::Value)| (f.0@, document_view(f.1)))
}

/// The views of a sequence of documents.
pub open spec fn document_views(v: Seq<serde_json::Value>) -> Seq<JsonView> {
    v.map_values(|d: serde_json::Value| document_view(d))
}

/// Whether no two fields have the same key.
pub open spec fn distinct_keys(v: Seq<(String, serde_json::Value)>) -> bool {
    forall|i: int, j: int|
        0 <= i < j < v.len() ==> (#[trigger] v[i]).0@ != (#[trigger] v[j]).0@
}

/// Whether `line` can hold `document` as one line: there is no line feed in
/// it, and an object stands between braces.
pub open spec fn on_one_line(line: Seq<char>, document: JsonView) -> bool {
    &&& !line.contains('\n')
    &&& document is Object ==> line.len() >= 2 && line[0] == '{' && line.last() == '}'
}

/// Whether `line` writes `document` as one line: it reads back as that
/// document.
pub open spec fn writes(line: Seq<char>, document: JsonView) -> bool {
    &&& json_document(line) == Some(document)
    &&& on_one_line(line, document)
}

/// `serde_json::Value::String` makes a document of a text.
#[verifier::external_body]
pub(crate) fn text_value(text: &str) -> (r: serde_json::Value)
    ensures
        document_view(r) == JsonView::Text(text@),
{
    serde_json::Value::String(text.to_string())
}

/// `serde_json::Value::Array` makes a document of a list of documents.
#[verifier::external_body]
pub(crate) fn list_value(items: Vec<serde_json::Value>) -> (r: serde_json::Value)
    ensures
        document_view(r) == JsonView::List(document_views(items@)),
{
    serde_json::Value::Array(items)
}

/// Collecting keyed documents into a `serde_json::Value` makes an object that
/// lists them in the same order, given that no key is repeated.
#[verifier::external_body]
pub(crate) fn object_value(fields: Vec<(String, serde_json::Value)>) -> (r: serde_json::Value)
    requires
        distinct_keys(fields@),
    ensures
        document_view(r) == JsonView::Object(field_views(fields@)),
{
    fields.into_iter().collect()
}

/// `serde_json::to_string` writes a document as compact text. It fails on no
/// document, writes no line feed between tokens and escapes those in texts,
/// puts an object between braces, and its parser reads the text back to the
/// same document where lists and objects stand less than 128 deep. The
/// contract claims this; it does not say how the text is spelled.
#[verifier::external_body]
pub(crate) fn document_text(value: &serde_json::Value) -> (r: Option<String>)
    ensures
        r is Some,
        on_one_line(r->0@, document_view(*value)),
        nests_within(document_view(*value), 127) ==> json_document(r->0@) == Some(
            document_view(*value),
        ),
{
    serde_json::to_string(value).ok()
}

} // verus!
