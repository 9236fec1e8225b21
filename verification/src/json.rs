//! JSON documents as plain values.
use vstd::prelude::*;

use crate::text::same_text;

verus! {

/// A JSON document.
///
/// A number is held by its JSON text, so that every number a document can hold is carried
/// through unchanged.
pub enum Json {
    Null,
    Bool(bool),
    Number(String),
    Text(String),
    Array(Vec<Json>),
    Object(Vec<(String, Json)>),
}

/// What a [`Json`] document holds.
pub enum JsonView {
    Null,
    Bool(bool),
    Number(Seq<char>),
    Text(Seq<char>),
    Array(Seq<JsonView>),
    Object(Seq<(Seq<char>, JsonView)>),
}

impl Json {
    /// What the document holds.
    pub open spec fn view(&self) -> JsonView
        decreases self,
    {
        match self {
            Json::Null => JsonView::Null,
            Json::Bool(flag) => JsonView::Bool(*flag),
            Json::Number(text) => JsonView::Number(text@),
            Json::Text(text) => JsonView::Text(text@),
            Json::Array(items) => JsonView::Array(
                Seq::new(
                    items@.len(),
                    |i: int|
                        if 0 <= i < items@.len() {
                            items@[i].view()
                        } else {
                            JsonView::Null
                        },
                ),
            ),
            Json::Object(fields) => JsonView::Object(
                Seq::new(
                    fields@.len(),
                    |i: int|
                        if 0 <= i < fields@.len() {
                            (fields@[i].0@, fields@[i].1.view())
                        } else {
                            (seq![], JsonView::Null)
                        },
                ),
            ),
        }
    }
}

/// What a sequence of documents holds.
pub open spec fn item_views(items: Seq<Json>) -> Seq<JsonView> {
    items.map_values(|item: Json| item@)
}

/// What a sequence of object fields holds.
pub open spec fn field_views(fields: Seq<(String, Json)>) -> Seq<(Seq<char>, JsonView)> {
    fields.map_values(|field: (String, Json)| (field.0@, field.1@))
}

/// An array holds its items in order, an object its fields in order.
pub broadcast proof fn lemma_json_view(json: Json)
    ensures
        #![trigger json.view()]
        json matches Json::Array(items) ==> json@ == JsonView::Array(item_views(items@)),
        json matches Json::Object(fields) ==> json@ == JsonView::Object(field_views(fields@)),
{
    match json {
        Json::Array(items) => {
            assert(json@->Array_0 =~= item_views(items@));
        },
        Json::Object(fields) => {
            assert(json@->Object_0 =~= field_views(fields@));
        },
        _ => {},
    }
}

/// The document type of `serde_json`, carried without a look inside.
#[verifier::external_type_specification]
#[verifier::external_body]
pub struct ExValue(serde_json::Value);

/// Names what a document of `serde_json` holds: its scalars, its items in order, and its
/// fields in ascending order of their keys.
pub uninterp spec fn value_contents(value: serde_json::Value) -> JsonView;

/// Names what the document holds that `serde_json::from_str` reads from a text, if it reads one.
pub uninterp spec fn parsed_json(text: Seq<char>) -> Option<JsonView>;

/// Calls `serde_json::from_str` for a `serde_json::Value`.
///
/// Whether a document is read, and what it holds, depends on the text alone; an error of the
/// reader is `None`.
#[verifier::external_body]
fn value_from_str(text: &str) -> (r: Option<serde_json::Value>)
    ensures
        (match r {
            Some(value) => Some(value_contents(value)),
            None => None,
        }) == parsed_json(text@),
{
    serde_json::from_str::<serde_json::Value>(text).ok()
}

/// Takes a `serde_json::Value` apart, variant by variant, into a [`Json`] document.
///
/// The result depends on the document alone; a number becomes the text that `serde_json`
/// writes for it.
#[verifier::external_body]
fn json_from_value(value: serde_json::Value) -> (r: Json)
    ensures
        r@ == value_contents(value),
{
    match value {
        serde_json::Value::Null => Json::Null,
        serde_json::Value::Bool(flag) => Json::Bool(flag),
        serde_json::Value::Number(number) => Json::Number(number.to_string()),
        serde_json::Value::String(text) => Json::Text(text),
        serde_json::Value::Array(items) => {
            Json::Array(items.into_iter().map(json_from_value).collect())
        },
        serde_json::Value::Object(fields) => {
            Json::Object(fields.into_iter().map(|(key, item)| (key, json_from_value(item))).collect())
        },
    }
}

/// Reads a text as a JSON document; `None` where it is none.
pub fn parse_json(text: &str) -> (r: Option<Json>)
    ensures
        r is Some == parsed_json(text@) is Some,
        r is Some ==> r->0@ == parsed_json(text@)->0,
{
    match value_from_str(text) {
        Some(value) => Some(json_from_value(value)),
        None => None,
    }
}

impl JsonView {
    /// The value of the first field of an object with the given key.
    pub open spec fn field(self, key: Seq<char>) -> Option<JsonView> {
        match self {
            JsonView::Object(fields) => first_field(fields, key),
            _ => None,
        }
    }
}

/// The value of the first of `fields` with the given key.
pub open spec fn first_field(fields: Seq<(Seq<char>, JsonView)>, key: Seq<char>) -> Option<JsonView>
    decreases fields.len(),
{
    if fields.len() == 0 {
        None
    } else if fields[0].0 == key {
        Some(fields[0].1)
    } else {
        first_field(fields.drop_first(), key)
    }
}

impl Json {
    /// The value of the first field of an object with the given key.
    pub fn field(&self, key: &str) -> (r: Option<&Json>)
        ensures
            r is Some == self@.field(key@) is Some,
            r is Some ==> r->0@ == self@.field(key@)->0,
    {
        broadcast use lemma_json_view;

        match self {
            Json::Object(fields) => {
                let ghost views = field_views(fields@);
                let mut i: usize = 0;
                assert(views.skip(0) =~= views);
                while i < fields.len()
                    invariant
                        i <= fields.len(),
                        views == field_views(fields@),
                        self@ == JsonView::Object(views),
                        first_field(views, key@) == first_field(views.skip(i as int), key@),
                    decreases fields.len() - i,
                {
                    proof {
                        assert(views.skip(i as int).drop_first() =~= views.skip(i + 1));
                    }
                    if same_text(fields[i].0.as_str(), key) {
                        return Some(&fields[i].1);
                    }
                    i += 1;
                }
                None
            },
            _ => None,
        }
    }

    /// The text that a string document holds.
    pub fn as_text(&self) -> (r: Option<&str>)
        ensures
            r is Some == self@ is Text,
            r is Some ==> r->0@ == self@->Text_0,
    {
        match self {
            Json::Text(text) => Some(text.as_str()),
            _ => None,
        }
    }

    /// The truth value that a boolean document holds.
    pub fn as_bool(&self) -> (r: Option<bool>)
        ensures
            r == (match self@ {
                JsonView::Bool(flag) => Some(flag),
                _ => None,
            }),
    {
        match self {
            Json::Bool(flag) => Some(*flag),
            _ => None,
        }
    }

    /// Whether the document is an array with at least one item.
    pub fn has_entries(&self) -> (r: bool)
        ensures
            r == self@.has_entries(),
    {
        broadcast use lemma_json_view;

        match self {
            Json::Array(items) => items.len() > 0,
            _ => false,
        }
    }
}

impl JsonView {
    /// Whether the document is an array with at least one item.
    pub open spec fn has_entries(self) -> bool {
        self matches JsonView::Array(items) && items.len() > 0
    }
}

impl Clone for Json {
    fn clone(&self) -> (r: Self)
        ensures
            r@ == self@,
    {
        self.copy()
    }
}

impl Json {
    /// A document with the same contents.
    fn copy(&self) -> (r: Self)
        ensures
            r@ == self@,
        decreases self,
    {
        broadcast use lemma_json_view;

        match self {
            Json::Null => Json::Null,
            Json::Bool(flag) => Json::Bool(*flag),
            Json::Number(text) => Json::Number(text.clone()),
            Json::Text(text) => Json::Text(text.clone()),
            Json::Array(items) => {
                let mut copies: Vec<Json> = Vec::new();
                let mut i: usize = 0;
                while i < items.len()
                    invariant
                        i <= items.len(),
                        *self == Json::Array(*items),
                        item_views(copies@) == item_views(items@).take(i as int),
                    decreases items.len() - i,
                {
                    assert(decreases_to!(*self => self->Array_0));
                    let ghost before = copies@;
                    let copy = items[i].copy();
                    copies.push(copy);
                    proof {
                        assert(item_views(copies@) =~= item_views(before).push(items@[i as int]@));
                        assert(item_views(copies@) =~= item_views(items@).take(i + 1));
                    }
                    i += 1;
                }
                assert(item_views(copies@) =~= item_views(items@));
                Json::Array(copies)
            },
            Json::Object(fields) => {
                let mut copies: Vec<(String, Json)> = Vec::new();
                let mut i: usize = 0;
                while i < fields.len()
                    invariant
                        i <= fields.len(),
                        *self == Json::Object(*fields),
                        field_views(copies@) == field_views(fields@).take(i as int),
                    decreases fields.len() - i,
                {
                    assert(decreases_to!(*self => self->Object_0));
                    let ghost before = copies@;
                    let copy = fields[i].1.copy();
                    copies.push((fields[i].0.clone(), copy));
                    proof {
                        assert(field_views(copies@) =~= field_views(before).push(
                            (fields@[i as int].0@, fields@[i as int].1@),
                        ));
                        assert(field_views(copies@) =~= field_views(fields@).take(i + 1));
                    }
                    i += 1;
                }
                assert(field_views(copies@) =~= field_views(fields@));
                Json::Object(copies)
            },
        }
    }
}

/// The field of a document with a key is the value of the first entry with that key; there is
/// none where no entry has the key, or the document is no object.
pub proof fn law_field_is_the_first_with_its_key(document: JsonView, key: Seq<char>)
    ensures
        match document.field(key) {
            Some(value) => document matches JsonView::Object(fields) && exists|i: int|
                {
                    &&& 0 <= i < fields.len()
                    &&& #[trigger] fields[i] == (key, value)
                    &&& forall|j: int| 0 <= j < i ==> (#[trigger] fields[j]).0 != key
                },
            None => document matches JsonView::Object(fields) ==> forall|i: int|
                0 <= i < fields.len() ==> (#[trigger] fields[i]).0 != key,
        },
{
    if let JsonView::Object(fields) = document {
        lemma_first_field(fields, key);
    }
}

proof fn lemma_first_field(fields: Seq<(Seq<char>, JsonView)>, key: Seq<char>)
    ensures
        match first_field(fields, key) {
            Some(value) => exists|i: int|
                {
                    &&& 0 <= i < fields.len()
                    &&& #[trigger] fields[i] == (key, value)
                    &&& forall|j: int| 0 <= j < i ==> (#[trigger] fields[j]).0 != key
                },
            None => forall|i: int| 0 <= i < fields.len() ==> (#[trigger] fields[i]).0 != key,
        },
    decreases fields.len(),
{
    if fields.len() > 0 {
        if fields[0].0 == key {
            assert(fields[0] == (key, fields[0].1));
        } else {
            let rest = fields.drop_first();
            lemma_first_field(rest, key);
            match first_field(rest, key) {
                Some(value) => {
                    let i = choose|i: int|
                        {
                            &&& 0 <= i < rest.len()
                            &&& #[trigger] rest[i] == (key, value)
                            &&& forall|j: int| 0 <= j < i ==> (#[trigger] rest[j]).0 != key
                        };
                    assert(fields[i + 1] == (key, value));
                    assert forall|j: int| 0 <= j < i + 1 implies (#[trigger] fields[j]).0
                        != key by {
                        if j > 0 {
                            assert(rest[j - 1] == fields[j]);
                        }
                    }
                },
                None => {
                    assert forall|i: int| 0 <= i < fields.len() implies (#[trigger] fields[i]).0
                        != key by {
                        if i > 0 {
                            assert(rest[i - 1] == fields[i]);
                        }
                    }
                },
            }
        }
    }
}

/// What a document holds is what it was made of: its scalar, its items or its fields, one for
/// one and in order.
pub proof fn law_documents_hold_what_they_are_made_of(document: Json)
    ensures
        match document {
            Json::Null => document@ == JsonView::Null,
            Json::Bool(flag) => document@ == JsonView::Bool(flag),
            Json::Number(text) => document@ == JsonView::Number(text@),
            Json::Text(text) => document@ == JsonView::Text(text@),
            Json::Array(items) => document@ matches JsonView::Array(views) && views.len()
                == items@.len() && views == item_views(items@) && forall|i: int|
                0 <= i < views.len() ==> #[trigger] views[i] == items@[i]@,
            Json::Object(fields) => document@ matches JsonView::Object(views) && views.len()
                == fields@.len() && views == field_views(fields@) && forall|i: int|
                0 <= i < views.len() ==> #[trigger] views[i] == (fields@[i].0@, fields@[i].1@),
        },
{
    lemma_json_view(document);
}

/// A document has entries exactly when it is an array that is not empty.
pub proof fn law_entries_are_items_of_an_array(document: Json)
    ensures
        document@.has_entries() <==> (document matches Json::Array(items) && items@.len() > 0),
{
    lemma_json_view(document);
}

} // verus!
