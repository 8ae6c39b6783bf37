//! The machine-readable documents: named fields and lists of rows of named
//! fields, and their text.
use vstd::prelude::*;
use vstd::string::*;

use serde_json::Value as JsonValue;

verus! {

/// The value of a field.
#[derive(Debug)]
pub enum Value {
    Null,
    Bool(bool),
    Count(usize),
    Text(String),
    Texts(Vec<String>),
}

/// What a value holds.
#[verifier::ext_equal]
pub enum ValueView {
    Null,
    Bool(bool),
    Count(nat),
    Text(Seq<char>),
    Texts(Seq<Seq<char>>),
}

impl View for Value {
    type V = ValueView;

    open spec fn view(&self) -> ValueView {
        match *self {
            Value::Null => ValueView::Null,
            Value::Bool(b) => ValueView::Bool(b),
            Value::Count(n) => ValueView::Count(n as nat),
            Value::Text(s) => ValueView::Text(s@),
            Value::Texts(v) => ValueView::Texts(v.deep_view()),
        }
    }
}

/// A named value.
#[derive(Debug)]
pub struct Field {
    pub key: String,
    pub value: Value,
}

/// What a field holds.
#[verifier::ext_equal]
pub struct FieldView {
    pub key: Seq<char>,
    pub value: ValueView,
}

impl View for Field {
    type V = FieldView;

    open spec fn view(&self) -> FieldView {
        FieldView { key: self.key@, value: self.value@ }
    }
}

impl DeepView for Field {
    type V = FieldView;

    open spec fn deep_view(&self) -> FieldView {
        self@
    }
}

/// A named list of rows.
#[derive(Debug)]
pub struct Listing {
    pub key: String,
    pub rows: Vec<Vec<Field>>,
}

/// What a listing holds.
#[verifier::ext_equal]
pub struct ListingView {
    pub key: Seq<char>,
    pub rows: Seq<Seq<FieldView>>,
}

impl View for Listing {
    type V = ListingView;

    open spec fn view(&self) -> ListingView {
        ListingView { key: self.key@, rows: self.rows.deep_view() }
    }
}

impl DeepView for Listing {
    type V = ListingView;

    open spec fn deep_view(&self) -> ListingView {
        self@
    }
}

/// A document: an object with plain fields and with lists of objects.
#[derive(Debug)]
pub struct Document {
    pub fields: Vec<Field>,
    pub lists: Vec<Listing>,
}

/// What a document holds.
#[verifier::ext_equal]
pub struct DocumentView {
    pub fields: Seq<FieldView>,
    pub lists: Seq<ListingView>,
}

impl View for Document {
    type V = DocumentView;

    open spec fn view(&self) -> DocumentView {
        DocumentView { fields: self.fields.deep_view(), lists: self.lists.deep_view() }
    }
}

/// The text that `serde_json::to_string_pretty` makes of a document.
pub uninterp spec fn pretty(doc: DocumentView) -> Seq<char>;

/// `serde_json::to_string_pretty` on the `serde_json::Value` that is the
/// document: an object with each field under its key and each list as an array
/// of objects. Only that the text depends on the document alone is claimed.
#[verifier::external_body]
fn to_string_pretty(doc: &Document) -> (r: String)
    ensures
        r@ == pretty(doc@),
{
    let object = |fields: &Vec<Field>| -> serde_json::Map<String, JsonValue> {
        fields.iter().map(|f| (f.key.clone(), match &f.value {
            Value::Null => JsonValue::Null,
            Value::Bool(b) => JsonValue::from(*b),
            Value::Count(n) => JsonValue::from(*n),
            Value::Text(s) => JsonValue::from(s.as_str()),
            Value::Texts(v) => JsonValue::from(v.clone()),
        })).collect()
    };
    let mut all = object(&doc.fields);
    all.extend(doc.lists.iter().map(|l| (l.key.clone(), l.rows.iter().map(object).collect())));
    serde_json::to_string_pretty(&all).unwrap_or_default()
}

/// The text of a document, laid out over several lines.
pub fn pretty_text(doc: &Document) -> (r: String)
    ensures
        r@ == pretty(doc@),
{
    to_string_pretty(doc)
}

/// The text that `serde_json::to_string` makes of an object with one field.
pub uninterp spec fn compact(key: Seq<char>, value: ValueView) -> Seq<char>;

/// `serde_json::to_string` on the object with one field. Only that the text
/// depends on the field alone is claimed.
#[verifier::external_body]
fn to_string(field: &Field) -> (r: String)
    ensures
        r@ == compact(field@.key, field@.value),
{
    let value = match &field.value {
        Value::Null => JsonValue::Null,
        Value::Bool(b) => JsonValue::from(*b),
        Value::Count(n) => JsonValue::from(*n),
        Value::Text(s) => JsonValue::from(s.as_str()),
        Value::Texts(v) => JsonValue::from(v.clone()),
    };
    let all: JsonValue = std::iter::once((field.key.clone(), value)).collect();
    serde_json::to_string(&all).unwrap_or_default()
}

/// The text of an object with one field, on one line.
pub fn compact_text(field: &Field) -> (r: String)
    ensures
        r@ == compact(field@.key, field@.value),
{
    to_string(field)
}

// ---------------------------------------------------------------------------
// Building documents
// ---------------------------------------------------------------------------

/// A field that holds a text.
pub open spec fn text_view(key: Seq<char>, s: Seq<char>) -> FieldView {
    FieldView { key, value: ValueView::Text(s) }
}

/// A field that holds a truth value.
pub open spec fn bool_view(key: Seq<char>, b: bool) -> FieldView {
    FieldView { key, value: ValueView::Bool(b) }
}

/// A field that holds a count.
pub open spec fn count_view(key: Seq<char>, n: nat) -> FieldView {
    FieldView { key, value: ValueView::Count(n) }
}

/// A field that holds a text, or nothing.
pub open spec fn option_view(key: Seq<char>, s: Option<Seq<char>>) -> FieldView {
    FieldView {
        key,
        value: match s {
            Some(s) => ValueView::Text(s),
            None => ValueView::Null,
        },
    }
}

/// A field that holds a text.
pub fn text_field(key: &str, s: &str) -> (r: Field)
    ensures
        r@ == text_view(key@, s@),
{
    Field { key: key.to_owned(), value: Value::Text(s.to_owned()) }
}

/// A field that holds a truth value.
pub fn bool_field(key: &str, b: bool) -> (r: Field)
    ensures
        r@ == bool_view(key@, b),
{
    Field { key: key.to_owned(), value: Value::Bool(b) }
}

/// A field that holds a count.
pub fn count_field(key: &str, n: usize) -> (r: Field)
    ensures
        r@ == count_view(key@, n as nat),
{
    Field { key: key.to_owned(), value: Value::Count(n) }
}

/// A field that holds a text, or nothing.
pub fn option_field(key: &str, s: &Option<String>) -> (r: Field)
    ensures
        r@ == option_view(key@, s.deep_view()),
{
    Field {
        key: key.to_owned(),
        value: match s {
            Some(s) => Value::Text(s.clone()),
            None => Value::Null,
        },
    }
}

/// A document with plain fields only.
pub open spec fn plain(fields: Seq<FieldView>) -> DocumentView {
    DocumentView { fields, lists: seq![] }
}

/// A document with plain fields only.
pub fn plain_document(fields: Vec<Field>) -> (r: Document)
    ensures
        r@ == plain(fields.deep_view()),
{
    let r = Document { fields, lists: Vec::new() };
    assert(r@.lists =~= Seq::<ListingView>::empty());
    r
}

/// A document with plain fields and one list.
pub open spec fn with_list(
    fields: Seq<FieldView>,
    key: Seq<char>,
    rows: Seq<Seq<FieldView>>,
) -> DocumentView {
    DocumentView { fields, lists: seq![ListingView { key, rows }] }
}

/// A document with plain fields and one list.
pub fn list_document(fields: Vec<Field>, key: &str, rows: Vec<Vec<Field>>) -> (r: Document)
    ensures
        r@ == with_list(fields.deep_view(), key@, rows.deep_view()),
{
    let mut lists: Vec<Listing> = Vec::new();
    lists.push(Listing { key: key.to_owned(), rows });
    let r = Document { fields, lists };
    assert(r@.lists =~= seq![ListingView { key: key@, rows: rows.deep_view() }]);
    r
}

} // verus!
