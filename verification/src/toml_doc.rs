//! A TOML document as the configuration reads it: the values the schema looks
//! at, held as plain data. Parsing itself is the `toml` crate's.
use vstd::prelude::*;

verus! {

/// `toml::Value`, carried through the conversion below.
#[verifier::external_type_specification]
#[verifier::external_body]
pub struct ExTomlValue(toml::Value);

/// A TOML value, holding what the configuration schema reads.
#[derive(Debug)]
pub enum TomlValue {
    String(String),
    Integer,
    Float,
    Boolean(bool),
    Datetime,
    Array(Vec<TomlValue>),
    Table(Vec<(String, TomlValue)>),
}

/// A TOML value as text.
pub enum TomlData {
    Str(Seq<char>),
    Integer,
    Float,
    Boolean(bool),
    Datetime,
    Array(Seq<TomlData>),
    Table(Seq<(Seq<char>, TomlData)>),
}

pub open spec fn toml_model(v: TomlValue) -> TomlData
    decreases v,
{
    match v {
        TomlValue::String(s) => TomlData::Str(s@),
        TomlValue::Integer => TomlData::Integer,
        TomlValue::Float => TomlData::Float,
        TomlValue::Boolean(b) => TomlData::Boolean(b),
        TomlValue::Datetime => TomlData::Datetime,
        TomlValue::Array(a) => TomlData::Array(toml_items_model(a@)),
        TomlValue::Table(t) => TomlData::Table(toml_entries_model(t@)),
    }
}

pub open spec fn toml_items_model(vs: Seq<TomlValue>) -> Seq<TomlData>
    decreases vs,
{
    if vs.len() == 0 {
        seq![]
    } else {
        toml_items_model(vs.drop_last()).push(toml_model(vs.last()))
    }
}

pub open spec fn toml_entries_model(es: Seq<(String, TomlValue)>) -> Seq<(Seq<char>, TomlData)>
    decreases es,
{
    if es.len() == 0 {
        seq![]
    } else {
        toml_entries_model(es.drop_last()).push((es.last().0@, toml_model(es.last().1)))
    }
}

pub proof fn lemma_toml_items_model(vs: Seq<TomlValue>)
    ensures
        toml_items_model(vs).len() == vs.len(),
        forall|i: int| 0 <= i < vs.len() ==> #[trigger] toml_items_model(vs)[i] == toml_model(vs[i]),
    decreases vs.len(),
{
    if vs.len() > 0 {
        lemma_toml_items_model(vs.drop_last());
    }
}

pub proof fn lemma_toml_entries_model(es: Seq<(String, TomlValue)>)
    ensures
        toml_entries_model(es).len() == es.len(),
        forall|i: int| 0 <= i < es.len() ==> #[trigger] toml_entries_model(es)[i] == (es[i].0@, toml_model(es[i].1)),
    decreases es.len(),
{
    if es.len() > 0 {
        lemma_toml_entries_model(es.drop_last());
    }
}

/// The top-level table `toml` reads from a document, or its error message.
pub uninterp spec fn toml_document(text: Seq<char>) -> Result<Seq<(Seq<char>, TomlData)>, Seq<char>>;

/// `toml::from_str::<toml::Table>`: the document's top-level table in the
/// table's own (key) order, each value converted one for one, or the parser's
/// error message. The result is a function of the text alone.
#[verifier::external_body]
pub(crate) fn parse_toml_table(text: &str) -> (r: Result<Vec<(String, TomlValue)>, String>)
    ensures
        match toml_document(text@) {
            Ok(t) => r matches Ok(v) && toml_entries_model(v@) == t,
            Err(m) => r matches Err(e) && e@ == m,
        },
{
    match toml::from_str::<toml::Table>(text) {
        Ok(t) => Ok(t.into_iter().map(|(k, v)| (k, toml_value_from(v))).collect()),
        Err(e) => Err(e.to_string()),
    }
}

/// One-for-one conversion of a `toml::Value` into the library's own value,
/// used by `parse_toml_table`; nothing is stated of it on its own.
#[verifier::external_body]
fn toml_value_from(v: toml::Value) -> TomlValue {
    match v {
        toml::Value::String(s) => TomlValue::String(s),
        toml::Value::Integer(_) => TomlValue::Integer,
        toml::Value::Float(_) => TomlValue::Float,
        toml::Value::Boolean(b) => TomlValue::Boolean(b),
        toml::Value::Datetime(_) => TomlValue::Datetime,
        toml::Value::Array(a) => TomlValue::Array(a.into_iter().map(toml_value_from).collect()),
        toml::Value::Table(t) => TomlValue::Table(
            t.into_iter().map(|(k, v)| (k, toml_value_from(v))).collect(),
        ),
    }
}

/// What toml reports when the value under a top-level key of a document is
/// read as a string: `None` when it reads as one (or is not there).
pub uninterp spec fn toml_string_error(text: Seq<char>, key: Seq<char>) -> Option<Seq<char>>;

/// toml's error for reading the value under the top-level `key` of the
/// document `text` as a `String`, shown with the document as its context:
/// the document parsed by `toml::de::DeTable::parse`, the value read through
/// `toml::de::ValueDeserializer` by `String`'s `Deserialize`, and the error
/// given the input by `set_input`. `None` when the document does not parse,
/// holds no such key, or the value reads as a string. The contract names the
/// result as a function of the document and the key and claims nothing more.
#[verifier::external_body]
pub(crate) fn toml_read_string_error(text: &str, key: &str) -> (r: Option<String>)
    ensures
        match r {
            Some(m) => toml_string_error(text@, key@) == Some(m@),
            None => toml_string_error(text@, key@) is None,
        },
{
    let doc = match toml::de::DeTable::parse(text) {
        Ok(d) => d,
        Err(_) => return None,
    };
    let value = match doc.get_ref().get(key) {
        Some(v) => v.clone(),
        None => return None,
    };
    match <String as serde::Deserialize>::deserialize(toml::de::ValueDeserializer::from(value)) {
        Ok(_) => None,
        Err(mut e) => {
            e.set_input(Some(text));
            Some(e.to_string())
        },
    }
}

} // verus!
