//! Reading a field of a YAML mapping, done by the `serde_yaml` crate.

use vstd::prelude::*;
use vstd::string::*;

verus! {

/// What a YAML text holds under one key.
#[derive(Debug, Clone)]
pub enum YamlField {
    /// The text is not a YAML mapping.
    Invalid,
    /// The mapping has no such key.
    Missing,
    /// The key holds a string.
    Text(String),
    /// The key holds a sequence; an item that is not a string is `None`.
    List(Vec<Option<String>>),
    /// The key holds something else.
    Other,
}

/// What a `YamlField` holds.
pub enum YamlFieldModel {
    Invalid,
    Missing,
    Text(Seq<char>),
    List(Seq<Option<Seq<char>>>),
    Other,
}

impl View for YamlField {
    type V = YamlFieldModel;

    open spec fn view(&self) -> YamlFieldModel {
        match self {
            YamlField::Invalid => YamlFieldModel::Invalid,
            YamlField::Missing => YamlFieldModel::Missing,
            YamlField::Text(s) => YamlFieldModel::Text(s@),
            YamlField::List(items) => YamlFieldModel::List(items.deep_view()),
            YamlField::Other => YamlFieldModel::Other,
        }
    }
}

/// What `serde_yaml` reads under `key` when `yaml` is parsed as a mapping
/// from strings to values.
pub uninterp spec fn yaml_field(yaml: Seq<char>, key: Seq<char>) -> YamlFieldModel;

/// `serde_yaml::from_str` into a map from strings to values, and the map's
/// `get`: what `yaml` holds under `key`. The result is a function of the two
/// strings alone.
#[verifier::external_body]
pub(crate) fn yaml_lookup(yaml: &str, key: &str) -> (r: YamlField)
    ensures
        r@ == yaml_field(yaml@, key@),
{
    match serde_yaml::from_str::<std::collections::HashMap<String, serde_yaml::Value>>(yaml) {
        Err(_) => YamlField::Invalid,
        Ok(map) => match map.get(key) {
            None => YamlField::Missing,
            Some(serde_yaml::Value::String(s)) => YamlField::Text(s.clone()),
            Some(serde_yaml::Value::Sequence(items)) => YamlField::List(
                items.iter().map(|v| match v {
                    serde_yaml::Value::String(s) => Some(s.clone()),
                    _ => None,
                }).collect(),
            ),
            Some(_) => YamlField::Other,
        },
    }
}

} // verus!
