//! YAML values, as `serde_yaml` holds them.
use serde_yaml::Value;
use vstd::prelude::*;

verus! {

/// `serde_yaml::Value`, whose contents stay out of sight here.
#[verifier::external_type_specification]
#[verifier::external_body]
pub struct ExYamlValue(serde_yaml::Value);

/// The YAML string that holds `text`.
pub uninterp spec fn yaml_string(text: Seq<char>) -> Value;

/// The YAML number that holds `number`.
pub uninterp spec fn yaml_number(number: u64) -> Value;

/// The YAML boolean that holds `flag`.
pub uninterp spec fn yaml_bool(flag: bool) -> Value;

/// Calls `serde_yaml::to_value` on a string, which never fails: the value is the YAML string of
/// its characters.
#[verifier::external_body]
pub(crate) fn string_value(text: &str) -> (value: Value)
    ensures
        value == yaml_string(text@),
{
    serde_yaml::to_value(text).unwrap()
}

/// Calls `serde_yaml::to_value` on an unsigned integer, which never fails: the value is its YAML
/// number.
#[verifier::external_body]
pub(crate) fn number_value(number: u64) -> (value: Value)
    ensures
        value == yaml_number(number),
{
    serde_yaml::to_value(number).unwrap()
}

/// Calls `serde_yaml::to_value` on a boolean, which never fails: the value is its YAML boolean.
#[verifier::external_body]
pub(crate) fn bool_value(flag: bool) -> (value: Value)
    ensures
        value == yaml_bool(flag),
{
    serde_yaml::to_value(flag).unwrap()
}

} // verus!
