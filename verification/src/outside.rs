//! Trusted boundary to the outside crates: id generation through `uuid`,
//! the random draw for room names through `rand`, and the opaque JSON
//! payload type of `serde_json`.

use vstd::prelude::*;

verus! {

#[verifier::external_type_specification]
#[verifier::external_body]
pub struct ExValue(serde_json::Value);

/// Relies on serde_json::Value::clone: the derived deep clone returns a
/// value equal to its input.
pub assume_specification[ <serde_json::Value as Clone>::clone ](v: &serde_json::Value) -> (r:
    serde_json::Value)
    ensures
        r == *v,
;

/// Relies on serde_json::Value::default, which returns `Value::Null`.
/// No contract is stated: the library only stores the value.
#[verifier::external_body]
pub fn default_value() -> serde_json::Value {
    serde_json::Value::default()
}

/// Relies on uuid::Uuid::now_v7 and uuid::Uuid::as_u128: a version 7 UUID
/// has its version nibble equal to 7 and its variant bits equal to `10`,
/// so as a 128-bit integer it is neither zero nor all-ones. Nothing more
/// is assumed: the value depends on the clock and on random bytes.
#[verifier::external_body]
pub fn fresh_id() -> (r: u128)
    ensures
        0 < r < u128::MAX,
{
    uuid::Uuid::now_v7().as_u128()
}

/// Relies on rand::random_range over `0..1000000`: the sample lies in the
/// given half-open range. Nothing more is assumed of the value.
#[verifier::external_body]
pub fn draw_name_number() -> (r: u64)
    ensures
        r < 1000000,
{
    rand::random_range(0u64..1000000u64)
}

} // verus!
