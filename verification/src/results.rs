//! Storing a verified result: the first stored result of a day wins.

use crate::text::str_eq;
use vstd::prelude::*;
use vstd::string::StringExecFns;

verus! {

/// What to do with a verified result, given what is stored for its day.
#[derive(PartialEq, Eq, Structural, Debug, Clone, Copy)]
pub enum StoreAction {
    /// Nothing stored yet: store it (201).
    Insert,
    /// The same result is stored: nothing to do (200).
    Existing,
    /// A different result is stored: refuse (409).
    Conflict,
}

/// The text serde_json writes (by `Display`) for the JSON value it reads
/// from `text`, or `None` where `text` holds no JSON value.
pub uninterp spec fn json_text(text: Seq<char>) -> Option<Seq<char>>;

/// `serde_json::from_str::<Value>`, the value read written back by its
/// `Display`. Trusted: the result is `json_text` of the text, a function of
/// the text alone; neither the grammar nor the written form is stated.
#[verifier::external_body]
fn rewrite_json(text: &str) -> (res: Option<String>)
    ensures
        match res {
            Some(t) => json_text(text@) == Some(t@),
            None => json_text(text@) is None,
        },
{
    match serde_json::from_str::<serde_json::Value>(text) {
        Ok(v) => Some(v.to_string()),
        Err(_) => None,
    }
}

/// The stored value as serde_json writes it; a stored text that holds no
/// JSON value counts as `null`.
pub open spec fn stored_value_text(stored: Seq<char>) -> Seq<char> {
    match json_text(stored) {
        Some(t) => t,
        None => "null"@,
    }
}

/// The first write wins: the same value again is fine, a different one
/// conflicts. `payload` is the text serde_json writes for the new value;
/// the stored text is read back as JSON, so its layout does not matter.
pub fn store_action(existing: Option<&str>, payload: &str) -> (res: StoreAction)
    ensures
        existing is None ==> res == StoreAction::Insert,
        existing matches Some(s) ==> ((res == StoreAction::Existing) <==> stored_value_text(s@)
            == payload@),
        existing matches Some(s) ==> ((res == StoreAction::Conflict) <==> stored_value_text(s@)
            != payload@),
{
    match existing {
        None => StoreAction::Insert,
        Some(s) => {
            let stored = match rewrite_json(s) {
                Some(t) => t,
                None => String::from_str("null"),
            };
            if str_eq(stored.as_str(), payload) {
                StoreAction::Existing
            } else {
                StoreAction::Conflict
            }
        },
    }
}

} // verus!
