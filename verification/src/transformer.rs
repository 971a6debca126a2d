//! Decode the sentinel tokens Moodle's backup_xml_transformer writes into
//! backup XML so the rest of the validator can treat values as plain text.

use vstd::prelude::*;
use crate::text::{chars_eq_str, chars_of};

verus! {

/// Moodle's NULL sentinel. backup_xml_transformer::process() emits this for
/// PHP null values; it is treated as null when checking NOT NULL constraints.
pub const NULL_SENTINEL: &'static str = "$@NULL@$";

/// Sentinels that stand in for absolute-URL fragments. They are stored
/// literally in the XML and on the target site at restore time; for length
/// validation they are measured as written.
pub const URL_SENTINELS: [&'static str; 4] = ["$@FILEPHP@$", "$@SLASH@$", "$@H5PEMBED@$", "$@FORCEDOWNLOAD@$"];

/// None for the NULL sentinel, otherwise the value itself.
pub open spec fn null_decoded(raw: Seq<char>) -> Option<Seq<char>> {
    if raw == NULL_SENTINEL@ {
        None
    } else {
        Some(raw)
    }
}

/// Returns Some(text) for a non-null value, or None if the value is the NULL
/// sentinel. Empty strings stay as Some("").
pub fn decode_null(raw: &str) -> (r: Option<&str>)
    ensures
        match r {
            Some(s) => s@ == raw@ && null_decoded(raw@) == Some(raw@),
            None => null_decoded(raw@) is None,
        },
{
    let c = chars_of(raw);
    if chars_eq_str(c.as_slice(), NULL_SENTINEL) {
        None
    } else {
        Some(raw)
    }
}

/// Character length (char count) of a value as it will land in the DB
/// column. Sentinels are counted by their literal character count.
pub fn char_len(raw: &str) -> (n: usize)
    ensures
        n == raw@.len(),
{
    raw.unicode_len()
}

} // verus!
