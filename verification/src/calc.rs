//! Finding the category of an entry.

use crate::record::Record;
use crate::text::{trim, trimmed};
use crate::utils::lookup::Lookup;
use vstd::prelude::*;

verus! {

/// The category that the dictionary has for the description of the entry.
/// Where it has none, the category has to be asked for.
pub fn get_category(record: &Record, lookup: &Lookup) -> (r: Option<String>)
    ensures
        match r {
            Some(category) => lookup@.contains_key(record@.description) && category@
                == lookup@[record@.description],
            None => !lookup@.contains_key(record@.description),
        },
{
    match lookup.get(record.description()) {
        Some(category) => Some(category.clone()),
        None => None,
    }
}

/// The category that was answered when it was asked for: the answer without
/// the white space around it.
pub fn answered_category(answer: &str) -> (r: String)
    ensures
        r@ == trimmed(answer@),
{
    trim(answer)
}

} // verus!
