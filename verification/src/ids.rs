//! Fresh identifiers.

use vstd::prelude::*;

verus! {

/// A fresh random identifier: `uuid::Uuid::new_v4` in its hyphenated text
/// form, which is 36 characters long. Nothing more is promised of the value,
/// which is random.
#[verifier::external_body]
pub(crate) fn new_uuid_v4() -> (r: String)
    ensures
        r@.len() == 36,
{
    uuid::Uuid::new_v4().to_string()
}

} // verus!
