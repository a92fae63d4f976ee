//! The time of day and fresh identifiers. What they are is left to the machine;
//! whatever is done with them takes them as arguments.

use vstd::prelude::*;

verus! {

/// The time in UTC as RFC 3339 text (`chrono::Utc::now` and
/// `DateTime::to_rfc3339`). It depends on the clock: nothing is claimed of it.
#[verifier::external_body]
pub(crate) fn now_rfc3339() -> (res: String)
{
    chrono::Utc::now().to_rfc3339()
}

/// A random identifier in its hyphenated form (`uuid::Uuid::new_v4`). It depends
/// on chance: only its length is claimed.
#[verifier::external_body]
pub(crate) fn fresh_id() -> (res: String)
    ensures
        res@.len() == 36,
{
    uuid::Uuid::new_v4().to_string()
}

/// The sixteen bytes of a random identifier (`uuid::Uuid::new_v4` and
/// `Uuid::as_bytes`). They depend on chance: only their number is claimed.
#[verifier::external_body]
pub(crate) fn fresh_bytes() -> (res: Vec<u8>)
    ensures
        res@.len() == 16,
{
    uuid::Uuid::new_v4().as_bytes().to_vec()
}

} // verus!
