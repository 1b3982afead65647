//! Fresh identifiers for groups, members and transactions.

use vstd::prelude::*;

verus! {

/// `Uuid::new_v4()`, written out as text. The identifier is random, so
/// nothing is stated of it.
#[verifier::external_body]
pub(crate) fn fresh_uuid() -> String {
    uuid::Uuid::new_v4().to_string()
}

} // verus!
