//! Query intent: a request for general knowledge is answered by the model
//! directly; anything else is a retrieval over the store.
use vstd::prelude::*;

use vstd::string::StringSliceAdditionalSpecFns;

use crate::text::{is_prefix_of, lower_bytes, lower_bytes_spec, starts_with_bytes, str_bytes};

verus! {

/// What the user wants from a query.
#[derive(Debug, Clone, Copy, PartialEq, Eq, Structural)]
pub enum Intent {
    /// General help or command knowledge, answered by the model.
    Knowledge,
    /// A search over the user's own history.
    Retrieval,
}

/// The intent of a query: knowledge when its lower-cased form starts with
/// one of the question openers, retrieval otherwise (retrieval is the
/// default, and every temporal marker also means retrieval).
pub open spec fn classify_intent_spec(q: Seq<u8>) -> Intent {
    let l = lower_bytes_spec(q);
    if is_prefix_of(str_bytes("how to"@), l) || is_prefix_of(str_bytes("how do i"@), l)
        || is_prefix_of(str_bytes("command to"@), l) || is_prefix_of(str_bytes("command for"@), l)
        || is_prefix_of(str_bytes("what is the command"@), l) {
        Intent::Knowledge
    } else {
        Intent::Retrieval
    }
}

/// Classify a raw query (see [`classify_intent_spec`]).
pub fn classify_intent(query: &str) -> (r: Intent)
    ensures
        r == classify_intent_spec(query.spec_bytes()),
{
    let l = lower_bytes(query.as_bytes());
    let ls = l.as_slice();
    if starts_with_bytes(ls, "how to".as_bytes()) || starts_with_bytes(ls, "how do i".as_bytes())
        || starts_with_bytes(ls, "command to".as_bytes()) || starts_with_bytes(
        ls,
        "command for".as_bytes(),
    ) || starts_with_bytes(ls, "what is the command".as_bytes()) {
        Intent::Knowledge
    } else {
        Intent::Retrieval
    }
}

} // verus!
