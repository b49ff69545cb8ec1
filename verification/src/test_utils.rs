//! A helper for scenario tests: whether a batch of outbound messages holds
//! one of a given shape.

use crate::messages::{msg_tag, same_variant, ServerToClient};
use vstd::prelude::*;

verus! {

/// Whether any message in the batch has the same shape as the given one,
/// payloads aside.
pub fn contains_response_of_type(responses: &Vec<ServerToClient>, variant: &ServerToClient) -> (r:
    bool)
    ensures
        r == exists|i: int|
            0 <= i < responses@.len() && msg_tag(&responses@[i]) == msg_tag(variant),
{
    let mut i: usize = 0;
    while i < responses.len()
        invariant
            i <= responses@.len(),
            forall|j: int| 0 <= j < i ==> msg_tag(&responses@[j]) != msg_tag(variant),
        decreases responses@.len() - i,
    {
        if same_variant(&responses[i], variant) {
            return true;
        }
        i = i + 1;
    }
    false
}

} // verus!
