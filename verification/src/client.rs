//! The connection of one client.

pub mod json;

use vstd::prelude::*;

verus! {

/// A type without values: nothing can build one.
pub struct Never {
    never: bool,
}

impl Never {
    #[verifier::type_invariant]
    spec fn no_value(self) -> bool {
        false
    }
}

/// What a client may ask for over its connection. No request is defined yet:
/// the one variant holds the place of the requests to come and cannot be
/// built, so no document that a client sends decodes into a request.
pub enum ClientMessage {
    Undefined(Never),
}

} // verus!
