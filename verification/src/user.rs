//! The entities that the matcher pairs up.

use vstd::prelude::*;

verus! {

/// A participant: a string identity together with an opinion vector, one
/// integer position per topic. The vector must be non-empty; construction
/// through [`User::new`] rejects an empty one. A `User` is immutable once
/// built and is only read by the matching engine.
#[derive(Debug, Clone)]
pub struct User {
    pub id: String,
    pub opinions: Vec<i32>,
}

impl User {
    /// A well-formed user carries at least one opinion.
    pub open spec fn wf(self) -> bool {
        self.opinions@.len() > 0
    }

    /// Builds a user, rejecting an empty opinion vector.
    pub fn new(id: String, opinions: Vec<i32>) -> (r: Option<User>)
        ensures
            match r {
                Some(u) => opinions@.len() > 0 && u.id@ == id@ && u.opinions@ == opinions@
                    && u.wf(),
                None => opinions@.len() == 0,
            },
    {
        if opinions.len() == 0 {
            None
        } else {
            Some(User { id, opinions })
        }
    }
}

} // verus!
