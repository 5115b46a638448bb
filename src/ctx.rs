use vstd::prelude::*;

verus! {

/// The identity established for one request.
#[derive(Clone, Copy, Debug, PartialEq, Eq, Structural)]
pub struct Ctx {
    user_id: u64,
}

impl Ctx {
    /// The user id this identity carries.
    pub closed spec fn id(&self) -> u64 {
        self.user_id
    }

    pub fn new(user_id: u64) -> (r: Self)
        ensures
            r.id() == user_id,
    {
        Ctx { user_id }
    }

    pub fn user_id(&self) -> (r: u64)
        ensures
            r == self.id(),
    {
        self.user_id
    }
}

} // verus!
