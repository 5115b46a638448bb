use vstd::prelude::*;

verus! {

/// Every failure the service core can report.
#[derive(Clone, Copy, Debug, PartialEq, Eq, Structural)]
pub enum Error {
    AuthFailNoAuthTokenCookie,
    AuthFailTokenWrongFormat,
    AuthFailCtxNotInReqExt,
    LoginFail,
    TicketDeleteFailIdNotFound { id: u64 },
}

pub type Result<T> = core::result::Result<T, Error>;

impl Error {
    /// Whether this error denies access because no identity could be established.
    pub open spec fn spec_is_auth_fail(&self) -> bool {
        match self {
            Error::AuthFailNoAuthTokenCookie => true,
            Error::AuthFailTokenWrongFormat => true,
            Error::AuthFailCtxNotInReqExt => true,
            _ => false,
        }
    }

    pub fn is_auth_fail(&self) -> (r: bool)
        ensures
            r == self.spec_is_auth_fail(),
    {
        match self {
            Error::AuthFailNoAuthTokenCookie => true,
            Error::AuthFailTokenWrongFormat => true,
            Error::AuthFailCtxNotInReqExt => true,
            _ => false,
        }
    }
}

} // verus!
