use vstd::prelude::*;

use crate::ctx::Ctx;
use crate::error::Error;
use crate::token::{parse_token, token_claims, valid_token};

verus! {

/// What the context resolver found for one request.
#[derive(Clone, Copy, Debug, PartialEq, Eq, Structural)]
pub enum Resolution {
    Resolved(Ctx),
    NoToken,
    Malformed(Error),
}

/// The context resolver's decision for one request: the resolution to attach
/// to it, and whether the session cookie is to be removed on the response.
#[derive(Clone, Copy, Debug, PartialEq, Eq, Structural)]
pub struct ResolverOutcome {
    pub resolution: Resolution,
    pub remove_cookie: bool,
}

pub open spec fn cookie_view(auth_token: Option<&str>) -> Option<Seq<char>> {
    match auth_token {
        Some(t) => Some(t@),
        None => None,
    }
}

/// The session token `t` names the user `user_id`.
pub open spec fn token_names_user(t: Seq<char>, user_id: u64) -> bool {
    exists|exp: Seq<char>, sig: Seq<char>| #[trigger] token_claims(t, user_id as nat, exp, sig)
}

/// `res` is what the resolver attaches when the session cookie holds `token`.
pub open spec fn resolves(token: Option<Seq<char>>, res: Resolution) -> bool {
    match token {
        None => res == Resolution::NoToken,
        Some(t) => if valid_token(t) {
            match res {
                Resolution::Resolved(c) => token_names_user(t, c.id()),
                _ => false,
            }
        } else {
            res == Resolution::Malformed(Error::AuthFailTokenWrongFormat)
        },
    }
}

/// The session cookie is removed exactly when it is present and malformed.
pub open spec fn clears_cookie(token: Option<Seq<char>>) -> bool {
    match token {
        Some(t) => !valid_token(t),
        None => false,
    }
}

/// What a handler that asks for an identity receives, given what the resolver
/// attached to the request (`None`: nothing was attached).
pub open spec fn extracted(res: Option<Resolution>) -> Result<Ctx, Error> {
    match res {
        None => Err(Error::AuthFailCtxNotInReqExt),
        Some(Resolution::Resolved(c)) => Ok(c),
        Some(Resolution::NoToken) => Err(Error::AuthFailNoAuthTokenCookie),
        Some(Resolution::Malformed(e)) => Err(e),
    }
}

/// Whether the auth guard lets a request through to a protected handler.
pub open spec fn guard_result(res: Option<Resolution>) -> Result<(), Error> {
    match extracted(res) {
        Ok(_) => Ok(()),
        Err(e) => Err(e),
    }
}

/// Resolves the session cookie's value (`None`: no such cookie) into the
/// request's identity. Never rejects: that is left to the auth guard.
pub fn mw_ctx_resolver(auth_token: Option<&str>) -> (r: ResolverOutcome)
    ensures
        resolves(cookie_view(auth_token), r.resolution),
        r.remove_cookie == clears_cookie(cookie_view(auth_token)),
{
    match auth_token {
        None => ResolverOutcome { resolution: Resolution::NoToken, remove_cookie: false },
        Some(token) => match parse_token(token) {
            Ok((user_id, exp, sig)) => {
                let ctx = Ctx::new(user_id);
                proof {
                    assert(token_claims(token@, ctx.id() as nat, exp@, sig@));
                    assert(token_names_user(token@, ctx.id()));
                }
                ResolverOutcome { resolution: Resolution::Resolved(ctx), remove_cookie: false }
            },
            Err(e) => ResolverOutcome { resolution: Resolution::Malformed(e), remove_cookie: true },
        },
    }
}

/// Yields the identity that the resolver attached to the request.
pub fn ctx_from_request(resolution: Option<Resolution>) -> (r: Result<Ctx, Error>)
    ensures
        r == extracted(resolution),
{
    match resolution {
        None => Err(Error::AuthFailCtxNotInReqExt),
        Some(Resolution::Resolved(c)) => Ok(c),
        Some(Resolution::NoToken) => Err(Error::AuthFailNoAuthTokenCookie),
        Some(Resolution::Malformed(e)) => Err(e),
    }
}

/// Lets a request reach a protected handler only when an identity was resolved.
pub fn mw_require_auth(resolution: Option<Resolution>) -> (r: Result<(), Error>)
    ensures
        r == guard_result(resolution),
        r is Ok <==> resolution matches Some(Resolution::Resolved(_)),
{
    match ctx_from_request(resolution) {
        Ok(_) => Ok(()),
        Err(e) => Err(e),
    }
}

/// Without a session cookie the request resolves to no identity, the cookie
/// is left alone, and the auth guard turns the request away for want of a token.
pub proof fn lemma_no_cookie_rejected(res: Resolution)
    requires
        resolves(None, res),
    ensures
        res == Resolution::NoToken,
        !clears_cookie(None),
        guard_result(Some(res)) == Err::<(), Error>(Error::AuthFailNoAuthTokenCookie),
        extracted(Some(res)) == Err::<Ctx, Error>(Error::AuthFailNoAuthTokenCookie),
{
}

/// A malformed session cookie resolves to `Malformed`, is removed on the
/// response, and the auth guard turns the request away; an absent one is not removed.
pub proof fn lemma_malformed_cookie_cleared(t: Seq<char>, res: Resolution)
    requires
        !valid_token(t),
        resolves(Some(t), res),
    ensures
        res == Resolution::Malformed(Error::AuthFailTokenWrongFormat),
        clears_cookie(Some(t)),
        !clears_cookie(None),
        guard_result(Some(res)) == Err::<(), Error>(Error::AuthFailTokenWrongFormat),
{
}

/// A well-formed session cookie resolves to the identity that it names, is
/// kept, and the auth guard lets the request through.
pub proof fn lemma_valid_cookie_admitted(t: Seq<char>, res: Resolution)
    requires
        valid_token(t),
        resolves(Some(t), res),
    ensures
        res matches Resolution::Resolved(c) && token_names_user(t, c.id()),
        !clears_cookie(Some(t)),
        guard_result(Some(res)) is Ok,
{
}

} // verus!
