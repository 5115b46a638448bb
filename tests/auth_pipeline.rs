use ticket_auth::auth::{ctx_from_request, mw_ctx_resolver, mw_require_auth, Resolution};
use ticket_auth::{Ctx, Error};

#[test]
fn resolver_without_cookie_yields_no_token() {
    let out = mw_ctx_resolver(None);
    assert_eq!(out.resolution, Resolution::NoToken);
    assert!(!out.remove_cookie);
}

#[test]
fn guard_rejects_request_without_cookie() {
    let out = mw_ctx_resolver(None);
    let r = mw_require_auth(Some(out.resolution));
    assert_eq!(r, Err(Error::AuthFailNoAuthTokenCookie));
    assert!(r.unwrap_err().is_auth_fail());
}

#[test]
fn resolver_malformed_cookie_is_removed() {
    let out = mw_ctx_resolver(Some("bogus"));
    assert_eq!(out.resolution, Resolution::Malformed(Error::AuthFailTokenWrongFormat));
    assert!(out.remove_cookie);
    assert_eq!(mw_require_auth(Some(out.resolution)), Err(Error::AuthFailTokenWrongFormat));
}

#[test]
fn resolver_valid_cookie_resolves_identity() {
    let out = mw_ctx_resolver(Some("user-42.2099-01-01.sig"));
    assert_eq!(out.resolution, Resolution::Resolved(Ctx::new(42)));
    assert!(!out.remove_cookie);
    assert_eq!(mw_require_auth(Some(out.resolution)), Ok(()));
    let ctx = ctx_from_request(Some(out.resolution)).unwrap();
    assert_eq!(ctx.user_id(), 42);
}

#[test]
fn guard_without_resolution_reports_missing_context() {
    assert_eq!(mw_require_auth(None), Err(Error::AuthFailCtxNotInReqExt));
    assert_eq!(ctx_from_request(None), Err(Error::AuthFailCtxNotInReqExt));
}

#[test]
fn extractor_reports_each_resolution() {
    assert_eq!(ctx_from_request(Some(Resolution::Resolved(Ctx::new(3)))), Ok(Ctx::new(3)));
    assert_eq!(
        ctx_from_request(Some(Resolution::NoToken)),
        Err(Error::AuthFailNoAuthTokenCookie)
    );
    assert_eq!(
        ctx_from_request(Some(Resolution::Malformed(Error::AuthFailTokenWrongFormat))),
        Err(Error::AuthFailTokenWrongFormat)
    );
}

#[test]
fn auth_fail_errors_are_told_apart() {
    assert!(Error::AuthFailNoAuthTokenCookie.is_auth_fail());
    assert!(Error::AuthFailTokenWrongFormat.is_auth_fail());
    assert!(Error::AuthFailCtxNotInReqExt.is_auth_fail());
    assert!(!Error::LoginFail.is_auth_fail());
    assert!(!Error::TicketDeleteFailIdNotFound { id: 0 }.is_auth_fail());
}
