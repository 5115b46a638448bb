use ticket_auth::token::parse_token;
use ticket_auth::Error;

fn parsed(token: &str) -> (u64, String, String) {
    match parse_token(token) {
        Ok(parts) => parts,
        Err(e) => panic!("{token:?} was refused: {e:?}"),
    }
}

#[test]
fn parse_token_reads_all_three_fields() {
    let (id, exp, sig) = parsed("user-42.2099-01-01.sig");
    assert_eq!(id, 42);
    assert_eq!(exp, "2099-01-01");
    assert_eq!(sig, "sig");
}

#[test]
fn parse_token_rejects_bogus_text() {
    assert_eq!(parse_token("bogus"), Err(Error::AuthFailTokenWrongFormat));
    assert_eq!(parse_token(""), Err(Error::AuthFailTokenWrongFormat));
    assert_eq!(parse_token("user"), Err(Error::AuthFailTokenWrongFormat));
    assert_eq!(parse_token("User-1.a.b"), Err(Error::AuthFailTokenWrongFormat));
    assert_eq!(parse_token(" user-1.a.b"), Err(Error::AuthFailTokenWrongFormat));
}

#[test]
fn parse_token_needs_digits() {
    assert_eq!(parse_token("user-.a.b"), Err(Error::AuthFailTokenWrongFormat));
    assert_eq!(parse_token("user-12a.b.c"), Err(Error::AuthFailTokenWrongFormat));
    assert_eq!(parse_token("user--1.a.b"), Err(Error::AuthFailTokenWrongFormat));
    assert_eq!(parse_token("user-+1.a.b"), Err(Error::AuthFailTokenWrongFormat));
    assert_eq!(parse_token("user-\u{0663}.a.b"), Err(Error::AuthFailTokenWrongFormat));
}

#[test]
fn parse_token_needs_two_nonempty_fields() {
    assert_eq!(parse_token("user-1"), Err(Error::AuthFailTokenWrongFormat));
    assert_eq!(parse_token("user-1."), Err(Error::AuthFailTokenWrongFormat));
    assert_eq!(parse_token("user-1.a"), Err(Error::AuthFailTokenWrongFormat));
    assert_eq!(parse_token("user-1.a."), Err(Error::AuthFailTokenWrongFormat));
    assert_eq!(parse_token("user-1..b"), Err(Error::AuthFailTokenWrongFormat));
    assert_eq!(parse_token("user-1.ab"), Err(Error::AuthFailTokenWrongFormat));
}

#[test]
fn parse_token_splits_at_last_usable_dot() {
    assert_eq!(parsed("user-1.a.b.c"), (1, "a.b".to_string(), "c".to_string()));
    assert_eq!(parsed("user-1.a.."), (1, "a".to_string(), ".".to_string()));
    assert_eq!(parsed("user-1...."), (1, ".".to_string(), ".".to_string()));
    assert_eq!(parse_token("user-1..."), Err(Error::AuthFailTokenWrongFormat));
    assert_eq!(parsed("user-1.a.b."), (1, "a".to_string(), "b.".to_string()));
}

#[test]
fn parse_token_stops_at_line_feed() {
    assert_eq!(parsed("user-7.a.b\nrest.of.it"), (7, "a".to_string(), "b".to_string()));
    assert_eq!(parse_token("user-7.a\n.b"), Err(Error::AuthFailTokenWrongFormat));
    assert_eq!(parse_token("user-7.\na.b"), Err(Error::AuthFailTokenWrongFormat));
}

#[test]
fn parse_token_user_id_limits() {
    assert_eq!(parsed("user-0.x.y").0, 0);
    assert_eq!(parsed("user-007.x.y").0, 7);
    assert_eq!(parsed("user-18446744073709551615.x.y").0, u64::MAX);
    assert_eq!(
        parse_token("user-18446744073709551616.x.y"),
        Err(Error::AuthFailTokenWrongFormat)
    );
    assert_eq!(
        parse_token("user-99999999999999999999999.x.y"),
        Err(Error::AuthFailTokenWrongFormat)
    );
}

#[test]
fn parse_token_keeps_non_ascii_fields() {
    assert_eq!(parsed("user-5.\u{e9}t\u{e9}.\u{fc}"), (5, "\u{e9}t\u{e9}".to_string(), "\u{fc}".to_string()));
}

#[test]
fn parse_token_user_id_is_digit_value() {
    for n in [1u64, 9, 10, 123, 4_294_967_296, 1_000_000_007] {
        let token = format!("user-{n}.exp.sig");
        assert_eq!(parsed(&token).0, n);
    }
}
