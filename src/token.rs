use vstd::prelude::*;
use vstd::string::*;

use crate::error::Error;

verus! {

pub open spec fn is_ascii_digit(c: char) -> bool {
    '0' <= c && c <= '9'
}

pub open spec fn all_digits(s: Seq<char>) -> bool {
    forall|i: int| 0 <= i < s.len() ==> is_ascii_digit(#[trigger] s[i])
}

pub open spec fn no_line_feed(s: Seq<char>) -> bool {
    forall|i: int| 0 <= i < s.len() ==> #[trigger] s[i] != '\n'
}

pub open spec fn digit_value(c: char) -> nat {
    ((c as u32) - ('0' as u32)) as nat
}

/// The number that a string of decimal digits denotes.
pub open spec fn digits_value(s: Seq<char>) -> nat
    decreases s.len(),
{
    if s.len() == 0 {
        0
    } else {
        digits_value(s.drop_last()) * 10 + digit_value(s.last())
    }
}

/// The literal text that opens every session token.
pub open spec fn token_prefix() -> Seq<char> {
    seq!['u', 's', 'e', 'r', '-']
}

/// `exp` and `sig` are the two fields read from `rest`, the text after the
/// user id's dot: the first line of `rest` is `exp`, a dot and `sig`, both
/// non-empty, where that dot is the last one that leaves `sig` non-empty.
pub open spec fn splits_fields(rest: Seq<char>, exp: Seq<char>, sig: Seq<char>) -> bool {
    let n = exp.len() as int + 1 + sig.len() as int;
    &&& exp.len() > 0
    &&& sig.len() > 0
    &&& n <= rest.len()
    &&& rest.take(n as int) == exp + seq!['.'] + sig
    &&& no_line_feed(rest.take(n as int))
    &&& (n == rest.len() || rest[n as int] == '\n')
    &&& forall|j: int| 0 <= j < sig.len() - 1 ==> #[trigger] sig[j] != '.'
}

/// `t` reads `user-<digits>.<exp>.<sig>`, the last field ending the first line.
pub open spec fn token_shape(t: Seq<char>, digits: Seq<char>, exp: Seq<char>, sig: Seq<char>) -> bool {
    let d = 5 + digits.len() as int;
    &&& digits.len() > 0
    &&& all_digits(digits)
    &&& d < t.len()
    &&& t.take(5) == token_prefix()
    &&& t.subrange(5, d as int) == digits
    &&& t[d as int] == '.'
    &&& splits_fields(t.skip(d + 1), exp, sig)
}

/// `t` is a session token that names `user_id` and carries `exp` and `sig`.
pub open spec fn token_claims(t: Seq<char>, user_id: nat, exp: Seq<char>, sig: Seq<char>) -> bool {
    exists|digits: Seq<char>| #[trigger]
        token_shape(t, digits, exp, sig) && digits_value(digits) == user_id
}

/// `t` has the shape of a session token and its user id fits in a `u64`.
pub open spec fn valid_token(t: Seq<char>) -> bool {
    exists|digits: Seq<char>, exp: Seq<char>, sig: Seq<char>| #[trigger]
        token_shape(t, digits, exp, sig) && digits_value(digits) <= u64::MAX
}

pub proof fn lemma_digits_value_prefix(s: Seq<char>, k: int)
    requires
        0 <= k <= s.len(),
    ensures
        digits_value(s.take(k)) <= digits_value(s),
    decreases s.len(),
{
    if k < s.len() {
        assert(s.drop_last().take(k) =~= s.take(k));
        lemma_digits_value_prefix(s.drop_last(), k);
    } else {
        assert(s.take(k) =~= s);
    }
}

/// A token's digits are the whole run of digits after the prefix.
proof fn lemma_digits_end(t: Seq<char>, d: int, digits: Seq<char>, exp: Seq<char>, sig: Seq<char>)
    requires
        5 <= d <= t.len(),
        forall|j: int| 5 <= j < d ==> is_ascii_digit(#[trigger] t[j]),
        d == t.len() || !is_ascii_digit(t[d]),
        token_shape(t, digits, exp, sig),
    ensures
        5 + digits.len() == d,
        digits == t.subrange(5, d),
{
    let e = 5 + digits.len() as int;
    if e < d {
        assert(is_ascii_digit(t[e]));
    } else if e > d {
        assert(t.subrange(5, e)[d - 5] == t[d]);
        assert(is_ascii_digit(digits[d - 5]));
    }
}

/// A token's fields fill the first line after the digits' dot.
proof fn lemma_line_end(t: Seq<char>, start: int, e: int, exp: Seq<char>, sig: Seq<char>)
    requires
        0 <= start <= e <= t.len(),
        forall|j: int| start <= j < e ==> #[trigger] t[j] != '\n',
        e == t.len() || t[e] == '\n',
        splits_fields(t.skip(start), exp, sig),
    ensures
        exp.len() + 1 + sig.len() == e - start,
{
    let rest = t.skip(start);
    let n = exp.len() as int + 1 + sig.len() as int;
    if n < e - start {
        assert(rest[n as int] == t[start + n]);
    } else if n > e - start {
        assert(rest.take(n as int)[e - start] == t[e]);
    }
}

/// Two readings of one token agree.
pub proof fn lemma_token_shape_unique(
    t: Seq<char>,
    d1: Seq<char>,
    e1: Seq<char>,
    s1: Seq<char>,
    d2: Seq<char>,
    e2: Seq<char>,
    s2: Seq<char>,
)
    requires
        token_shape(t, d1, e1, s1),
        token_shape(t, d2, e2, s2),
    ensures
        d1 == d2,
        e1 == e2,
        s1 == s2,
{
    let a = 5 + d1.len() as int;
    let b = 5 + d2.len() as int;
    if a < b {
        assert(t.subrange(5, b)[a - 5] == t[a]);
        assert(is_ascii_digit(d2[a - 5]));
    } else if b < a {
        assert(t.subrange(5, a)[b - 5] == t[b]);
        assert(is_ascii_digit(d1[b - 5]));
    }
    let rest = t.skip(a + 1);
    let n1 = e1.len() as int + 1 + s1.len() as int;
    let n2 = e2.len() as int + 1 + s2.len() as int;
    if n1 < n2 {
        assert(rest.take(n2 as int)[n1 as int] == rest[n1 as int]);
    } else if n2 < n1 {
        assert(rest.take(n1 as int)[n2 as int] == rest[n2 as int]);
    }
    let line = rest.take(n1 as int);
    let k1 = e1.len() as int;
    let k2 = e2.len() as int;
    assert(line == e1 + seq!['.'] + s1);
    assert(line == e2 + seq!['.'] + s2);
    assert(line[k1] == '.');
    assert(line[k2] == '.');
    if k1 < k2 {
        assert(s1[k2 - k1 - 1] == line[k2]);
    } else if k2 < k1 {
        assert(s2[k1 - k2 - 1] == line[k1]);
    }
    assert(e1 =~= line.take(k1));
    assert(e2 =~= line.take(k1));
    assert(s1 =~= line.skip(k1 + 1));
    assert(s2 =~= line.skip(k1 + 1));
}

/// Some dot of `line` that leaves both sides non-empty is followed by no other such dot.
proof fn lemma_last_dot(line: Seq<char>, k: int) -> (last: int)
    requires
        1 <= k <= line.len() - 2,
        line[k] == '.',
    ensures
        k <= last <= line.len() - 2,
        line[last] == '.',
        forall|j: int| last < j <= line.len() - 2 ==> #[trigger] line[j] != '.',
    decreases line.len() - k,
{
    if exists|j: int| k < j <= line.len() - 2 && #[trigger] line[j] == '.' {
        let j = choose|j: int| k < j <= line.len() - 2 && #[trigger] line[j] == '.';
        lemma_last_dot(line, j)
    } else {
        k
    }
}

/// Every text `user-<digits>.<a>.<b>` whose user id fits in a `u64`, and whose
/// fields hold no line feed, is a valid session token naming that user id.
pub proof fn lemma_token_names_its_digits(digits: Seq<char>, a: Seq<char>, b: Seq<char>)
    requires
        digits.len() > 0,
        all_digits(digits),
        digits_value(digits) <= u64::MAX,
        a.len() > 0,
        b.len() > 0,
        no_line_feed(a),
        no_line_feed(b),
    ensures
        valid_token(token_prefix() + digits + seq!['.'] + a + seq!['.'] + b),
        forall|user_id: nat, exp: Seq<char>, sig: Seq<char>|
            #[trigger] token_claims(
                token_prefix() + digits + seq!['.'] + a + seq!['.'] + b,
                user_id,
                exp,
                sig,
            ) ==> user_id == digits_value(digits),
{
    let t = token_prefix() + digits + seq!['.'] + a + seq!['.'] + b;
    let line = a + seq!['.'] + b;
    let d = 5 + digits.len() as int;
    let k = lemma_last_dot(line, a.len() as int);
    let exp = line.take(k);
    let sig = line.skip(k + 1);
    assert(t.take(5) =~= token_prefix());
    assert(t.subrange(5, d) =~= digits);
    assert(t[d] == '.');
    assert(t.skip(d + 1) =~= line);
    assert(line.take(line.len() as int) =~= exp + seq!['.'] + sig);
    assert(no_line_feed(line.take(line.len() as int))) by {
        assert forall|i: int| 0 <= i < line.len() implies #[trigger] line[i] != '\n' by {
            if i < a.len() {
                assert(line[i] == a[i]);
            } else if i > a.len() {
                assert(line[i] == b[i - a.len() - 1]);
            }
        }
    }
    assert forall|j: int| 0 <= j < sig.len() - 1 implies #[trigger] sig[j] != '.' by {
        assert(sig[j] == line[k + 1 + j]);
    }
    assert(splits_fields(t.skip(d + 1), exp, sig));
    assert(token_shape(t, digits, exp, sig));
    assert forall|user_id: nat, e: Seq<char>, s: Seq<char>|
        #[trigger] token_claims(t, user_id, e, s) implies user_id == digits_value(digits) by {
        let dg = choose|dg: Seq<char>| #[trigger]
            token_shape(t, dg, e, s) && digits_value(dg) == user_id;
        lemma_token_shape_unique(t, dg, e, s, digits, exp, sig);
    }
}

fn is_digit(c: char) -> (r: bool)
    ensures
        r == is_ascii_digit(c),
{
    '0' <= c && c <= '9'
}

fn has_token_prefix(token: &str, n: usize) -> (r: bool)
    requires
        n == token@.len(),
    ensures
        r == (n >= 5 && token@.take(5) == token_prefix()),
{
    if n < 5 {
        return false;
    }
    let r = token.get_char(0) == 'u' && token.get_char(1) == 's' && token.get_char(2) == 'e'
        && token.get_char(3) == 'r' && token.get_char(4) == '-';
    proof {
        let p = token_prefix();
        assert(p[0] == 'u' && p[1] == 's' && p[2] == 'e' && p[3] == 'r' && p[4] == '-');
        if r {
            assert(token@.take(5) =~= p);
        } else if token@.take(5) == p {
            assert(token@.take(5)[0] == token@[0]);
            assert(token@.take(5)[1] == token@[1]);
            assert(token@.take(5)[2] == token@[2]);
            assert(token@.take(5)[3] == token@[3]);
            assert(token@.take(5)[4] == token@[4]);
        }
    }
    r
}

/// Reads a session token of the form `user-<digits>.<expiration>.<signature>`
/// into its user id, expiration and signature. Only the shape is checked.
pub fn parse_token(token: &str) -> (r: Result<(u64, String, String), Error>)
    ensures
        r is Ok <==> valid_token(token@),
        match r {
            Ok((user_id, exp, sig)) => token_claims(token@, user_id as nat, exp@, sig@),
            Err(e) => e == Error::AuthFailTokenWrongFormat,
        },
{
    let ghost t = token@;
    let n = token.unicode_len();
    if !has_token_prefix(token, n) {
        proof {
            assert forall|dg: Seq<char>, ex: Seq<char>, sg: Seq<char>|
                !#[trigger] token_shape(t, dg, ex, sg) by {}
        }
        return Err(Error::AuthFailTokenWrongFormat);
    }
    let mut d: usize = 5;
    while d < n && is_digit(token.get_char(d))
        invariant
            5 <= d <= n,
            n == t.len(),
            t == token@,
            forall|j: int| 5 <= j < d ==> is_ascii_digit(#[trigger] t[j]),
        decreases n - d,
    {
        d = d + 1;
    }
    if d == 5 || d >= n || token.get_char(d) != '.' {
        proof {
            assert forall|dg: Seq<char>, ex: Seq<char>, sg: Seq<char>|
                !#[trigger] token_shape(t, dg, ex, sg) by {
                if token_shape(t, dg, ex, sg) {
                    lemma_digits_end(t, d as int, dg, ex, sg);
                }
            }
        }
        return Err(Error::AuthFailTokenWrongFormat);
    }
    let mut value: u64 = 0;
    let mut j: usize = 5;
    while j < d
        invariant
            5 <= j <= d < n,
            n == t.len(),
            t[d as int] == '.',
            t == token@,
            forall|i: int| 5 <= i < d ==> is_ascii_digit(#[trigger] t[i]),
            value as nat == digits_value(t.subrange(5, j as int)),
        decreases d - j,
    {
        let c = token.get_char(j);
        let dig = (c as u32 - '0' as u32) as u64;
        proof {
            assert(is_ascii_digit(t[j as int]));
            assert(t.subrange(5, j + 1).drop_last() =~= t.subrange(5, j as int));
        }
        if value > (u64::MAX - dig) / 10 {
            proof {
                assert(value * 10 + dig > u64::MAX) by (nonlinear_arith)
                    requires
                        value > (u64::MAX - dig) / 10,
                        dig <= 9,
                ;
                assert(t.subrange(5, d as int).take(j + 1 - 5) =~= t.subrange(5, j + 1));
                lemma_digits_value_prefix(t.subrange(5, d as int), j + 1 - 5);
                assert forall|dg: Seq<char>, ex: Seq<char>, sg: Seq<char>|
                    #[trigger] token_shape(t, dg, ex, sg) implies digits_value(dg) > u64::MAX by {
                    lemma_digits_end(t, d as int, dg, ex, sg);
                }
            }
            return Err(Error::AuthFailTokenWrongFormat);
        }
        proof {
            assert(value * 10 + dig <= u64::MAX) by (nonlinear_arith)
                requires
                    value <= (u64::MAX - dig) / 10,
                    dig <= 9,
            ;
        }
        value = value * 10 + dig;
        j = j + 1;
    }
    let start = d + 1;
    let mut e: usize = start;
    while e < n && token.get_char(e) != '\n'
        invariant
            start <= e <= n,
            n == t.len(),
            t == token@,
            forall|i: int| start <= i < e ==> #[trigger] t[i] != '\n',
        decreases n - e,
    {
        e = e + 1;
    }
    if e - start < 3 {
        proof {
            assert forall|dg: Seq<char>, ex: Seq<char>, sg: Seq<char>|
                !#[trigger] token_shape(t, dg, ex, sg) by {
                if token_shape(t, dg, ex, sg) {
                    lemma_digits_end(t, d as int, dg, ex, sg);
                    lemma_line_end(t, start as int, e as int, ex, sg);
                }
            }
        }
        return Err(Error::AuthFailTokenWrongFormat);
    }
    let mut p: usize = e - 2;
    while p > start && token.get_char(p) != '.'
        invariant
            start <= p <= e - 2,
            e <= n,
            n == t.len(),
            t == token@,
            forall|i: int| p < i <= e - 2 ==> #[trigger] t[i] != '.',
        decreases p,
    {
        p = p - 1;
    }
    if p == start {
        proof {
            assert forall|dg: Seq<char>, ex: Seq<char>, sg: Seq<char>|
                !#[trigger] token_shape(t, dg, ex, sg) by {
                if token_shape(t, dg, ex, sg) {
                    lemma_digits_end(t, d as int, dg, ex, sg);
                    lemma_line_end(t, start as int, e as int, ex, sg);
                    let rest = t.skip(start as int);
                    let k = ex.len() as int;
                    assert((ex + seq!['.'] + sg)[k] == '.');
                    assert(rest.take(e - start)[k] == t[start + k]);
                }
            }
        }
        return Err(Error::AuthFailTokenWrongFormat);
    }
    let exp = token.substring_char(start, p).to_owned();
    let sig = token.substring_char(p + 1, e).to_owned();
    proof {
        let digits = t.subrange(5, d as int);
        let rest = t.skip(start as int);
        assert(rest.take(e - start) =~= exp@ + seq!['.'] + sig@);
        assert(no_line_feed(rest.take(e - start)));
        assert forall|i: int| 0 <= i < sig@.len() - 1 implies #[trigger] sig@[i] != '.' by {
            assert(sig@[i] == t[p + 1 + i]);
        }
        assert(token_shape(t, digits, exp@, sig@));
        assert(t.take(5) == token_prefix());
    }
    Ok((value, exp, sig))
}

} // verus!
