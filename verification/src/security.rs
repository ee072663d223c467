use crate::errors::CustomError;
use crate::models::User;
use crate::token::{
    b64url_decode, b64url_encode, claims_json, dot_free, header_json, hs256_sig_of, hs256_verify,
    hs256_sign, message_of, mint_token, parse_claims, token_of,
};
use vstd::prelude::*;
use vstd::string::StrSliceExecFns;
use vstd::utf8::{decode_utf8, valid_utf8};

verus! {

// ----- password hashing -----

/// Whether scrypt's PHC-string verification accepts `password` against the
/// verifier `phc`. It recomputes the derivation with the salt and parameters
/// embedded in `phc`, so it is a function of the two strings alone; a string
/// that does not parse as a PHC record is accepted for no password.
pub uninterp spec fn scrypt_verifies(password: Seq<char>, phc: Seq<char>) -> bool;

/// Relies on scrypt's `PasswordHasher::hash_password` with a salt freshly
/// drawn from `OsRng`: whatever salt was drawn, verifying the same password
/// against the returned PHC string succeeds.
#[verifier::external_body]
pub fn get_hashed_password(password: &str) -> (r: String)
    ensures
        scrypt_verifies(password@, r@),
{
    let salt = scrypt::password_hash::SaltString::generate(
        &mut scrypt::password_hash::rand_core::OsRng,
    );
    scrypt::password_hash::PasswordHasher::hash_password(&scrypt::Scrypt, password.as_bytes(), &salt)
        .unwrap()
        .to_string()
}

/// Relies on scrypt's `PasswordVerifier::verify_password`: parses the PHC
/// string and recomputes the derivation; a malformed verifier matches
/// nothing.
#[verifier::external_body]
pub fn verify_password(password: &str, password_hash: &str) -> (r: bool)
    ensures
        r == scrypt_verifies(password@, password_hash@),
{
    match scrypt::password_hash::PasswordHash::new(password_hash) {
        Ok(parsed) => scrypt::password_hash::PasswordVerifier::verify_password(
            &scrypt::Scrypt,
            password.as_bytes(),
            &parsed,
        ).is_ok(),
        Err(_) => false,
    }
}

// ----- the clock -----

/// Relies on chrono's `Utc::now`: seconds since the Unix epoch, as the
/// machine's clock has them. Nothing can be promised of a clock reading.
#[verifier::external_body]
pub(crate) fn now_timestamp() -> i64 {
    chrono::Utc::now().timestamp()
}

/// Relies on chrono's `Utc::now` and its `Display` form. Nothing can be
/// promised of a clock reading.
#[verifier::external_body]
pub(crate) fn now_string() -> String {
    chrono::Utc::now().to_string()
}

// ----- token lifetime -----

/// The expiry stamped on a token minted at clock reading `now`: 6000 seconds
/// later; a clock before the epoch still yields the full lifetime.
pub open spec fn spec_expiry(now: i64) -> u64 {
    if now >= 0 {
        (now + 6000) as u64
    } else {
        6000
    }
}

pub fn expiry_after(now: i64) -> (exp: u64)
    ensures
        exp == spec_expiry(now),
{
    if now >= 0 {
        (now as u64) + 6000
    } else {
        6000
    }
}

/// Whether a token carrying expiry `exp` is still accepted at clock reading
/// `now`: up to 60 seconds of skew are allowed past the expiry.
pub open spec fn token_live(exp: u64, now: i64) -> bool {
    now < exp + 60
}

/// Holds when `t` is a token this library would mint for `sub` under
/// `secret`, with some expiry still live at `now`.
pub open spec fn accepted_token(t: Seq<char>, sub: Seq<char>, secret: Seq<u8>, now: i64) -> bool {
    exists|exp: u64| t == #[trigger] token_of(sub, exp, secret) && token_live(exp, now)
}

fn token_live_exec(exp: u64, now: i64) -> (r: bool)
    ensures
        r == token_live(exp, now),
{
    if now < 0 {
        true
    } else {
        let nu = now as u64;
        if nu < 60 {
            true
        } else {
            exp > nu - 60
        }
    }
}

// ----- minting -----

/// Mints a bearer token for the user, expiring 6000 seconds from now.
pub fn get_jwt_for_user(user: &User, secret: &[u8]) -> (r: String)
    ensures
        exists|exp: u64| r@ == #[trigger] token_of(user.username@, exp, secret@),
{
    let now = now_timestamp();
    let exp = expiry_after(now);
    mint_token(user.username.as_str(), exp, secret)
}

// ----- validation -----

/// Checks a presented token against the secret at clock reading `now`.
///
/// A token minted by this library for subject `sub` with expiry `exp` and the
/// same secret is accepted exactly while it is live, and then yields `sub`;
/// and anything accepted is such a token for the returned subject, signed
/// with this secret and still live. Every failure is `InvalidJWTTokenError`.
#[verifier::rlimit(60)]
pub fn validate_token_at(token: &str, secret: &[u8], now: i64) -> (r: Result<
    String,
    CustomError,
>)
    ensures
        forall|sub: Seq<char>, exp: u64|
            token@ == #[trigger] token_of(sub, exp, secret@) && token_live(exp, now) ==> (
            r matches Ok(u) && u@ == sub),
        forall|sub: Seq<char>, exp: u64|
            token@ == #[trigger] token_of(sub, exp, secret@) && !token_live(exp, now) ==> (
            r matches Err(e) && e == CustomError::InvalidJWTTokenError),
        r matches Ok(u) ==> accepted_token(token@, u@, secret@, now),
        r matches Err(e) ==> e == CustomError::InvalidJWTTokenError,
{
    let n = token.unicode_len();
    let header = "{\"typ\":\"JWT\",\"alg\":\"HS256\"}";
    proof {
        reveal_strlit("{\"typ\":\"JWT\",\"alg\":\"HS256\"}");
        assert(header@ =~= header_json());
    }
    let h64 = b64url_encode(header);
    let hl = h64.as_str().unicode_len();
    if n < 2 || hl > n - 2 {
        return Err(CustomError::InvalidJWTTokenError);
    }
    let tok_h = token.substring_char(0, hl).to_owned();
    if !tok_h.eq(&h64) {
        proof {
            assert forall|sub: Seq<char>, exp: u64|
                token@ != #[trigger] token_of(sub, exp, secret@) by {
                if token@ == token_of(sub, exp, secret@) {
                    assert forall|x: int| 0 <= x < hl implies token@[x] == h64@[x] by {}
                    assert(tok_h@ =~= h64@);
                }
            }
        }
        return Err(CustomError::InvalidJWTTokenError);
    }
    if token.get_char(hl) != '.' {
        proof {
            assert forall|sub: Seq<char>, exp: u64|
                token@ != #[trigger] token_of(sub, exp, secret@) by {}
        }
        return Err(CustomError::InvalidJWTTokenError);
    }
    let mut j = hl + 1;
    while j < n
        invariant
            hl + 1 <= j <= n,
            n == token@.len(),
            hl == h64@.len(),
            hl <= n - 2,
            h64@ == b64url_of_header(),
            dot_free(h64@),
            token@.subrange(0, hl as int) == h64@,
            token@[hl as int] == '.',
            forall|sub: Seq<char>, exp: u64|
                token@ == #[trigger] token_of(sub, exp, secret@) ==> j <= message_of(
                    sub,
                    exp,
                ).len(),
        decreases n - j,
    {
        let cj = token.get_char(j);
        if cj == '.' {
            let msg = token.substring_char(0, j).to_owned();
            let sig_known = hs256_sign(msg.as_str(), secret);
            let sgn = token.substring_char(j + 1, n).to_owned();
            proof {
                assert(token@ =~= msg@ + seq!['.'] + sgn@);
            }
            if hs256_verify(sgn.as_str(), msg.as_str(), secret) {
                proof {
                    assert(sgn@ == sig_known@);
                    assert forall|sub: Seq<char>, exp: u64|
                        token@ == #[trigger] token_of(sub, exp, secret@) implies j
                            == message_of(sub, exp).len() by {
                        let m = message_of(sub, exp);
                        if j < m.len() {
                            assert(token@[m.len() as int] == '.');
                            assert(m.len() < n);
                            assert(sgn@[m.len() - j - 1] == '.');
                            assert(false);
                        }
                    }
                }
                let p = token.substring_char(hl + 1, j).to_owned();
                proof {
                    assert(msg@ =~= h64@ + seq!['.'] + p@);
                    assert forall|sub: Seq<char>, exp: u64|
                        token@ == #[trigger] token_of(sub, exp, secret@) implies p@
                            == crate::token::b64url_of(claims_json(sub, exp)) by {
                        let m = message_of(sub, exp);
                        assert(msg@ =~= m);
                        assert(p@ =~= m.subrange(hl + 1, m.len() as int));
                        assert(crate::token::b64url_of(claims_json(sub, exp)) =~= m.subrange(
                            hl + 1,
                            m.len() as int,
                        ));
                    }
                }
                match b64url_decode(p.as_str()) {
                    None => {
                        return Err(CustomError::InvalidJWTTokenError);
                    },
                    Some(payload) => {
                        match parse_claims(payload.as_str()) {
                            None => {
                                return Err(CustomError::InvalidJWTTokenError);
                            },
                            Some(pair) => {
                                let (u, exp_found) = pair;
                                proof {
                                    assert forall|sub: Seq<char>, exp: u64|
                                        token@ == #[trigger] token_of(sub, exp, secret@)
                                            implies u@ == sub && exp_found == exp by {
                                        assert(payload@ == claims_json(sub, exp));
                                    }
                                    assert(message_of(u@, exp_found) =~= msg@);
                                    assert(token_of(u@, exp_found, secret@) =~= token@);
                                }
                                if token_live_exec(exp_found, now) {
                                    proof {
                                        assert(accepted_token(token@, u@, secret@, now)) by {
                                            assert(token@ == token_of(u@, exp_found, secret@)
                                                && token_live(exp_found, now));
                                        }
                                    }
                                    return Ok(u);
                                } else {
                                    return Err(CustomError::InvalidJWTTokenError);
                                }
                            },
                        }
                    },
                }
            } else {
                proof {
                    assert forall|sub: Seq<char>, exp: u64|
                        token@ == #[trigger] token_of(sub, exp, secret@) implies j
                            < message_of(sub, exp).len() by {
                        let m = message_of(sub, exp);
                        if j == m.len() {
                            assert(msg@ =~= m);
                            assert(sgn@ =~= hs256_sig_of(m, secret@));
                            assert(false);
                        }
                    }
                }
            }
        } else {
            proof {
                assert forall|sub: Seq<char>, exp: u64|
                    token@ == #[trigger] token_of(sub, exp, secret@) implies j < message_of(
                    sub,
                    exp,
                ).len() by {
                    let m = message_of(sub, exp);
                    if j == m.len() {
                        assert(token@[m.len() as int] == '.');
                        assert(false);
                    }
                }
            }
        }
        j = j + 1;
    }
    proof {
        assert forall|sub: Seq<char>, exp: u64|
            token@ != #[trigger] token_of(sub, exp, secret@) by {
            if token@ == token_of(sub, exp, secret@) {
                let m = message_of(sub, exp);
                assert(token@.len() == m.len() + 1 + hs256_sig_of(m, secret@).len());
                assert(j <= m.len());
            }
        }
    }
    Err(CustomError::InvalidJWTTokenError)
}

/// The header value of a freshly encoded claims header; names the same value
/// as `b64url_of(header_json())`.
pub open spec fn b64url_of_header() -> Seq<char> {
    crate::token::b64url_of(header_json())
}

/// Checks a presented token against the secret, at the clock's present
/// reading.
pub fn validate_token(token: &str, secret: &[u8]) -> (r: Result<String, CustomError>)
    ensures
        r matches Ok(u) ==> exists|exp: u64| token@ == #[trigger] token_of(u@, exp, secret@),
        r matches Err(e) ==> e == CustomError::InvalidJWTTokenError,
{
    let now = now_timestamp();
    validate_token_at(token, secret, now)
}

// ----- the auth gate -----

/// Relies on std's `String::from_utf8`: succeeds exactly on valid UTF-8 and
/// decodes it.
#[verifier::external_body]
fn utf8_to_string(bytes: &Vec<u8>) -> (r: Option<String>)
    ensures
        r matches Some(s) ==> valid_utf8(bytes@) && s@ == decode_utf8(bytes@),
        r is None ==> !valid_utf8(bytes@),
{
    match String::from_utf8(bytes.clone()) {
        Ok(s) => Some(s),
        Err(_) => None,
    }
}

pub open spec fn bearer_prefix() -> Seq<char> {
    seq!['B', 'e', 'a', 'r', 'e', 'r', ' ']
}

pub open spec fn starts_with_bearer(s: Seq<char>) -> bool {
    s.len() >= 7 && s.take(7) == bearer_prefix()
}

/// Pulls the bearer token out of the authorization header: an absent or
/// non-UTF-8 header wants the header, a header without the exact `Bearer `
/// prefix is invalid, and otherwise the remainder after the prefix is the
/// token.
pub fn jwt_from_header(header: Option<&Vec<u8>>) -> (r: Result<String, CustomError>)
    ensures
        header is None ==> (r matches Err(e) && e == CustomError::AuthHeaderRequiredError),
        header matches Some(h) && !valid_utf8(h@) ==> (r matches Err(e) && e
            == CustomError::AuthHeaderRequiredError),
        header matches Some(h) && valid_utf8(h@) && !starts_with_bearer(decode_utf8(h@)) ==> (
        r matches Err(e) && e == CustomError::InvalidAuthHeaderError),
        (header matches Some(h) && valid_utf8(h@) && starts_with_bearer(decode_utf8(h@))) ==> (
        r matches Ok(t) && t@ == decode_utf8(header->Some_0@).skip(7)),
{
    let h = match header {
        None => {
            return Err(CustomError::AuthHeaderRequiredError);
        },
        Some(h) => h,
    };
    let s = match utf8_to_string(h) {
        None => {
            return Err(CustomError::AuthHeaderRequiredError);
        },
        Some(s) => s,
    };
    let len = s.as_str().unicode_len();
    let ok = len >= 7 && s.as_str().get_char(0) == 'B' && s.as_str().get_char(1) == 'e'
        && s.as_str().get_char(2) == 'a' && s.as_str().get_char(3) == 'r' && s.as_str().get_char(
        4,
    ) == 'e' && s.as_str().get_char(5) == 'r' && s.as_str().get_char(6) == ' ';
    if !ok {
        proof {
            if starts_with_bearer(s@) {
                assert(s@.take(7)[0] == 'B');
                assert(s@.take(7)[1] == 'e');
                assert(s@.take(7)[2] == 'a');
                assert(s@.take(7)[3] == 'r');
                assert(s@.take(7)[4] == 'e');
                assert(s@.take(7)[5] == 'r');
                assert(s@.take(7)[6] == ' ');
                assert(false);
            }
        }
        return Err(CustomError::InvalidAuthHeaderError);
    }
    proof {
        assert(s@.take(7) =~= bearer_prefix());
    }
    let t = s.as_str().substring_char(7, len).to_owned();
    proof {
        assert(t@ =~= s@.skip(7));
    }
    Ok(t)
}

/// The auth gate in front of every task endpoint: reads the authorization
/// header, validates the bearer token, and yields the authenticated subject.
/// Whoever it yields presented a token this service signed for that subject.
pub fn authorize(header: Option<&Vec<u8>>, secret: &[u8]) -> (r: Result<String, CustomError>)
    ensures
        header is None ==> (r matches Err(e) && e == CustomError::AuthHeaderRequiredError),
        header matches Some(h) && !valid_utf8(h@) ==> (r matches Err(e) && e
            == CustomError::AuthHeaderRequiredError),
        header matches Some(h) && valid_utf8(h@) && !starts_with_bearer(decode_utf8(h@)) ==> (
        r matches Err(e) && e == CustomError::InvalidAuthHeaderError),
        r matches Ok(u) ==> exists|exp: u64|
            (header matches Some(h) && valid_utf8(h@) && decode_utf8(h@).skip(7)
                == #[trigger] token_of(u@, exp, secret@)),
        r matches Err(e) ==> (e == CustomError::AuthHeaderRequiredError || e
            == CustomError::InvalidAuthHeaderError || e == CustomError::InvalidJWTTokenError),
{
    match jwt_from_header(header) {
        Err(e) => Err(e),
        Ok(jwt) => validate_token(jwt.as_str(), secret),
    }
}

} // verus!
