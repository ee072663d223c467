use task_service::errors::CustomError;
use task_service::security::{validate_token_at, verify_password};
use task_service::token::{mint_token, parse_claims, render_claims};

fn secret() -> Vec<u8> {
    b"another-test-key".to_vec()
}

/// The scrypt verifier of the password `secret`, with deliberately cheap
/// parameters so the derivation stays well inside the per-test time limit.
const SECRET_VERIFIER: &str =
    "$scrypt$ln=6,r=8,p=1$MDEyMzQ1Njc4OWFiY2RlZg$YPJcqP7h1AjiqKo0RGR+pILh1b9TrNFQ+6bJvKiCzIs";

#[test]
fn verifier_accepts_its_own_password() {
    assert!(verify_password("secret", SECRET_VERIFIER));
}

#[test]
fn verifier_rejects_another_password() {
    assert!(!verify_password("wrong", SECRET_VERIFIER));
    assert!(!verify_password("", SECRET_VERIFIER));
}

#[test]
fn malformed_verifier_matches_nothing() {
    assert!(!verify_password("secret", "not a phc string"));
    assert!(!verify_password("", ""));
}

#[test]
fn token_round_trip_within_lifetime() {
    let token = mint_token("alice", 7000, &secret());
    let sub = validate_token_at(token.as_str(), &secret(), 6000).expect("live token");
    assert_eq!(sub, "alice");
    let sub = validate_token_at(token.as_str(), &secret(), 7059).expect("inside the skew");
    assert_eq!(sub, "alice");
}

#[test]
fn expired_token_is_refused() {
    let token = mint_token("alice", 7000, &secret());
    match validate_token_at(token.as_str(), &secret(), 7060) {
        Err(CustomError::InvalidJWTTokenError) => {}
        _ => panic!("a token past its expiry and skew must be refused"),
    }
}

#[test]
fn token_under_other_secret_is_refused() {
    let token = mint_token("alice", 7000, &secret());
    match validate_token_at(token.as_str(), b"a-different-key", 6000) {
        Err(CustomError::InvalidJWTTokenError) => {}
        _ => panic!("a token signed under another secret must be refused"),
    }
}

#[test]
fn garbage_tokens_are_refused() {
    for bad in ["", "a.b.c", "no dots here", "..", "Bearer x"] {
        match validate_token_at(bad, &secret(), 0) {
            Err(CustomError::InvalidJWTTokenError) => {}
            _ => panic!("malformed token must be refused"),
        }
    }
}

#[test]
fn minted_token_is_a_standard_jwt() {
    let token = mint_token("alice", u64::MAX, &secret());
    let parts: Vec<&str> = token.split('.').collect();
    assert_eq!(parts.len(), 3);
    let eng = &base64::engine::general_purpose::URL_SAFE_NO_PAD;
    let header = base64::Engine::decode(eng, parts[0]).expect("header part decodes");
    assert_eq!(header, b"{\"typ\":\"JWT\",\"alg\":\"HS256\"}");
    let payload = base64::Engine::decode(eng, parts[1]).expect("claims part decodes");
    assert_eq!(
        String::from_utf8(payload).unwrap(),
        format!("{{\"sub\":\"alice\",\"exp\":{}}}", u64::MAX)
    );
    let data = jsonwebtoken::decode::<serde_json::Value>(
        token.as_str(),
        &jsonwebtoken::DecodingKey::from_secret(&secret()),
        &jsonwebtoken::Validation::new(jsonwebtoken::Algorithm::HS256),
    )
    .expect("the reference decoder accepts the minted token");
    assert_eq!(data.claims.get("sub").and_then(|v| v.as_str()), Some("alice"));
}

#[test]
fn claims_rendering_escapes_and_parses_back() {
    let rendered = render_claims("a\"b\\c", 0);
    assert_eq!(rendered, "{\"sub\":\"a\\\"b\\\\c\",\"exp\":0}");
    let (sub, exp) = parse_claims(rendered.as_str()).expect("own rendering parses back");
    assert_eq!(sub, "a\"b\\c");
    assert_eq!(exp, 0);
    assert!(parse_claims("{\"sub\":\"a\",\"exp\":007}").is_none());
    assert!(parse_claims("{\"exp\":1,\"sub\":\"a\"}").is_none());
    assert!(parse_claims("{\"sub\":\"a\",\"exp\":1}x").is_none());
    let (sub, exp) = parse_claims("{\"sub\":\"\",\"exp\":18446744073709551615}")
        .expect("the largest expiry parses");
    assert_eq!(sub, "");
    assert_eq!(exp, u64::MAX);
    assert!(parse_claims("{\"sub\":\"\",\"exp\":18446744073709551616}").is_none());
}

#[test]
fn token_with_subject_minted_by_other_user_fails_validation_under_swap() {
    let t_alice = mint_token("alice", 7000, &secret());
    let t_bob = mint_token("bob", 7000, &secret());
    let sa: Vec<&str> = t_alice.split('.').collect();
    let sb: Vec<&str> = t_bob.split('.').collect();
    let forged = format!("{}.{}.{}", sa[0], sb[1], sa[2]);
    match validate_token_at(forged.as_str(), &secret(), 6000) {
        Err(CustomError::InvalidJWTTokenError) => {}
        _ => panic!("a token with a swapped claims part must be refused"),
    }
}
