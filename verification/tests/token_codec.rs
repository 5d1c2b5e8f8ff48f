use socialnet::auth::validate_token;
use socialnet::errors::JwtError;
use socialnet::jwt::{b64url_decode, jwt_for_time, parse_claims};
use socialnet::model::{Db, Session};
use socialnet::requests::AuthRequest;
use socialnet::role::Role;
use socialnet::users;

const YEAR: u64 = 31_536_000;

fn db_with_user() -> Db {
    let mut db = Db::new();
    let req = AuthRequest {
        username: String::from("alice"),
        password: String::from("pw"),
        email: String::from("alice@example.com"),
    };
    users::create_at(&mut db, &req, 100).unwrap();
    db
}

#[test]
fn base64url_decoding_undoes_encoding() {
    assert_eq!(
        b64url_decode("eyJ0eXAiOiJKV1QiLCJhbGciOiJIUzUxMiJ9").unwrap(),
        "{\"typ\":\"JWT\",\"alg\":\"HS512\"}"
    );
    assert_eq!(b64url_decode("").unwrap(), "");
    // A lone trailing character can never come from the encoder.
    assert_eq!(b64url_decode("A"), None);
    // Characters outside the alphabet are rejected.
    assert_eq!(b64url_decode("ab.d"), None);
    // Non-canonical trailing bits are rejected.
    assert_eq!(b64url_decode("AB"), None);
}

#[test]
fn claim_parsing_undoes_printing() {
    let c = parse_claims("{\"sub\":7,\"role\":\"user\",\"exp\":32536000}").unwrap();
    assert_eq!(c.sub, 7);
    assert_eq!(c.role, "user");
    assert_eq!(c.exp, 32536000);
}

#[test]
fn claim_parsing_rejects_everything_else() {
    assert!(parse_claims("").is_none());
    assert!(parse_claims("{}").is_none());
    assert!(parse_claims("{\"sub\":,\"role\":\"user\",\"exp\":1}").is_none());
    // A spurious leading zero is not canonical.
    assert!(parse_claims("{\"sub\":07,\"role\":\"user\",\"exp\":1}").is_none());
    // Reordered fields are not this library's print.
    assert!(parse_claims("{\"role\":\"user\",\"sub\":7,\"exp\":1}").is_none());
    // Trailing garbage.
    assert!(parse_claims("{\"sub\":7,\"role\":\"user\",\"exp\":1}x").is_none());
}

#[test]
fn a_minted_token_with_a_live_session_validates() {
    let mut db = db_with_user();
    let token = jwt_for_time(1, Role::User, 1_000).unwrap();
    db.sessions.push(Session { jwt: token.clone(), user_id: 1 });
    let claims = validate_token(&db, &token, 500).unwrap();
    assert_eq!(claims.sub, 1);
    assert_eq!(claims.role, "user");
    assert_eq!(claims.exp as u64, 1_000 + YEAR);
}

#[test]
fn validation_rejects_expired_sessionless_and_tampered_tokens() {
    let mut db = db_with_user();
    let token = jwt_for_time(1, Role::User, 1_000).unwrap();
    // No session row yet.
    assert!(matches!(validate_token(&db, &token, 500), Err(JwtError::InvalidToken)));
    db.sessions.push(Session { jwt: token.clone(), user_id: 1 });
    assert!(validate_token(&db, &token, 500).is_ok());
    // The expiry claim is enforced at validation time.
    let past_expiry = (1_000 + YEAR) as i64;
    assert!(matches!(validate_token(&db, &token, past_expiry), Err(JwtError::InvalidToken)));
    // A tampered payload fails the signature check.
    let mut forged = token.clone();
    let dot = forged.find('.').unwrap();
    forged.replace_range(dot + 1..dot + 2, "X");
    assert!(matches!(validate_token(&db, &forged, 500), Err(JwtError::InvalidToken)));
}
