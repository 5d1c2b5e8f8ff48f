use socialnet::auth;
use socialnet::errors::{status_for_auth_error, status_for_db_error, AuthError, DbError, JwtError};
use socialnet::jwt;
use socialnet::model::Db;
use socialnet::requests::{AuthRequest, LogoutRequest};
use socialnet::role::Role;
use socialnet::users;

fn auth_req(name: &str, password: &str) -> AuthRequest {
    AuthRequest {
        username: String::from(name),
        password: String::from(password),
        email: format!("{}@example.com", name),
    }
}

#[test]
fn register_creates_user_session_and_token() {
    let mut db = Db::new();
    let token = auth::register(&mut db, &auth_req("alice", "secret")).unwrap();
    assert_eq!(db.users.len(), 1);
    assert_eq!(db.users[0].username, "alice");
    assert_eq!(db.users[0].role, 3);
    assert_eq!(db.sessions.len(), 1);
    assert_eq!(db.sessions[0].jwt, token);
    assert_eq!(db.sessions[0].user_id, 1);
}

#[test]
fn register_taken_username_is_a_client_error_and_creates_no_row() {
    let mut db = Db::new();
    auth::register(&mut db, &auth_req("alice", "secret")).unwrap();
    let rows_before = db.users.len();
    let r = auth::register(&mut db, &auth_req("alice", "other"));
    assert_eq!(r, Err(DbError::AlreadyExists));
    assert_eq!(status_for_db_error(DbError::AlreadyExists), 400);
    assert_eq!(db.users.len(), rows_before);
}

#[test]
fn login_with_wrong_password_is_an_auth_failure_without_a_session() {
    let mut db = Db::new();
    auth::register(&mut db, &auth_req("alice", "secret")).unwrap();
    let sessions_before = db.sessions.len();
    let r = auth::login(&mut db, &auth_req("alice", "wrong"));
    assert_eq!(r, Err(DbError::WrongCredentials));
    // 401, not a 500.
    assert_eq!(status_for_db_error(DbError::WrongCredentials), 401);
    assert_eq!(db.sessions.len(), sessions_before);
}

#[test]
fn login_with_unknown_username_is_an_auth_failure() {
    let mut db = Db::new();
    auth::register(&mut db, &auth_req("alice", "secret")).unwrap();
    assert_eq!(auth::login(&mut db, &auth_req("zzz", "secret")), Err(DbError::WrongCredentials));
}

#[test]
fn login_with_correct_credentials_adds_a_session() {
    let mut db = Db::new();
    let t0 = auth::register(&mut db, &auth_req("alice", "secret")).unwrap();
    auth::logout(&mut db, &LogoutRequest { token: t0 }).unwrap();
    assert_eq!(db.sessions.len(), 0);
    let token = auth::login(&mut db, &auth_req("alice", "secret")).unwrap();
    assert_eq!(db.sessions.len(), 1);
    assert_eq!(db.sessions[0].jwt, token);
    assert!(auth::token_well_signed(&token));
    assert_eq!(auth::validate_session(&db, &token), Ok(()));
}

#[test]
fn login_matches_usernames_exactly() {
    let mut db = Db::new();
    let ta = auth::register(&mut db, &auth_req("ab", "x")).unwrap();
    let tb = auth::register(&mut db, &auth_req("b", "y")).unwrap();
    auth::logout(&mut db, &LogoutRequest { token: ta }).unwrap();
    auth::logout(&mut db, &LogoutRequest { token: tb }).unwrap();
    // "b" with "ab"'s password: the lookup must not drift to "ab".
    assert_eq!(auth::login(&mut db, &auth_req("b", "x")), Err(DbError::WrongCredentials));
    assert_eq!(db.sessions.len(), 0);
    // A name that only occurs as a substring of another is unknown.
    assert_eq!(auth::login(&mut db, &auth_req("a", "x")), Err(DbError::WrongCredentials));
    assert_eq!(db.sessions.len(), 0);
    // "b" with its own password signs in as user 2, not user 1.
    let token = auth::login(&mut db, &auth_req("b", "y")).unwrap();
    assert_eq!(db.sessions.len(), 1);
    assert_eq!(db.sessions[0].jwt, token);
    assert_eq!(db.sessions[0].user_id, 2);
}

#[test]
fn register_signs_the_new_user_in_even_beside_a_similar_name() {
    let mut db = Db::new();
    auth::register(&mut db, &auth_req("ab", "x")).unwrap();
    let token = auth::register(&mut db, &auth_req("b", "x")).unwrap();
    // The new session row names the row this call created (id 2).
    assert_eq!(db.users.len(), 2);
    assert_eq!(db.users[1].username, "b");
    let last = db.sessions.last().unwrap();
    assert_eq!(last.jwt, token);
    assert_eq!(last.user_id, 2);
}

#[test]
fn logout_removes_exactly_the_session_row() {
    let mut db = Db::new();
    let token = auth::register(&mut db, &auth_req("alice", "secret")).unwrap();
    assert_eq!(db.sessions.len(), 1);
    let r = auth::logout(&mut db, &LogoutRequest { token: token.clone() });
    assert_eq!(r, Ok(()));
    assert_eq!(db.sessions.len(), 0);
    assert_eq!(auth::validate_session(&db, &token), Err(DbError::NotFound));
    // A second logout of the same token no longer finds a session.
    let r2 = auth::logout(&mut db, &LogoutRequest { token });
    assert_eq!(r2, Err(DbError::NotFound));
}

#[test]
fn logout_with_a_forged_token_fails_the_signature_check() {
    let mut db = Db::new();
    auth::register(&mut db, &auth_req("alice", "secret")).unwrap();
    let r = auth::logout(&mut db, &LogoutRequest { token: String::from("h.p.forged") });
    assert_eq!(r, Err(DbError::InternalError));
    assert_eq!(db.sessions.len(), 1);
}

#[test]
fn bearer_header_parsing() {
    let good = String::from("Bearer abc.def.ghi");
    assert_eq!(jwt::jwt_from_header(Some(&good)).unwrap(), "abc.def.ghi");
    // Every repetition of the scheme prefix is stripped.
    let doubled = String::from("Bearer Bearer x");
    assert_eq!(jwt::jwt_from_header(Some(&doubled)).unwrap(), "x");
    let bare = String::from("Bearer ");
    assert_eq!(jwt::jwt_from_header(Some(&bare)).unwrap(), "");
    let bad = String::from("Basic abc");
    assert_eq!(jwt::jwt_from_header(Some(&bad)), Err(JwtError::InvalidAuthHeader));
    let short = String::from("Bear");
    assert_eq!(jwt::jwt_from_header(Some(&short)), Err(JwtError::InvalidAuthHeader));
    assert_eq!(jwt::jwt_from_header(None), Err(JwtError::NoAuthHeader));
}

#[test]
fn minted_tokens_carry_a_verifiable_signature() {
    let token = jwt::jwt_for_time(7, Role::User, 1_000_000).unwrap();
    // Three dot-separated parts, and the signature checks out.
    assert_eq!(token.matches('.').count(), 2);
    assert!(auth::token_well_signed(&token));
    // Flipping anything in the message breaks the signature.
    let mut forged = token.clone();
    forged.replace_range(0..1, "x");
    assert!(!auth::token_well_signed(&forged));
}

#[test]
fn tokens_for_a_fixed_time_are_deterministic_and_time_dependent() {
    let a = jwt::jwt_for_time(7, Role::User, 1_000_000).unwrap();
    let b = jwt::jwt_for_time(7, Role::User, 1_000_000).unwrap();
    let c = jwt::jwt_for_time(7, Role::User, 2_000_000).unwrap();
    assert_eq!(a, b);
    assert_ne!(a, c);
    assert_eq!(jwt::jwt_for_time(7, Role::User, -5), Err(JwtError::TokenCreation));
}

#[test]
fn token_payload_is_base64url_of_the_claim_json() {
    // Token for subject 7, role "user", expiry 1000000 + one year.
    let token = jwt::jwt_for_time(7, Role::User, 1_000_000).unwrap();
    let parts: Vec<&str> = token.split('.').collect();
    assert_eq!(parts.len(), 3);
    // {"typ":"JWT","alg":"HS512"} in base64url without padding.
    assert_eq!(parts[0], "eyJ0eXAiOiJKV1QiLCJhbGciOiJIUzUxMiJ9");
    // {"sub":7,"role":"user","exp":32536000}
    assert_eq!(parts[1], "eyJzdWIiOjcsInJvbGUiOiJ1c2VyIiwiZXhwIjozMjUzNjAwMH0");
}

#[test]
fn authorize_accepts_a_live_bearer_token_and_hands_back_the_caller() {
    let mut db = Db::new();
    let token = auth::register(&mut db, &auth_req("alice", "secret")).unwrap();
    let header = format!("Bearer {}", token);
    assert_eq!(auth::authorize(&db, Some(&header), Role::User, 0), Ok(1));
    // Role User (rank 3) does not meet a Moderator-gated route.
    assert_eq!(
        auth::authorize(&db, Some(&header), Role::Moderator, 0),
        Err(AuthError::Forbidden)
    );
    assert_eq!(auth::authorize(&db, None, Role::User, 0), Err(AuthError::Unauthorized));
    let junk = String::from("Bearer no.session.here");
    assert_eq!(auth::authorize(&db, Some(&junk), Role::User, 0), Err(AuthError::Unauthorized));
    // A logged-out token is refused even though its signature is fine.
    auth::logout(&mut db, &LogoutRequest { token: token.clone() }).unwrap();
    assert_eq!(auth::authorize(&db, Some(&header), Role::User, 0), Err(AuthError::Unauthorized));
    assert_eq!(status_for_auth_error(AuthError::Unauthorized), 401);
    assert_eq!(status_for_auth_error(AuthError::Forbidden), 403);
}

#[test]
fn role_numeric_codes_round_trip() {
    assert_eq!(Role::from_u8(1), Ok(Role::Admin));
    assert_eq!(Role::from_u8(2), Ok(Role::Moderator));
    assert_eq!(Role::from_u8(3), Ok(Role::User));
    assert_eq!(
        Role::from_u8(0),
        Err(String::from("Expected a number from: 1, 2 or 3"))
    );
    assert_eq!(Role::to_u8(Role::Admin), 1);
    assert_eq!(Role::to_u8(Role::Moderator), 2);
    assert_eq!(Role::to_u8(Role::User), 3);
    assert_eq!(Role::Admin.name(), "admin");
    assert_eq!(Role::Moderator.name(), "moderator");
    assert_eq!(Role::User.name(), "user");
    assert!(Role::Admin.satisfies(Role::User));
    assert!(!Role::User.satisfies(Role::Admin));
}

#[test]
fn store_error_statuses_separate_client_auth_and_internal_faults() {
    assert_eq!(status_for_db_error(DbError::AlreadyExists), 400);
    assert_eq!(status_for_db_error(DbError::WrongCredentials), 401);
    assert_eq!(status_for_db_error(DbError::NotFound), 404);
    assert_eq!(status_for_db_error(DbError::FailedToAdd), 500);
    assert_eq!(status_for_db_error(DbError::FailedToConvertRow), 500);
    assert_eq!(status_for_db_error(DbError::InternalError), 500);
}

#[test]
fn register_then_login_tokens_differ_per_session_row() {
    let mut db = Db::new();
    let t1 = auth::register(&mut db, &auth_req("alice", "secret")).unwrap();
    // Logging in at the same wall-clock second would mint the same token,
    // which the session table's primary key rejects; later logins mint a
    // fresh token.  Either way no duplicate session row can appear.
    match auth::login(&mut db, &auth_req("alice", "secret")) {
        Ok(t2) => {
            assert_ne!(t1, t2);
            assert_eq!(db.sessions.len(), 2);
        },
        Err(e) => {
            assert_eq!(e, DbError::FailedToAdd);
            assert_eq!(db.sessions.len(), 1);
        },
    }
    let jwts: Vec<String> = db.sessions.iter().map(|s| s.jwt.clone()).collect();
    let mut deduped = jwts.clone();
    deduped.dedup();
    assert_eq!(jwts.len(), deduped.len());
}

#[test]
fn users_create_rejects_duplicates_exactly() {
    let mut db = Db::new();
    assert_eq!(users::create_at(&mut db, &auth_req("a", "x"), 5), Ok(()));
    assert_eq!(
        users::create_at(&mut db, &auth_req("a", "y"), 6),
        Err(DbError::AlreadyExists)
    );
    assert_eq!(db.users.len(), 1);
    assert_eq!(db.users[0].password, "x");
}

#[test]
fn add_jwt_session_records_one_session_per_token() {
    let mut db = Db::new();
    auth::register(&mut db, &auth_req("alice", "secret")).unwrap();
    let user = users::get_by_id(&db, 1).unwrap();
    match auth::add_jwt_session(&mut db, &user) {
        Ok(token) => {
            assert_eq!(db.sessions.len(), 2);
            assert_eq!(db.sessions[1].jwt, token);
            assert_eq!(db.sessions[1].user_id, 1);
        },
        Err(e) => {
            // The same wall-clock second mints the register token again,
            // and the session table's primary key rejects the duplicate.
            assert_eq!(e, DbError::FailedToAdd);
            assert_eq!(db.sessions.len(), 1);
        },
    }
}

#[test]
fn role_names_parse_back_without_regard_to_case() {
    assert_eq!(Role::parse(&String::from("admin")), Some(Role::Admin));
    assert_eq!(Role::parse(&String::from("moderator")), Some(Role::Moderator));
    assert_eq!(Role::parse(&String::from("user")), Some(Role::User));
    assert_eq!(Role::parse(&String::from("ADMIN")), Some(Role::Admin));
    assert_eq!(Role::parse(&String::from("Moderator")), Some(Role::Moderator));
    assert_eq!(Role::parse(&String::from("uSeR")), Some(Role::User));
    assert_eq!(Role::parse(&String::from("root")), None);
    assert_eq!(Role::parse(&String::from("")), None);
}
