use vstd::prelude::*;

use crate::errors::{DbError, JwtError};
use crate::jwt::{hs512_sig_of, spec_secret, spec_token, Claims, ClaimsV};
use crate::model::{Db, DbView, Session, SessionV, User};
use crate::requests::{AuthRequest, LogoutRequest};
use crate::role::Role;
use crate::users::AuthRequestV;

verus! {

// ---------------------------------------------------------------------------
// The login lookup and session bookkeeping.
// ---------------------------------------------------------------------------

/// The first user row, from `i` on, carrying exactly the requested
/// username — the row the login filter hands back.  Usernames are unique
/// on a well-formed store, so the first match is the only one.
pub open spec fn spec_login_lookup(d: DbView, name: Seq<char>, i: int) -> Option<int>
    decreases d.users.len() - i,
{
    if i < 0 || i >= d.users.len() {
        None
    } else if d.users[i].username == name {
        Some(i)
    } else {
        spec_login_lookup(d, name, i + 1)
    }
}

/// A row that carries the name, with none before it, is the lookup's
/// answer.
proof fn lemma_login_lookup_at(d: DbView, name: Seq<char>, p: int, i: int)
    requires
        0 <= p <= i < d.users.len(),
        d.users[i].username == name,
        forall|j: int| p <= j < i ==> (#[trigger] d.users[j]).username != name,
    ensures
        spec_login_lookup(d, name, p) == Some(i),
    decreases i - p,
{
    if p < i {
        lemma_login_lookup_at(d, name, p + 1, i);
    }
}

/// With no row carrying the name the lookup is empty.
proof fn lemma_login_lookup_none(d: DbView, name: Seq<char>, p: int)
    requires
        0 <= p,
        forall|j: int| 0 <= j < d.users.len() ==> (#[trigger] d.users[j]).username != name,
    ensures
        spec_login_lookup(d, name, p) is None,
    decreases d.users.len() - p,
{
    if p < d.users.len() {
        lemma_login_lookup_none(d, name, p + 1);
    }
}

/// The name a role rank carries inside a token.
pub open spec fn spec_role_name(rank: int) -> Seq<char> {
    if rank == 1 {
        "admin"@
    } else if rank == 2 {
        "moderator"@
    } else {
        "user"@
    }
}

/// A token of this library's shape for the given user row and some
/// expiry.
pub open spec fn token_shape_for(tok: Seq<char>, uid: int, rank: int) -> bool {
    exists|exp: int| tok == #[trigger] spec_token(
        ClaimsV { sub: uid, role: spec_role_name(rank), exp: exp },
    )
}

/// Result of a token-returning call, seen at the view level.
pub open spec fn res_view(r: Result<String, DbError>) -> Result<Seq<char>, DbError> {
    match r {
        Ok(s) => Ok(s@),
        Err(e) => Err(e),
    }
}

/// Full functional specification of the login path, given the token that
/// would be minted: the row carrying exactly the requested username is
/// the candidate; a missing candidate or a wrong password is an
/// authentication failure that writes nothing; a token already present is
/// a failed insert; otherwise the session row is added.
pub open spec fn spec_validate_user(d: DbView, req: AuthRequestV, token: Seq<char>) -> (DbView, Result<
    Seq<char>,
    DbError,
>) {
    match spec_login_lookup(d, req.username, 0) {
        None => (d, Err(DbError::WrongCredentials)),
        Some(i) => {
            if d.users[i].password != req.password {
                (d, Err(DbError::WrongCredentials))
            } else if d.has_session(token) {
                (d, Err(DbError::FailedToAdd))
            } else {
                (
                    DbView {
                        sessions: d.sessions.push(
                            SessionV { jwt: token, user_id: d.users[i].id },
                        ),
                        ..d
                    },
                    Ok(token),
                )
            }
        },
    }
}

/// Appending a session row with a fresh token preserves the store
/// invariant.
pub proof fn lemma_session_added_wf(d: DbView, token: Seq<char>, uid: int)
    requires
        d.wf(),
        d.has_user(uid),
        !d.has_session(token),
    ensures
        (DbView { sessions: d.sessions.push(SessionV { jwt: token, user_id: uid }), ..d }).wf(),
{
    let d2 = DbView { sessions: d.sessions.push(SessionV { jwt: token, user_id: uid }), ..d };
    crate::model::lemma_has_user_congruence(d, d2);
    crate::model::lemma_has_post_congruence(d, d2);
    assert forall|i: int, j: int|
        0 <= i < j < d2.sessions.len() implies (#[trigger] d2.sessions[i]).jwt != (
    #[trigger] d2.sessions[j]).jwt by {
        if j < d.sessions.len() {
            assert(d2.sessions[i] == d.sessions[i] && d2.sessions[j] == d.sessions[j]);
        } else {
            assert(d2.sessions[i] == d.sessions[i]);
            assert(!(d.sessions[i].jwt == token));
        }
    }
    assert forall|i: int| 0 <= i < d2.sessions.len() implies d2.has_user(
        (#[trigger] d2.sessions[i]).user_id,
    ) by {
        if i < d.sessions.len() {
            assert(d.has_user(d.sessions[i].user_id));
        }
    }
    assert(d2.sessions_wf());
    assert(d2.counters_wf());
    assert(d2.likes_wf());
}

/// Removing a session row preserves the store invariant.
pub proof fn lemma_session_removed_wf(d: DbView, i: int)
    requires
        d.wf(),
        0 <= i < d.sessions.len(),
    ensures
        (DbView { sessions: d.sessions.remove(i), ..d }).wf(),
{
    let d2 = DbView { sessions: d.sessions.remove(i), ..d };
    crate::model::lemma_has_user_congruence(d, d2);
    crate::model::lemma_has_post_congruence(d, d2);
    assert forall|a: int, b: int|
        0 <= a < b < d2.sessions.len() implies (#[trigger] d2.sessions[a]).jwt != (
    #[trigger] d2.sessions[b]).jwt by {
        let a0 = if a < i {
            a
        } else {
            a + 1
        };
        let b0 = if b < i {
            b
        } else {
            b + 1
        };
        assert(d2.sessions[a] == d.sessions[a0] && d2.sessions[b] == d.sessions[b0]);
    }
    assert forall|a: int| 0 <= a < d2.sessions.len() implies d2.has_user(
        (#[trigger] d2.sessions[a]).user_id,
    ) by {
        let a0 = if a < i {
            a
        } else {
            a + 1
        };
        assert(d2.sessions[a] == d.sessions[a0]);
        assert(d.has_user(d.sessions[a0].user_id));
    }
    assert(d2.sessions_wf());
    assert(d2.counters_wf());
    assert(d2.likes_wf());
}

/// Mint a token for the user row and record the session, all inside the
/// login transaction.  Which token is minted depends on the clock; for
/// every outcome the state change is [`spec_validate_user`]'s.
pub fn add_jwt_session(db: &mut Db, user: &User) -> (r: Result<String, DbError>)
    requires
        old(db)@.wf(),
        old(db)@.has_user(user@.id),
        1 <= user@.role <= 3,
    ensures
        final(db)@.wf(),
        ({
            ||| (r == Err::<String, DbError>(DbError::InternalError) && final(db)@ == old(db)@)
            ||| exists|tok: Seq<char>|
            {
                &&& #[trigger] token_shape_for(tok, user@.id, user@.role)
                &&& if old(db)@.has_session(tok) {
                    r == Err::<String, DbError>(DbError::FailedToAdd) && final(db)@ == old(db)@
                } else {
                    r matches Ok(t) && t@ == tok && final(db)@ == (DbView {
                        sessions: old(db)@.sessions.push(
                            SessionV { jwt: tok, user_id: user@.id },
                        ),
                        ..old(db)@
                    })
                }
            }
        }),
{
    let role = match Role::from_u8(user.role) {
        Ok(role) => role,
        Err(_) => {
            proof {
                assert(false);
            }
            Role::User
        },
    };
    let token = match crate::jwt::generate_jwt(user.id, role) {
        Ok(t) => t,
        Err(_) => {
            return Err(DbError::InternalError);
        },
    };
    let ghost tokv = token@;
    proof {
        assert(role.spec_name() == spec_role_name(user@.role));
        let exp = choose|exp: int|
            tokv == #[trigger] spec_token(
                ClaimsV { sub: user@.id, role: role.spec_name(), exp: exp },
            );
        assert(tokv == spec_token(
            ClaimsV { sub: user@.id, role: spec_role_name(user@.role), exp: exp },
        ));
        assert(token_shape_for(tokv, user@.id, user@.role));
    }
    match db.find_session(&token) {
        Some(_) => Err(DbError::FailedToAdd),
        None => {
            let uid = user.id;
            db.sessions.push(Session { jwt: token.clone(), user_id: uid });
            proof {
                assert(db@.sessions =~= old(db)@.sessions.push(
                    SessionV { jwt: tokv, user_id: user@.id },
                ));
                assert(db@ =~= (DbView {
                    sessions: old(db)@.sessions.push(SessionV { jwt: tokv, user_id: user@.id }),
                    ..old(db)@
                }));
                lemma_session_added_wf(old(db)@, tokv, user@.id);
            }
            Ok(token)
        },
    }
}

/// The login transaction: look the user up by exact username, check the
/// password, mint a token and record the session.  A wrong password or
/// an unknown username is an authentication failure, not an internal
/// fault, and writes nothing.
pub fn validate_user(db: &mut Db, body: &AuthRequest) -> (r: Result<String, DbError>)
    requires
        old(db)@.wf(),
    ensures
        final(db)@.wf(),
        spec_login_lookup(old(db)@, body.username@, 0) is None ==> final(db)@ == old(db)@ && r
            == Err::<String, DbError>(DbError::WrongCredentials),
        ({
            let lk = spec_login_lookup(old(db)@, body.username@, 0);
            lk matches Some(i) && old(db)@.users[i].password != body.password@
        }) ==> final(db)@ == old(db)@ && r == Err::<String, DbError>(DbError::WrongCredentials),
        ({
            let lk = spec_login_lookup(old(db)@, body.username@, 0);
            lk matches Some(i) && old(db)@.users[i].password == body.password@
        }) ==> ({
            let i = spec_login_lookup(old(db)@, body.username@, 0)->Some_0;
            ||| (r == Err::<String, DbError>(DbError::InternalError) && final(db)@ == old(db)@)
            ||| exists|tok: Seq<char>|
                {
                    &&& #[trigger] token_shape_for(
                        tok,
                        old(db)@.users[i].id,
                        old(db)@.users[i].role,
                    )
                    &&& (final(db)@, res_view(r)) == spec_validate_user(
                        old(db)@,
                        body.req_view(),
                        tok,
                    )
                }
        }),
{
    let ghost d0 = db@;
    let ui = match db.find_user_by_name(&body.username) {
        None => {
            proof {
                lemma_login_lookup_none(d0, body.username@, 0);
            }
            return Err(DbError::WrongCredentials);
        },
        Some(i) => {
            proof {
                lemma_login_lookup_at(d0, body.username@, 0, i as int);
            }
            i
        },
    };
    if db.users[ui].password != body.password {
        return Err(DbError::WrongCredentials);
    }
    let user = db.users[ui].duplicate();
    proof {
        assert(d0.users[ui as int].id == user@.id);
        assert(d0.has_user(user@.id));
        assert(1 <= d0.users[ui as int].role <= 3);
    }
    let role = match Role::from_u8(user.role) {
        Ok(role) => role,
        Err(_) => {
            proof {
                assert(false);
            }
            Role::User
        },
    };
    let token = match crate::jwt::generate_jwt(user.id, role) {
        Ok(t) => t,
        Err(_) => {
            return Err(DbError::InternalError);
        },
    };
    let ghost tokv = token@;
    proof {
        assert(role.spec_name() == spec_role_name(user@.role));
        let exp = choose|exp: int|
            tokv == #[trigger] spec_token(
                ClaimsV { sub: user@.id, role: role.spec_name(), exp: exp },
            );
        assert(tokv == spec_token(
            ClaimsV { sub: user@.id, role: spec_role_name(user@.role), exp: exp },
        ));
        assert(token_shape_for(tokv, user@.id, user@.role));
    }
    match db.find_session(&token) {
        Some(_) => {
            proof {
                assert((db@, res_view(Err::<String, DbError>(DbError::FailedToAdd)))
                    == spec_validate_user(d0, body.req_view(), tokv));
            }
            Err(DbError::FailedToAdd)
        },
        None => {
            let uid = user.id;
            db.sessions.push(Session { jwt: token.clone(), user_id: uid });
            proof {
                assert(db@.sessions =~= d0.sessions.push(
                    SessionV { jwt: tokv, user_id: user@.id },
                ));
                assert(db@ =~= (DbView {
                    sessions: d0.sessions.push(SessionV { jwt: tokv, user_id: user@.id }),
                    ..d0
                }));
                lemma_session_added_wf(d0, tokv, user@.id);
                assert((db@, res_view(Ok::<String, DbError>(token))) == spec_validate_user(
                    d0,
                    body.req_view(),
                    tokv,
                ));
            }
            Ok(token)
        },
    }
}

/// The login route is the login transaction, verbatim; the handler above
/// it only chooses the HTTP status.
pub fn login(db: &mut Db, body: &AuthRequest) -> (r: Result<String, DbError>)
    requires
        old(db)@.wf(),
    ensures
        final(db)@.wf(),
        spec_login_lookup(old(db)@, body.username@, 0) is None ==> final(db)@ == old(db)@ && r
            == Err::<String, DbError>(DbError::WrongCredentials),
        ({
            let lk = spec_login_lookup(old(db)@, body.username@, 0);
            lk matches Some(i) && old(db)@.users[i].password != body.password@
        }) ==> final(db)@ == old(db)@ && r == Err::<String, DbError>(DbError::WrongCredentials),
        ({
            let lk = spec_login_lookup(old(db)@, body.username@, 0);
            lk matches Some(i) && old(db)@.users[i].password == body.password@
        }) ==> ({
            let i = spec_login_lookup(old(db)@, body.username@, 0)->Some_0;
            ||| (r == Err::<String, DbError>(DbError::InternalError) && final(db)@ == old(db)@)
            ||| exists|tok: Seq<char>|
                {
                    &&& #[trigger] token_shape_for(
                        tok,
                        old(db)@.users[i].id,
                        old(db)@.users[i].role,
                    )
                    &&& (final(db)@, res_view(r)) == spec_validate_user(
                        old(db)@,
                        body.req_view(),
                        tok,
                    )
                }
        }),
{
    validate_user(db, body)
}

/// The registration route: create the user row — a taken username is a
/// client error and creates nothing — then run the login transaction on
/// the new state to hand a token back.
pub fn register(db: &mut Db, body: &AuthRequest) -> (r: Result<String, DbError>)
    requires
        old(db)@.wf(),
    ensures
        final(db)@.wf(),
        crate::users::username_taken(old(db)@, body.username@) ==> r == Err::<String, DbError>(
            DbError::AlreadyExists,
        ) && final(db)@ == old(db)@,
        !crate::users::username_taken(old(db)@, body.username@) && old(db)@.next_user_id
            >= i32::MAX ==> r == Err::<String, DbError>(DbError::InternalError) && final(db)@
            == old(db)@,
        !crate::users::username_taken(old(db)@, body.username@) && old(db)@.next_user_id
            < i32::MAX ==> exists|t_user: int|
            {
                let d1 = #[trigger] crate::users::spec_user_created(
                    old(db)@,
                    body.req_view(),
                    t_user,
                );
                ||| (r == Err::<String, DbError>(DbError::InternalError) && final(db)@ == d1)
                ||| exists|tok: Seq<char>|
                    (final(db)@, res_view(r)) == #[trigger] spec_validate_user(
                        d1,
                        body.req_view(),
                        tok,
                    )
            },
        // On success the one new session row names the user this very
        // call registered — the row created under the next free id.
        !crate::users::username_taken(old(db)@, body.username@) && (r matches Ok(t))
            ==> final(db)@.sessions == old(db)@.sessions.push(
            (SessionV { jwt: r->Ok_0@, user_id: old(db)@.next_user_id }),
        ),
{
    let ghost d0 = db@;
    match crate::users::create(db, body) {
        Err(e) => {
            return Err(e);
        },
        Ok(()) => {},
    }
    let ghost t_user = choose|t: int|
        (db@, Ok::<(), DbError>(())) == #[trigger] crate::users::spec_create_user(
            d0,
            body.req_view(),
            t,
        );
    let ghost d1 = db@;
    let r = validate_user(db, body);
    proof {
        assert(d1 == crate::users::spec_user_created(d0, body.req_view(), t_user));
        match spec_login_lookup(d1, body.username@, 0) {
            None => {
                assert((db@, res_view(r)) == spec_validate_user(
                    d1,
                    body.req_view(),
                    Seq::<char>::empty(),
                ));
            },
            Some(i) => {
                if d1.users[i].password != body.password@ {
                    assert((db@, res_view(r)) == spec_validate_user(
                        d1,
                        body.req_view(),
                        Seq::<char>::empty(),
                    ));
                }
            },
        }
        if r is Ok {
            let name = body.username@;
            let n0 = d0.users.len() as int;
            assert(d1.users[n0].username == name);
            assert forall|j: int| 0 <= j < n0 implies (#[trigger] d1.users[j]).username
                != name by {
                assert(d1.users[j] == d0.users[j]);
            }
            lemma_login_lookup_at(d1, name, 0, n0);
            let i = spec_login_lookup(d1, name, 0)->Some_0;
            assert(i == n0);
            if d1.users[i].password == body.password@ {
                let tok = choose|tok: Seq<char>|
                    #[trigger] token_shape_for(tok, d1.users[i].id, d1.users[i].role) && (
                    db@,
                    res_view(r),
                ) == spec_validate_user(d1, body.req_view(), tok);
                assert((db@, res_view(r)) == spec_validate_user(d1, body.req_view(), tok));
                assert(tok == r->Ok_0@);
                assert(db@.sessions == d1.sessions.push(
                    SessionV { jwt: tok, user_id: d1.users[i].id },
                ));
                assert(d1.users[i].id == d0.next_user_id);
                assert(d1.sessions == d0.sessions);
            } else {
                assert(false);
            }
        }
    }
    r
}

/// Index of the final `'.'` of the text, or -1.
pub open spec fn find_last_dot(s: Seq<char>) -> int
    decreases s.len(),
{
    if s.len() == 0 {
        -1
    } else if s.last() == '.' {
        s.len() - 1
    } else {
        find_last_dot(s.drop_last())
    }
}

/// The text splits as `message.signature` with a valid signature under
/// the library's key.
pub open spec fn spec_well_signed(t: Seq<char>) -> bool {
    let j = find_last_dot(t);
    &&& j >= 0
    &&& t.skip(j + 1) == hs512_sig_of(spec_secret(), t.take(j))
}

/// Full functional specification of logout: a token that does not check
/// out cryptographically is an internal fault; a token without a live
/// session is unknown; otherwise its session row is removed.
pub open spec fn spec_logout(d: DbView, token: Seq<char>, sig_ok: bool) -> (DbView, Result<
    (),
    DbError,
>) {
    if !sig_ok {
        (d, Err(DbError::InternalError))
    } else if !d.has_session(token) {
        (d, Err(DbError::NotFound))
    } else {
        (DbView { sessions: d.sessions.remove(d.session_idx(token)), ..d }, Ok(()))
    }
}

/// Index of the final dot of the token, scanned from the end.
fn last_dot(token: &String) -> (r: Option<usize>)
    ensures
        match r {
            Some(j) => j < token@.len() && find_last_dot(token@) == j as int,
            None => find_last_dot(token@) == -1,
        },
{
    let n = token.as_str().unicode_len();
    let mut i: usize = n;
    let mut dot: usize = 0;
    let mut found = false;
    proof {
        assert(token@.take(n as int) =~= token@);
    }
    while i > 0 && !found
        invariant
            i <= n,
            n == token@.len(),
            !found ==> find_last_dot(token@) == find_last_dot(token@.take(i as int)),
            found ==> 1 <= i && dot == i - 1 && token@[dot as int] == '.' && find_last_dot(
                token@,
            ) == dot,
        decreases (if found {
            0int
        } else {
            i + 1
        }),
    {
        if token.as_str().get_char(i - 1) == '.' {
            dot = i - 1;
            found = true;
            proof {
                assert(token@.take(i as int).last() == token@[i as int - 1]);
                assert(find_last_dot(token@.take(i as int)) == i - 1);
            }
        } else {
            proof {
                assert(token@.take(i as int).drop_last() =~= token@.take(i as int - 1));
                assert(token@.take(i as int).last() == token@[i as int - 1]);
            }
            i -= 1;
        }
    }
    if found {
        Some(dot)
    } else {
        proof {
            assert(token@.take(0) =~= Seq::<char>::empty());
        }
        None
    }
}

/// Whether the text splits as `message.signature` with a valid signature
/// under the library's key; the executable counterpart of
/// [`spec_well_signed`].
pub fn token_well_signed(token: &String) -> (r: bool)
    ensures
        r == spec_well_signed(token@),
{
    let dot = match last_dot(token) {
        None => {
            return false;
        },
        Some(j) => j,
    };
    let n = token.as_str().unicode_len();
    let msg = token.as_str().substring_char(0, dot);
    let sig = token.as_str().substring_char(dot + 1, n);
    let key = crate::jwt::secret_bytes();
    let ok = crate::jwt::verify_hs512(key.as_slice(), msg, sig);
    proof {
        assert(msg@ =~= token@.take(dot as int));
        assert(sig@ =~= token@.skip(dot as int + 1));
    }
    ok
}

/// The logout route: check the token's signature, then delete its
/// session row.
pub fn logout(db: &mut Db, body: &LogoutRequest) -> (r: Result<(), DbError>)
    requires
        old(db)@.wf(),
    ensures
        final(db)@.wf(),
        (final(db)@, r) == spec_logout(
            old(db)@,
            body.token@,
            spec_well_signed(body.token@),
        ),
{
    let ghost d0 = db@;
    let token = &body.token;
    let ok = token_well_signed(token);
    if !ok {
        return Err(DbError::InternalError);
    }
    match db.find_session(token) {
        None => Err(DbError::NotFound),
        Some(si) => {
            proof {
                let ci = d0.session_idx(token@);
                assert(0 <= ci < d0.sessions.len() && d0.sessions[ci].jwt == token@);
                if ci != si as int {
                    if ci < si as int {
                        assert(d0.sessions[ci].jwt != d0.sessions[si as int].jwt);
                    } else {
                        assert(d0.sessions[si as int].jwt != d0.sessions[ci].jwt);
                    }
                }
                assert(ci == si as int);
            }
            db.sessions.remove(si);
            proof {
                assert(db@.sessions =~= d0.sessions.remove(si as int));
                assert(db@ =~= (DbView { sessions: d0.sessions.remove(si as int), ..d0 }));
                lemma_session_removed_wf(d0, si as int);
            }
            Ok(())
        },
    }
}

/// Whether a live session row backs the token.
pub fn validate_session(db: &Db, token: &String) -> (r: Result<(), DbError>)
    ensures
        r == if db@.has_session(token@) {
            Ok::<(), DbError>(())
        } else {
            Err::<(), DbError>(DbError::NotFound)
        },
{
    match db.find_session(token) {
        Some(_) => Ok(()),
        None => Err(DbError::NotFound),
    }
}


/// First position at or after `p` holding a dot, or the end of the text.
pub open spec fn find_dot(s: Seq<char>, p: int) -> int
    decreases s.len() - p,
{
    if 0 <= p < s.len() {
        if s[p] == '.' {
            p
        } else {
            find_dot(s, p + 1)
        }
    } else {
        p
    }
}

/// If nothing before `q` is a dot and `q` — when inside the text — is
/// one, the scan from `p` stops exactly at `q`.
proof fn lemma_find_dot_is(s: Seq<char>, p: int, q: int)
    requires
        0 <= p <= q <= s.len(),
        forall|k: int| p <= k < q ==> (#[trigger] s[k]) != '.',
        q < s.len() ==> s[q] == '.',
    ensures
        find_dot(s, p) == q,
    decreases q - p,
{
    if p < q {
        lemma_find_dot_is(s, p + 1, q);
    }
}

/// If the dot at `q` is the last one, the backwards scan finds exactly it.
proof fn lemma_find_last_dot_is(s: Seq<char>, q: int)
    requires
        0 <= q < s.len(),
        s[q] == '.',
        forall|k: int| q < k < s.len() ==> (#[trigger] s[k]) != '.',
    ensures
        find_last_dot(s) == q,
    decreases s.len(),
{
    if q == s.len() - 1 {
    } else {
        assert(s.last() != '.');
        assert(s.drop_last()[q] == s[q]);
        assert(forall|k: int| q < k < s.drop_last().len() ==> (#[trigger] s.drop_last()[k]) != '.');
        lemma_find_last_dot_is(s.drop_last(), q);
    }
}

/// Full functional specification of token validation: the signature must
/// check out, the header must be this library's, the payload must decode
/// and parse as a claim set, a live session row must back the token, and
/// the expiry claim must lie in the future.
pub open spec fn spec_validate_token(d: DbView, t: Seq<char>, now: int) -> Result<
    ClaimsV,
    JwtError,
> {
    if !spec_well_signed(t) {
        Err(JwtError::InvalidToken)
    } else {
        let j = find_last_dot(t);
        let i = find_dot(t, 0);
        if i >= j {
            Err(JwtError::InvalidToken)
        } else if t.take(i) != crate::jwt::spec_b64url(crate::jwt::header_json()) {
            Err(JwtError::InvalidToken)
        } else {
            match crate::jwt::spec_b64url_decode(t.subrange(i + 1, j)) {
                None => Err(JwtError::InvalidToken),
                Some(payload) => match crate::jwt::spec_parse_claims(payload) {
                    None => Err(JwtError::InvalidToken),
                    Some(c) => if !d.has_session(t) {
                        Err(JwtError::InvalidToken)
                    } else if c.exp <= now {
                        Err(JwtError::InvalidToken)
                    } else {
                        Ok(c)
                    },
                },
            }
        }
    }
}

/// Check a bearer token in full: signature, header, payload, live
/// session, expiry.  Hands back the claim set it carries.
pub fn validate_token(db: &Db, token: &String, now: i64) -> (r: Result<Claims, JwtError>)
    ensures
        match r {
            Ok(c) => spec_validate_token(db@, token@, now as int) == Ok::<ClaimsV, JwtError>(c@),
            Err(e) => spec_validate_token(db@, token@, now as int) == Err::<ClaimsV, JwtError>(
                e,
            ),
        },
{
    if !token_well_signed(token) {
        return Err(JwtError::InvalidToken);
    }
    let n = token.as_str().unicode_len();
    let mut i: usize = 0;
    while i < n && token.as_str().get_char(i) != '.'
        invariant
            i <= n,
            n == token@.len(),
            find_dot(token@, 0) == find_dot(token@, i as int),
            forall|k: int| 0 <= k < i ==> (#[trigger] token@[k]) != '.',
        decreases n - i,
    {
        i += 1;
    }
    proof {
        assert(find_dot(token@, 0) == i as int);
    }
    let j = match last_dot(token) {
        None => {
            proof {
                assert(false);
            }
            return Err(JwtError::InvalidToken);
        },
        Some(j) => j,
    };
    if i >= j {
        return Err(JwtError::InvalidToken);
    }
    proof {
        reveal_strlit("{\"typ\":\"JWT\",\"alg\":\"HS512\"}");
        assert(crate::jwt::all_ascii(crate::jwt::header_json()));
    }
    let hb = crate::jwt::b64url_of_str("{\"typ\":\"JWT\",\"alg\":\"HS512\"}");
    let hn = hb.as_str().unicode_len();
    let ghost hbs = crate::jwt::spec_b64url(crate::jwt::header_json());
    if i != hn {
        proof {
            assert(token@.take(i as int).len() != hbs.len());
        }
        return Err(JwtError::InvalidToken);
    }
    let mut k: usize = 0;
    while k < hn
        invariant
            k <= hn,
            i == hn,
            i < j < n,
            n == token@.len(),
            hb@ == hbs,
            hn == hb@.len(),
            spec_well_signed(token@),
            find_last_dot(token@) == j as int,
            find_dot(token@, 0) == i as int,
            hbs == crate::jwt::spec_b64url(crate::jwt::header_json()),
            forall|t: int| 0 <= t < k ==> token@[t] == hb@[t],
        decreases hn - k,
    {
        if token.as_str().get_char(k) != hb.as_str().get_char(k) {
            proof {
                assert(token@.take(i as int)[k as int] != hbs[k as int]);
            }
            return Err(JwtError::InvalidToken);
        }
        k += 1;
    }
    proof {
        assert(token@.take(i as int) =~= hbs);
    }
    let payload = token.as_str().substring_char(i + 1, j);
    proof {
        assert(payload@ =~= token@.subrange(i as int + 1, j as int));
    }
    let decoded = match crate::jwt::b64url_decode(payload) {
        None => {
            return Err(JwtError::InvalidToken);
        },
        Some(d) => d,
    };
    let claims = match crate::jwt::parse_claims(decoded.as_str()) {
        None => {
            return Err(JwtError::InvalidToken);
        },
        Some(c) => c,
    };
    match db.find_session(token) {
        None => {
            return Err(JwtError::InvalidToken);
        },
        Some(si) => {
            proof {
                assert(db@.sessions[si as int].jwt == token@);
                assert(db@.has_session(token@));
            }
        },
    }
    if now >= 0 && (claims.exp as u64) <= (now as u64) {
        return Err(JwtError::InvalidToken);
    }
    proof {
        assert(claims@.exp > now as int);
        assert(spec_validate_token(db@, token@, now as int) == Ok::<ClaimsV, JwtError>(claims@));
    }
    Ok(claims)
}



/// Law: a token this library minted validates, as long as its session
/// row is live and its expiry claim lies ahead of the clock.  The one
/// fact taken about the signature is what the crypto boundary
/// guarantees of every real one: base64url text holds no dot.
pub proof fn lemma_validate_minted_token(d: DbView, c: ClaimsV, now: int)
    requires
        0 <= c.sub <= usize::MAX,
        0 <= c.exp <= usize::MAX,
        c.role == spec_role_name(1) || c.role == spec_role_name(2) || c.role == spec_role_name(
            3,
        ),
        forall|k: int|
            0 <= k < hs512_sig_of(spec_secret(), crate::jwt::signing_input(c)).len()
                ==> (#[trigger] hs512_sig_of(spec_secret(), crate::jwt::signing_input(c))[k])
                != '.',
        d.has_session(spec_token(c)),
        c.exp > now,
    ensures
        spec_validate_token(d, spec_token(c), now) == Ok::<ClaimsV, JwtError>(c),
{
    reveal_strlit("admin");
    reveal_strlit("moderator");
    reveal_strlit("user");
    reveal_strlit("{\"typ\":\"JWT\",\"alg\":\"HS512\"}");
    reveal_strlit("{\"sub\":");
    reveal_strlit(",\"role\":\"");
    reveal_strlit("\",\"exp\":");
    reveal_strlit("}");
    let t = spec_token(c);
    let cj = crate::jwt::claims_json(c);
    let hb = crate::jwt::spec_b64url(crate::jwt::header_json());
    let pb = crate::jwt::spec_b64url(cj);
    let si = crate::jwt::signing_input(c);
    let sig = hs512_sig_of(spec_secret(), si);
    crate::jwt::lemma_dec_digits_ascii(c.sub);
    crate::jwt::lemma_dec_digits_ascii(c.exp);
    assert(crate::jwt::all_ascii(c.role));
    assert(crate::jwt::all_ascii(cj));
    assert(crate::jwt::all_ascii(crate::jwt::header_json()));
    crate::jwt::lemma_b64url_in_alphabet(crate::jwt::header_json());
    crate::jwt::lemma_b64url_in_alphabet(cj);
    // The last dot separates the signature.
    assert(t[si.len() as int] == '.');
    assert forall|k: int| si.len() < k < t.len() implies (#[trigger] t[k]) != '.' by {
        assert(t[k] == sig[k - si.len() - 1]);
    }
    lemma_find_last_dot_is(t, si.len() as int);
    assert(t.skip(si.len() as int + 1) =~= sig);
    assert(t.take(si.len() as int) =~= si);
    assert(spec_well_signed(t));
    // The first dot separates the header.
    assert(t[hb.len() as int] == '.');
    assert forall|k: int| 0 <= k < hb.len() implies (#[trigger] t[k]) != '.' by {
        assert(t[k] == hb[k]);
    }
    lemma_find_dot_is(t, 0, hb.len() as int);
    assert(find_dot(t, 0) == hb.len());
    assert(hb.len() < si.len());
    assert(t.take(hb.len() as int) =~= hb);
    assert(t.subrange(hb.len() as int + 1, si.len() as int) =~= pb);
    crate::jwt::lemma_b64url_round_trip(cj);
    assert forall|i: int| 0 <= i < c.role.len() implies (#[trigger] c.role[i]) != '"' by {}
    crate::jwt::lemma_parse_claims_round_trip(c);
    assert(spec_validate_token(d, t, now) == Ok::<ClaimsV, JwtError>(c));
}


/// The Authorization Gate ahead of every protected route: resolve the
/// bearer header, validate the token in full — signature, header, claim
/// set, live session, expiry — and require the claimed role to meet the
/// route's.  On success the claimed subject identifies the caller.
pub fn authorize(db: &Db, header: Option<&String>, required: Role, now: i64) -> (r: Result<
    i32,
    crate::errors::AuthError,
>)
    ensures
        ({
            let denied = Err::<i32, crate::errors::AuthError>(
                crate::errors::AuthError::Unauthorized,
            );
            match header {
                None => r == denied,
                Some(h) => {
                    if !(h@.len() >= 7 && h@.subrange(0, 7) == "Bearer "@) {
                        r == denied
                    } else {
                        match spec_validate_token(
                            db@,
                            crate::jwt::strip_bearer(h@),
                            now as int,
                        ) {
                            Err(_) => r == denied,
                            Ok(c) => match crate::role::spec_role_of_name(c.role) {
                                None => r == denied,
                                Some(role) => if c.sub > i32::MAX {
                                    r == denied
                                } else if role.spec_rank() <= required.spec_rank() {
                                    r matches Ok(u) && u == c.sub
                                } else {
                                    r == Err::<i32, crate::errors::AuthError>(
                                        crate::errors::AuthError::Forbidden,
                                    )
                                },
                            },
                        }
                    }
                },
            }
        }),
{
    let token = match crate::jwt::jwt_from_header(header) {
        Ok(t) => t,
        Err(_) => {
            return Err(crate::errors::AuthError::Unauthorized);
        },
    };
    let claims = match validate_token(db, &token, now) {
        Ok(c) => c,
        Err(_) => {
            return Err(crate::errors::AuthError::Unauthorized);
        },
    };
    let role = match Role::parse(&claims.role) {
        Some(role) => role,
        None => {
            return Err(crate::errors::AuthError::Unauthorized);
        },
    };
    if claims.sub > i32::MAX as usize {
        return Err(crate::errors::AuthError::Unauthorized);
    }
    if role.satisfies(required) {
        Ok(claims.sub as i32)
    } else {
        Err(crate::errors::AuthError::Forbidden)
    }
}

} // verus!
