use vstd::prelude::*;

use crate::counting::lemma_count_where_zero;
use crate::errors::DbError;
use crate::model::{Db, DbView, FollowV, User, UserV};
use crate::requests::AuthRequest;

verus! {

/// A row of the followers / following queries: the join of a follow edge
/// with the `user` table, projected to id and username.
pub struct FollowersOfUser {
    pub id: i32,
    pub username: String,
}

#[verifier::ext_equal]
pub struct FollowersOfUserV {
    pub id: int,
    pub username: Seq<char>,
}

impl View for FollowersOfUser {
    type V = FollowersOfUserV;

    open spec fn view(&self) -> FollowersOfUserV {
        FollowersOfUserV { id: self.id as int, username: self.username@ }
    }
}

/// View of an authentication request.
pub struct AuthRequestV {
    pub username: Seq<char>,
    pub password: Seq<char>,
    pub email: Seq<char>,
}

impl AuthRequest {
    pub open spec fn req_view(&self) -> AuthRequestV {
        AuthRequestV {
            username: self.username@,
            password: self.password@,
            email: self.email@,
        }
    }
}

/// Whether some user row already carries this exact username.
pub open spec fn username_taken(d: DbView, name: Seq<char>) -> bool {
    exists|i: int| 0 <= i < d.users.len() && (#[trigger] d.users[i]).username == name
}

/// The state after a user row was inserted: the next free id, the given
/// credentials, zeroed counters, the default role, the given creation time.
pub open spec fn spec_user_created(d: DbView, req: AuthRequestV, now: int) -> DbView {
    DbView {
        users: d.users.push(
            UserV {
                id: d.next_user_id,
                username: req.username,
                email: req.email,
                password: req.password,
                followers: 0,
                following: 0,
                role: 3,
                created_at: now,
            },
        ),
        next_user_id: d.next_user_id + 1,
        ..d
    }
}

/// Full functional specification of user creation.  A taken username is a
/// client error and creates no row; an exhausted id cursor is a store
/// fault.
pub open spec fn spec_create_user(d: DbView, req: AuthRequestV, now: int) -> (DbView, Result<
    (),
    DbError,
>) {
    if username_taken(d, req.username) {
        (d, Err(DbError::AlreadyExists))
    } else if d.next_user_id >= i32::MAX {
        (d, Err(DbError::InternalError))
    } else {
        (spec_user_created(d, req, now), Ok(()))
    }
}

/// Insertion of a fresh user row preserves the store invariant.
pub proof fn lemma_user_created_wf(d: DbView, req: AuthRequestV, now: int)
    requires
        d.wf(),
        !username_taken(d, req.username),
        d.next_user_id < i32::MAX,
    ensures
        spec_user_created(d, req, now).wf(),
{
    let d2 = spec_user_created(d, req, now);
    assert forall|x: int| d.has_user(x) implies d2.has_user(x) by {
        let i = choose|i: int| 0 <= i < d.users.len() && (#[trigger] d.users[i]).id == x;
        assert(d2.users[i].id == x);
    }
    assert forall|i: int, j: int|
        0 <= i < j < d2.users.len() implies (#[trigger] d2.users[i]).id != (
    #[trigger] d2.users[j]).id && d2.users[i].username != d2.users[j].username by {
        if j < d.users.len() {
            assert(d2.users[i] == d.users[i] && d2.users[j] == d.users[j]);
        } else {
            assert(d2.users[i] == d.users[i]);
            assert(d.users[i].id < d.next_user_id);
            assert(d.users[i].username != req.username);
        }
    }
    assert(d2.users_wf());
    // No edge can reference the fresh id yet.
    assert forall|i: int|
        0 <= i < d.follows.len() implies (#[trigger] d.follows[i]).user_id != d.next_user_id
        && d.follows[i].follower_id != d.next_user_id by {
        let j = choose|j: int|
            0 <= j < d.users.len() && (#[trigger] d.users[j]).id == d.follows[i].user_id;
        assert(d.users[j].id < d.next_user_id);
        let k = choose|k: int|
            0 <= k < d.users.len() && (#[trigger] d.users[k]).id == d.follows[i].follower_id;
        assert(d.users[k].id < d.next_user_id);
    }
    lemma_count_where_zero(d.follows, |x: FollowV| x.user_id == d.next_user_id);
    lemma_count_where_zero(d.follows, |x: FollowV| x.follower_id == d.next_user_id);
    assert forall|i: int| 0 <= i < d2.users.len() implies {
        &&& (#[trigger] d2.users[i]).followers == d2.followers_of(d2.users[i].id)
        &&& d2.users[i].following == d2.following_of(d2.users[i].id)
    } by {
        if i < d.users.len() {
            assert(d.users[i].followers == d.followers_of(d.users[i].id));
            assert(d.users[i].following == d.following_of(d.users[i].id));
        }
    }
    assert(d2.counters_wf());
    assert(d2.follows_wf());
    assert(d2.posts_wf());
    assert forall|i: int| 0 <= i < d2.posts.len() implies (#[trigger] d2.posts[i]).likes
        == d2.likes_of(d2.posts[i].id) by {
        assert(d.posts[i].likes == d.likes_of(d.posts[i].id));
    }
    assert(d2.likes_wf());
    assert(d2.sessions_wf());
}

impl Db {
    /// Index of the first user row carrying exactly this username, if any.
    pub fn find_user_by_name(&self, name: &String) -> (r: Option<usize>)
        ensures
            match r {
                Some(i) => {
                    &&& i < self.users.len()
                    &&& self@.users[i as int].username == name@
                    &&& forall|j: int|
                        0 <= j < i ==> (#[trigger] self@.users[j]).username != name@
                },
                None => !username_taken(self@, name@),
            },
    {
        let n = self.users.len();
        let mut i: usize = 0;
        while i < n
            invariant
                i <= n,
                n == self.users.len(),
                forall|j: int| 0 <= j < i ==> (#[trigger] self@.users[j]).username != name@,
            decreases n - i,
        {
            if self.users[i].username == *name {
                return Some(i);
            }
            i += 1;
        }
        None
    }
}

/// All user rows, in table order.
pub fn list(db: &Db) -> (r: Vec<User>)
    ensures
        r@.map_values(|u: User| u@) == db@.users,
{
    let mut out: Vec<User> = Vec::new();
    let n = db.users.len();
    let mut i: usize = 0;
    while i < n
        invariant
            i <= n,
            n == db.users.len(),
            out@.map_values(|u: User| u@) =~= db@.users.take(i as int),
        decreases n - i,
    {
        let ghost prev = out@;
        out.push(db.users[i].duplicate());
        proof {
            assert(out@.map_values(|u: User| u@) =~= prev.map_values(|u: User| u@).push(
                db@.users[i as int],
            ));
            assert(db@.users.take(i as int).push(db@.users[i as int]) =~= db@.users.take(
                i as int + 1,
            ));
        }
        i += 1;
    }
    proof {
        assert(db@.users.take(n as int) =~= db@.users);
    }
    out
}

/// The user with the given id, or `NotFound`.
pub fn get_by_id(db: &Db, id: i32) -> (r: Result<User, DbError>)
    requires
        db@.wf(),
    ensures
        db@.has_user(id as int) ==> (r matches Ok(u) && u@ == db@.user_of(id as int)),
        !db@.has_user(id as int) ==> r == Err::<User, DbError>(DbError::NotFound),
{
    match db.find_user(id) {
        None => Err(DbError::NotFound),
        Some(i) => {
            proof {
                let ci = db@.user_idx(id as int);
                assert(0 <= ci < db@.users.len() && db@.users[ci].id == id as int);
                if ci != i as int {
                    if ci < i as int {
                        assert(db@.users[ci].id != db@.users[i as int].id);
                    } else {
                        assert(db@.users[i as int].id != db@.users[ci].id);
                    }
                }
            }
            Ok(db.users[i].duplicate())
        },
    }
}

/// The user carrying exactly this username, or `NotFound`.
pub fn get_by_username(db: &Db, username: &String) -> (r: Result<User, DbError>)
    ensures
        username_taken(db@, username@) ==> (r matches Ok(u) && u@.username == username@
            && db@.users.contains(u@)),
        !username_taken(db@, username@) ==> r == Err::<User, DbError>(DbError::NotFound),
{
    match db.find_user_by_name(username) {
        None => Err(DbError::NotFound),
        Some(i) => {
            let u = db.users[i].duplicate();
            proof {
                assert(db@.users[i as int] == u@);
            }
            Ok(u)
        },
    }
}

/// `AlreadyExists` when a user with this id is present — the sense the
/// registration path expects.
pub fn check_user_by_id(db: &Db, id: i32) -> (r: Result<(), DbError>)
    ensures
        r == if db@.has_user(id as int) {
            Err::<(), DbError>(DbError::AlreadyExists)
        } else {
            Ok::<(), DbError>(())
        },
{
    match db.find_user(id) {
        Some(_) => Err(DbError::AlreadyExists),
        None => Ok(()),
    }
}

/// `AlreadyExists` when a user with exactly this username is present.
pub fn check_user_by_username(db: &Db, username: &String) -> (r: Result<(), DbError>)
    ensures
        r == if username_taken(db@, username@) {
            Err::<(), DbError>(DbError::AlreadyExists)
        } else {
            Ok::<(), DbError>(())
        },
{
    match db.find_user_by_name(username) {
        Some(_) => Err(DbError::AlreadyExists),
        None => Ok(()),
    }
}

/// User creation at a fixed timestamp.
pub fn create_at(db: &mut Db, req: &AuthRequest, now: i64) -> (r: Result<(), DbError>)
    requires
        old(db)@.wf(),
    ensures
        final(db)@.wf(),
        (final(db)@, r) == spec_create_user(old(db)@, req.req_view(), now as int),
{
    let ghost d0 = db@;
    if db.find_user_by_name(&req.username).is_some() {
        return Err(DbError::AlreadyExists);
    }
    if db.next_user_id >= i32::MAX {
        return Err(DbError::InternalError);
    }
    let user = User {
        id: db.next_user_id,
        username: req.username.clone(),
        email: req.email.clone(),
        password: req.password.clone(),
        followers: 0,
        following: 0,
        role: 3,
        created_at: now,
    };
    db.users.push(user);
    db.next_user_id = db.next_user_id + 1;
    proof {
        assert(db@.users =~= d0.users.push(
            UserV {
                id: d0.next_user_id,
                username: req.username@,
                email: req.email@,
                password: req.password@,
                followers: 0,
                following: 0,
                role: 3,
                created_at: now as int,
            },
        ));
        assert(db@ =~= spec_user_created(d0, req.req_view(), now as int));
        lemma_user_created_wf(d0, req.req_view(), now as int);
    }
    Ok(())
}

/// User creation as the registration handler runs it, with the creation
/// time read from the wall clock.
pub fn create(db: &mut Db, req: &AuthRequest) -> (r: Result<(), DbError>)
    requires
        old(db)@.wf(),
    ensures
        final(db)@.wf(),
        exists|t: int|
            (final(db)@, r) == #[trigger] spec_create_user(old(db)@, req.req_view(), t),
        r is Err <==> username_taken(old(db)@, req.username@) || old(db)@.next_user_id
            >= i32::MAX,
        username_taken(old(db)@, req.username@) ==> r == Err::<(), DbError>(
            DbError::AlreadyExists,
        ) && final(db)@ == old(db)@,
{
    let now = crate::clock::now_ts();
    let r = create_at(db, req, now);
    proof {
        assert((db@, r) == spec_create_user(old(db)@, req.req_view(), now as int));
    }
    r
}

// ---------------------------------------------------------------------------
// The followers / following queries: a join with the user table, ordered
// by the edge's creation time, newest first.
// ---------------------------------------------------------------------------

/// Views of (creation time, user id) rows.
pub open spec fn pair_views(s: Seq<(i64, i32)>) -> Seq<(int, int)> {
    s.map_values(|p: (i64, i32)| (p.0 as int, p.1 as int))
}

/// Sorted newest first by the edge's creation time.
pub open spec fn pairs_sorted_desc(s: Seq<(int, int)>) -> bool {
    forall|i: int, j: int| 0 <= i <= j < s.len() ==> (#[trigger] s[i]).0 >= (#[trigger] s[j]).0
}

/// The follow edges pointing at `uid`, projected to (creation time,
/// follower id), in table order.
pub open spec fn follower_pairs(d: DbView, uid: int) -> Seq<(int, int)> {
    d.follows.filter(|e: FollowV| e.user_id == uid).map_values(
        |e: FollowV| (e.created_at, e.follower_id),
    )
}

/// The follow edges originating at `uid`, projected to (creation time,
/// followed user id), in table order.
pub open spec fn following_pairs(d: DbView, uid: int) -> Seq<(int, int)> {
    d.follows.filter(|e: FollowV| e.follower_id == uid).map_values(
        |e: FollowV| (e.created_at, e.user_id),
    )
}

/// Newest-first selection sort on (creation time, id) rows.
fn sort_pairs_desc(input: Vec<(i64, i32)>) -> (r: Vec<(i64, i32)>)
    ensures
        pair_views(r@).to_multiset() == pair_views(input@).to_multiset(),
        pairs_sorted_desc(pair_views(r@)),
{
    broadcast use vstd::seq_lib::group_to_multiset_ensures;

    let ghost orig = pair_views(input@);
    let mut rest = input;
    let mut out: Vec<(i64, i32)> = Vec::new();
    while rest.len() > 0
        invariant
            pair_views(out@).to_multiset().add(pair_views(rest@).to_multiset())
                == orig.to_multiset(),
            pairs_sorted_desc(pair_views(out@)),
            forall|a: int, b: int|
                0 <= a < out@.len() && 0 <= b < rest@.len() ==> (#[trigger] out@[a]).0 >= (
                #[trigger] rest@[b]).0,
        decreases rest.len(),
    {
        let mut m: usize = 0;
        let mut k: usize = 1;
        while k < rest.len()
            invariant
                m < k <= rest.len(),
                forall|t: int| 0 <= t < k ==> (#[trigger] rest@[t]).0 <= rest@[m as int].0,
            decreases rest.len() - k,
        {
            if rest[k].0 > rest[m].0 {
                m = k;
            }
            k += 1;
        }
        let ghost restv0 = pair_views(rest@);
        let ghost outv0 = pair_views(out@);
        let x = rest.remove(m);
        out.push(x);
        proof {
            broadcast use vstd::seq_lib::group_to_multiset_ensures;

            let xv = (x.0 as int, x.1 as int);
            assert(pair_views(rest@) =~= restv0.remove(m as int));
            assert(pair_views(out@) =~= outv0.push(xv));
            assert(restv0[m as int] == xv);
            assert(restv0.contains(restv0[m as int]));
            assert(restv0.to_multiset().count(xv) > 0);
            assert(pair_views(out@).to_multiset().add(pair_views(rest@).to_multiset()) =~= outv0
                .to_multiset().add(restv0.to_multiset()));
            assert forall|a: int, b: int|
                0 <= a < out@.len() && 0 <= b < rest@.len() implies (#[trigger] out@[a]).0 >= (
            #[trigger] rest@[b]).0 by {
                let b0 = if b < m as int {
                    b
                } else {
                    b + 1
                };
                if a < out@.len() - 1 {
                    assert(out@[a].0 >= restv0[b0].0);
                } else {
                    assert(out@[a] == x);
                    assert(restv0[b0].0 <= restv0[m as int].0);
                }
            }
            assert forall|i: int, j: int|
                0 <= i <= j < pair_views(out@).len() implies (
            #[trigger] pair_views(out@)[i]).0 >= (#[trigger] pair_views(out@)[j]).0 by {
                if j < out@.len() - 1 {
                    assert(outv0[i].0 >= outv0[j].0);
                } else if i < j {
                    assert(out@[i].0 >= restv0[m as int].0);
                }
            }
        }
    }
    proof {
        assert(pair_views(rest@).to_multiset() =~= vstd::multiset::Multiset::<(int, int)>::empty());
        assert(pair_views(out@).to_multiset().add(
            vstd::multiset::Multiset::<(int, int)>::empty(),
        ) =~= pair_views(out@).to_multiset());
    }
    out
}

/// Join each (creation time, user id) row with the user table.
fn pairs_to_entries(db: &Db, v: &Vec<(i64, i32)>) -> (r: Vec<FollowersOfUser>)
    requires
        db@.wf(),
        forall|k: int| 0 <= k < v@.len() ==> db@.has_user(((#[trigger] v@[k]).1) as int),
    ensures
        r@.map_values(|f: FollowersOfUser| f@) == pair_views(v@).map_values(
            |p: (int, int)| FollowersOfUserV { id: p.1, username: db@.user_of(p.1).username },
        ),
{
    let ghost target = pair_views(v@).map_values(
        |p: (int, int)| FollowersOfUserV { id: p.1, username: db@.user_of(p.1).username },
    );
    let mut out: Vec<FollowersOfUser> = Vec::new();
    let n = v.len();
    let mut i: usize = 0;
    while i < n
        invariant
            i <= n,
            n == v@.len(),
            db@.wf(),
            forall|k: int| 0 <= k < v@.len() ==> db@.has_user(((#[trigger] v@[k]).1) as int),
            target == pair_views(v@).map_values(
                |p: (int, int)| FollowersOfUserV {
                    id: p.1,
                    username: db@.user_of(p.1).username,
                },
            ),
            out@.map_values(|f: FollowersOfUser| f@) == target.take(i as int),
        decreases n - i,
    {
        let id = v[i].1;
        let ui = match db.find_user(id) {
            Some(u) => u,
            None => {
                proof {
                    assert(false);
                }
                0
            },
        };
        proof {
            let cu = db@.user_idx(id as int);
            assert(0 <= cu < db@.users.len() && db@.users[cu].id == id as int);
            if cu != ui as int {
                if cu < ui as int {
                    assert(db@.users[cu].id != db@.users[ui as int].id);
                } else {
                    assert(db@.users[ui as int].id != db@.users[cu].id);
                }
            }
            assert(cu == ui as int);
        }
        let ghost prev = out@;
        out.push(FollowersOfUser { id: id, username: db.users[ui].username.clone() });
        proof {
            assert(out@.map_values(|f: FollowersOfUser| f@) =~= prev.map_values(
                |f: FollowersOfUser| f@,
            ).push(target[i as int]));
            assert(target.take(i as int).push(target[i as int]) =~= target.take(i as int + 1));
        }
        i += 1;
    }
    proof {
        assert(target.take(n as int) =~= target);
    }
    out
}

/// The users following `user_id`, newest subscription first: for some
/// newest-first ordering of the matching follow edges, the join of each
/// edge with its follower's user row.
pub fn get_user_followers(db: &Db, user_id: i32) -> (r: Vec<FollowersOfUser>)
    requires
        db@.wf(),
    ensures
        exists|sp: Seq<(int, int)>|
            {
                &&& #[trigger] sp.to_multiset() == follower_pairs(db@, user_id as int)
                    .to_multiset()
                &&& pairs_sorted_desc(sp)
                &&& r@.map_values(|f: FollowersOfUser| f@) == sp.map_values(
                    |p: (int, int)| FollowersOfUserV {
                        id: p.1,
                        username: db@.user_of(p.1).username,
                    },
                )
            },
{
    broadcast use vstd::seq_lib::group_to_multiset_ensures;

    let ghost pred = |e: FollowV| e.user_id == user_id as int;
    let mut picked: Vec<(i64, i32)> = Vec::new();
    let n = db.follows.len();
    let mut i: usize = 0;
    while i < n
        invariant
            i <= n,
            n == db.follows.len(),
            db@.wf(),
            pred == (|e: FollowV| e.user_id == user_id as int),
            pair_views(picked@) == db@.follows.take(i as int).filter(pred).map_values(
                |e: FollowV| (e.created_at, e.follower_id),
            ),
            forall|k: int| 0 <= k < picked@.len() ==> db@.has_user(((#[trigger] picked@[k]).1) as int),
        decreases n - i,
    {
        let ghost prev = picked@;
        let e = &db.follows[i];
        if e.user_id == user_id {
            picked.push((e.created_at, e.follower_id));
            proof {
                assert(db@.has_user(db@.follows[i as int].follower_id));
            }
        }
        proof {
            crate::counting::lemma_filter_take_step(db@.follows, pred, i as int);
            if pred(db@.follows[i as int]) {
                assert(pair_views(picked@) =~= pair_views(prev).push(
                    (db@.follows[i as int].created_at, db@.follows[i as int].follower_id),
                ));
                assert(db@.follows.take(i as int + 1).filter(pred).map_values(
                    |e: FollowV| (e.created_at, e.follower_id),
                ) =~= db@.follows.take(i as int).filter(pred).map_values(
                    |e: FollowV| (e.created_at, e.follower_id),
                ).push((db@.follows[i as int].created_at, db@.follows[i as int].follower_id)));
            } else {
                assert(db@.follows.take(i as int + 1).filter(pred) == db@.follows.take(
                    i as int,
                ).filter(pred));
            }
        }
        i += 1;
    }
    proof {
        assert(db@.follows.take(n as int) =~= db@.follows);
    }
    let ghost collected = pair_views(picked@);
    let sorted = sort_pairs_desc(picked);
    proof {
        assert forall|k: int| 0 <= k < sorted@.len() implies db@.has_user(
            ((#[trigger] sorted@[k]).1) as int,
        ) by {
            let sp = pair_views(sorted@);
            assert(sp[k] == (sorted@[k].0 as int, sorted@[k].1 as int));
            assert(sp.contains(sp[k]));
            assert(sp.to_multiset().count(sp[k]) > 0);
            assert(collected.to_multiset().count(sp[k]) > 0);
            assert(collected.contains(sp[k]));
            let j = choose|j: int| 0 <= j < collected.len() && collected[j] == sp[k];
            assert(collected[j].1 == sp[k].1);
        }
    }
    let r = pairs_to_entries(db, &sorted);
    proof {
        let sp = pair_views(sorted@);
        assert(sp.to_multiset() == follower_pairs(db@, user_id as int).to_multiset());
        assert(pairs_sorted_desc(sp));
    }
    r
}

/// The users `user_id` follows, newest subscription first.
pub fn get_user_following(db: &Db, user_id: i32) -> (r: Vec<FollowersOfUser>)
    requires
        db@.wf(),
    ensures
        exists|sp: Seq<(int, int)>|
            {
                &&& #[trigger] sp.to_multiset() == following_pairs(db@, user_id as int)
                    .to_multiset()
                &&& pairs_sorted_desc(sp)
                &&& r@.map_values(|f: FollowersOfUser| f@) == sp.map_values(
                    |p: (int, int)| FollowersOfUserV {
                        id: p.1,
                        username: db@.user_of(p.1).username,
                    },
                )
            },
{
    broadcast use vstd::seq_lib::group_to_multiset_ensures;

    let ghost pred = |e: FollowV| e.follower_id == user_id as int;
    let mut picked: Vec<(i64, i32)> = Vec::new();
    let n = db.follows.len();
    let mut i: usize = 0;
    while i < n
        invariant
            i <= n,
            n == db.follows.len(),
            db@.wf(),
            pred == (|e: FollowV| e.follower_id == user_id as int),
            pair_views(picked@) == db@.follows.take(i as int).filter(pred).map_values(
                |e: FollowV| (e.created_at, e.user_id),
            ),
            forall|k: int| 0 <= k < picked@.len() ==> db@.has_user(((#[trigger] picked@[k]).1) as int),
        decreases n - i,
    {
        let ghost prev = picked@;
        let e = &db.follows[i];
        if e.follower_id == user_id {
            picked.push((e.created_at, e.user_id));
            proof {
                assert(db@.has_user(db@.follows[i as int].user_id));
            }
        }
        proof {
            crate::counting::lemma_filter_take_step(db@.follows, pred, i as int);
            if pred(db@.follows[i as int]) {
                assert(pair_views(picked@) =~= pair_views(prev).push(
                    (db@.follows[i as int].created_at, db@.follows[i as int].user_id),
                ));
                assert(db@.follows.take(i as int + 1).filter(pred).map_values(
                    |e: FollowV| (e.created_at, e.user_id),
                ) =~= db@.follows.take(i as int).filter(pred).map_values(
                    |e: FollowV| (e.created_at, e.user_id),
                ).push((db@.follows[i as int].created_at, db@.follows[i as int].user_id)));
            } else {
                assert(db@.follows.take(i as int + 1).filter(pred) == db@.follows.take(
                    i as int,
                ).filter(pred));
            }
        }
        i += 1;
    }
    proof {
        assert(db@.follows.take(n as int) =~= db@.follows);
    }
    let ghost collected = pair_views(picked@);
    let sorted = sort_pairs_desc(picked);
    proof {
        assert forall|k: int| 0 <= k < sorted@.len() implies db@.has_user(
            ((#[trigger] sorted@[k]).1) as int,
        ) by {
            let sp = pair_views(sorted@);
            assert(sp[k] == (sorted@[k].0 as int, sorted@[k].1 as int));
            assert(sp.contains(sp[k]));
            assert(sp.to_multiset().count(sp[k]) > 0);
            assert(collected.to_multiset().count(sp[k]) > 0);
            assert(collected.contains(sp[k]));
            let j = choose|j: int| 0 <= j < collected.len() && collected[j] == sp[k];
            assert(collected[j].1 == sp[k].1);
        }
    }
    let r = pairs_to_entries(db, &sorted);
    proof {
        let sp = pair_views(sorted@);
        assert(sp.to_multiset() == following_pairs(db@, user_id as int).to_multiset());
        assert(pairs_sorted_desc(sp));
    }
    r
}

} // verus!
