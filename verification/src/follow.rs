use vstd::prelude::*;

use crate::counting::{
    count_where, lemma_count_where_pos, lemma_count_where_push, lemma_count_where_remove,
    lemma_count_where_zero,
};
use crate::errors::DbError;
use crate::model::{
    lemma_has_post_congruence, lemma_has_user_congruence, Db, DbView, Follow, FollowV, UserV,
};

verus! {

/// Which branch a toggle took: `Created` answers HTTP 201, `Removed` 200.
#[derive(Clone, Copy, Debug, PartialEq, Eq, Structural)]
pub enum Toggled {
    Created,
    Removed,
}

/// The user rows with the denormalized follow counters moved by `delta` on
/// the endpoints of the edge `(target, follower)`: `followers` on the row of
/// `target`, `following` on the row of `follower`.  Every other field and
/// every other row is untouched; a self-follow moves both counters on the
/// one row.
pub open spec fn follow_counters_adjusted(
    users: Seq<UserV>,
    target: int,
    follower: int,
    delta: int,
) -> Seq<UserV> {
    Seq::new(
        users.len(),
        |i: int|
            {
                let u = users[i];
                UserV {
                    followers: if u.id == target {
                        u.followers + delta
                    } else {
                        u.followers
                    },
                    following: if u.id == follower {
                        u.following + delta
                    } else {
                        u.following
                    },
                    ..u
                }
            },
    )
}

/// The state after the insert branch of the toggle committed: the edge row
/// appended, both counters up by one.
pub open spec fn spec_follow_created(d: DbView, u: int, f: int, now: int) -> DbView {
    DbView {
        follows: d.follows.push(FollowV { user_id: u, follower_id: f, created_at: now }),
        users: follow_counters_adjusted(d.users, u, f, 1),
        ..d
    }
}

/// The state after the delete branch of the toggle committed: the edge row
/// gone, both counters down by one.
pub open spec fn spec_follow_removed(d: DbView, u: int, f: int) -> DbView {
    DbView {
        follows: d.follows.remove(d.follow_idx(u, f)),
        users: follow_counters_adjusted(d.users, u, f, -1),
        ..d
    }
}

/// The insert transaction alone, with the check the store's primary-key
/// constraint performs: inserting an edge that is already present aborts as
/// a conflict and changes nothing.
pub open spec fn spec_commit_follow_insert(d: DbView, u: int, f: int, now: int) -> (DbView, Result<
    Toggled,
    DbError,
>) {
    if d.has_follow(u, f) {
        (d, Err(DbError::AlreadyExists))
    } else {
        (spec_follow_created(d, u, f, now), Ok(Toggled::Created))
    }
}

/// The delete transaction alone: deleting an edge that is no longer there
/// aborts (zero rows affected) and changes nothing.
pub open spec fn spec_commit_follow_delete(d: DbView, u: int, f: int) -> (DbView, Result<
    Toggled,
    DbError,
>) {
    if !d.has_follow(u, f) {
        (d, Err(DbError::NotFound))
    } else {
        (spec_follow_removed(d, u, f), Ok(Toggled::Removed))
    }
}

/// Full functional specification of the follow toggle: both endpoints must
/// exist, then the edge's existence is flipped and the counters follow.
pub open spec fn spec_follow(d: DbView, u: int, f: int, now: int) -> (DbView, Result<
    Toggled,
    DbError,
>) {
    if !d.has_user(u) || !d.has_user(f) {
        (d, Err(DbError::NotFound))
    } else if d.has_follow(u, f) {
        spec_commit_follow_delete(d, u, f)
    } else {
        spec_commit_follow_insert(d, u, f, now)
    }
}

/// The insert branch preserves the store invariant.
pub proof fn lemma_follow_created_wf(d: DbView, u: int, f: int, now: int)
    requires
        d.wf(),
        d.has_user(u),
        d.has_user(f),
        !d.has_follow(u, f),
    ensures
        spec_follow_created(d, u, f, now).wf(),
{
    let d2 = spec_follow_created(d, u, f, now);
    let e = FollowV { user_id: u, follower_id: f, created_at: now };
    lemma_has_user_congruence(d, d2);
    lemma_has_post_congruence(d, d2);
    assert(d2.users_wf());
    assert forall|i: int, j: int|
        0 <= i < j < d2.follows.len() implies !((#[trigger] d2.follows[i]).user_id
        == (#[trigger] d2.follows[j]).user_id && d2.follows[i].follower_id
        == d2.follows[j].follower_id) by {
        if j < d.follows.len() {
            assert(d2.follows[i] == d.follows[i] && d2.follows[j] == d.follows[j]);
        } else {
            assert(d2.follows[j] == e);
            assert(!(d.follows[i].user_id == u && d.follows[i].follower_id == f));
        }
    }
    assert(d2.follows_wf());
    assert forall|i: int| 0 <= i < d2.users.len() implies {
        &&& (#[trigger] d2.users[i]).followers == d2.followers_of(d2.users[i].id)
        &&& d2.users[i].following == d2.following_of(d2.users[i].id)
    } by {
        let id = d.users[i].id;
        lemma_count_where_push(d.follows, |x: FollowV| x.user_id == id, e);
        lemma_count_where_push(d.follows, |x: FollowV| x.follower_id == id, e);
    }
    assert(d2.counters_wf());
    assert(d2.posts_wf());
    assert forall|i: int| 0 <= i < d2.posts.len() implies (#[trigger] d2.posts[i]).likes
        == d2.likes_of(d2.posts[i].id) by {
        assert(d.posts[i].likes == d.likes_of(d.posts[i].id));
    }
    assert(d2.likes_wf());
    assert(d2.sessions_wf());
}

/// The delete branch preserves the store invariant.
pub proof fn lemma_follow_removed_wf(d: DbView, u: int, f: int)
    requires
        d.wf(),
        d.has_follow(u, f),
    ensures
        spec_follow_removed(d, u, f).wf(),
{
    let d2 = spec_follow_removed(d, u, f);
    let ei = d.follow_idx(u, f);
    assert(0 <= ei < d.follows.len() && d.follows[ei].user_id == u && d.follows[ei].follower_id
        == f);
    lemma_has_user_congruence(d, d2);
    lemma_has_post_congruence(d, d2);
    assert(d2.users_wf());
    assert forall|i: int, j: int|
        0 <= i < j < d2.follows.len() implies !((#[trigger] d2.follows[i]).user_id
        == (#[trigger] d2.follows[j]).user_id && d2.follows[i].follower_id
        == d2.follows[j].follower_id) by {
        let i0 = if i < ei {
            i
        } else {
            i + 1
        };
        let j0 = if j < ei {
            j
        } else {
            j + 1
        };
        assert(d2.follows[i] == d.follows[i0] && d2.follows[j] == d.follows[j0]);
    }
    assert forall|i: int| 0 <= i < d2.follows.len() implies {
        &&& d2.has_user((#[trigger] d2.follows[i]).user_id)
        &&& d2.has_user(d2.follows[i].follower_id)
    } by {
        let i0 = if i < ei {
            i
        } else {
            i + 1
        };
        assert(d2.follows[i] == d.follows[i0]);
        assert(d.has_user(d.follows[i0].user_id) && d.has_user(d.follows[i0].follower_id));
    }
    assert(d2.follows_wf());
    assert forall|i: int| 0 <= i < d2.users.len() implies {
        &&& (#[trigger] d2.users[i]).followers == d2.followers_of(d2.users[i].id)
        &&& d2.users[i].following == d2.following_of(d2.users[i].id)
    } by {
        let id = d.users[i].id;
        lemma_count_where_remove(d.follows, |x: FollowV| x.user_id == id, ei);
        lemma_count_where_remove(d.follows, |x: FollowV| x.follower_id == id, ei);
    }
    assert(d2.counters_wf());
    assert(d2.posts_wf());
    assert forall|i: int| 0 <= i < d2.posts.len() implies (#[trigger] d2.posts[i]).likes
        == d2.likes_of(d2.posts[i].id) by {
        assert(d.posts[i].likes == d.likes_of(d.posts[i].id));
    }
    assert(d2.likes_wf());
    assert(d2.sessions_wf());
}

/// The toggle preserves the store invariant in every case.
pub proof fn lemma_spec_follow_wf(d: DbView, u: int, f: int, now: int)
    requires
        d.wf(),
    ensures
        spec_follow(d, u, f, now).0.wf(),
{
    if d.has_user(u) && d.has_user(f) {
        if d.has_follow(u, f) {
            lemma_follow_removed_wf(d, u, f);
        } else {
            lemma_follow_created_wf(d, u, f, now);
        }
    }
}

/// The insert transaction: one edge row inserted, the two endpoint counters
/// raised in the same transaction.  If the edge's primary key is already
/// taken — as when a concurrent toggle won the race — the store's
/// uniqueness constraint turns the insert into a conflict and nothing
/// changes.
pub fn commit_follow_insert(db: &mut Db, user_id: i32, follower_id: i32, now: i64) -> (r: Result<
    Toggled,
    DbError,
>)
    requires
        old(db)@.wf(),
        old(db)@.has_user(user_id as int),
        old(db)@.has_user(follower_id as int),
    ensures
        final(db)@.wf(),
        (final(db)@, r) == spec_commit_follow_insert(
            old(db)@,
            user_id as int,
            follower_id as int,
            now as int,
        ),
{
    let ghost d0 = db@;
    let ghost u = user_id as int;
    let ghost f = follower_id as int;
    match db.find_follow(user_id, follower_id) {
        Some(_) => Err(DbError::AlreadyExists),
        None => {
            let ti = match db.find_user(user_id) {
                Some(i) => i,
                None => {
                    proof {
                        assert(false);
                    }
                    0
                },
            };
            let fi = match db.find_user(follower_id) {
                Some(i) => i,
                None => {
                    proof {
                        assert(false);
                    }
                    0
                },
            };
            proof {
                d0.lemma_followers_bound(u);
                d0.lemma_following_bound(f);
                assert(d0.users[ti as int].followers == d0.followers_of(u));
                assert(d0.users[fi as int].following == d0.following_of(f));
            }
            if user_id == follower_id {
                let mut target = db.users[ti].duplicate();
                target.followers = target.followers + 1;
                target.following = target.following + 1;
                db.users[ti] = target;
            } else {
                let mut target = db.users[ti].duplicate();
                target.followers = target.followers + 1;
                db.users[ti] = target;
                let mut source = db.users[fi].duplicate();
                source.following = source.following + 1;
                db.users[fi] = source;
            }
            db.follows.push(Follow { user_id, follower_id, created_at: now });
            proof {
                assert forall|k: int| 0 <= k < d0.users.len() && k != ti implies (
                #[trigger] d0.users[k]).id != u by {
                    if k < ti {
                        assert(d0.users[k].id != d0.users[ti as int].id);
                    } else {
                        assert(d0.users[ti as int].id != d0.users[k].id);
                    }
                }
                assert forall|k: int| 0 <= k < d0.users.len() && k != fi implies (
                #[trigger] d0.users[k]).id != f by {
                    if k < fi {
                        assert(d0.users[k].id != d0.users[fi as int].id);
                    } else {
                        assert(d0.users[fi as int].id != d0.users[k].id);
                    }
                }
                assert(db@.users =~= follow_counters_adjusted(d0.users, u, f, 1));
                assert(db@.follows =~= d0.follows.push(
                    FollowV { user_id: u, follower_id: f, created_at: now as int },
                ));
                assert(db@ =~= spec_follow_created(d0, u, f, now as int));
                lemma_follow_created_wf(d0, u, f, now as int);
            }
            Ok(Toggled::Created)
        },
    }
}

/// The delete transaction: the edge row deleted, the two endpoint counters
/// lowered in the same transaction.  If the edge is already gone — a
/// concurrent toggle removed it — the delete affects zero rows, the
/// transaction aborts, and nothing changes.
pub fn commit_follow_delete(db: &mut Db, user_id: i32, follower_id: i32) -> (r: Result<
    Toggled,
    DbError,
>)
    requires
        old(db)@.wf(),
    ensures
        final(db)@.wf(),
        (final(db)@, r) == spec_commit_follow_delete(
            old(db)@,
            user_id as int,
            follower_id as int,
        ),
{
    let ghost d0 = db@;
    let ghost u = user_id as int;
    let ghost f = follower_id as int;
    match db.find_follow(user_id, follower_id) {
        None => Err(DbError::NotFound),
        Some(ei) => {
            proof {
                // The found index is the one the specification removes.
                let ci = d0.follow_idx(u, f);
                if ci != ei {
                    if ci < ei {
                        assert(!(d0.follows[ci].user_id == d0.follows[ei as int].user_id
                            && d0.follows[ci].follower_id == d0.follows[ei as int].follower_id));
                    } else {
                        assert(!(d0.follows[ei as int].user_id == d0.follows[ci].user_id
                            && d0.follows[ei as int].follower_id == d0.follows[ci].follower_id));
                    }
                }
                assert(ci == ei);
                assert(d0.has_user(u) && d0.has_user(f));
            }
            let ti = match db.find_user(user_id) {
                Some(i) => i,
                None => {
                    proof {
                        assert(false);
                    }
                    0
                },
            };
            let fi = match db.find_user(follower_id) {
                Some(i) => i,
                None => {
                    proof {
                        assert(false);
                    }
                    0
                },
            };
            proof {
                lemma_count_where_pos(d0.follows, |x: FollowV| x.user_id == u, ei as int);
                lemma_count_where_pos(d0.follows, |x: FollowV| x.follower_id == f, ei as int);
                assert(d0.users[ti as int].followers == d0.followers_of(u));
                assert(d0.users[fi as int].following == d0.following_of(f));
            }
            if user_id == follower_id {
                let mut target = db.users[ti].duplicate();
                target.followers = target.followers - 1;
                target.following = target.following - 1;
                db.users[ti] = target;
            } else {
                let mut target = db.users[ti].duplicate();
                target.followers = target.followers - 1;
                db.users[ti] = target;
                let mut source = db.users[fi].duplicate();
                source.following = source.following - 1;
                db.users[fi] = source;
            }
            db.follows.remove(ei);
            proof {
                assert forall|k: int| 0 <= k < d0.users.len() && k != ti implies (
                #[trigger] d0.users[k]).id != u by {
                    if k < ti {
                        assert(d0.users[k].id != d0.users[ti as int].id);
                    } else {
                        assert(d0.users[ti as int].id != d0.users[k].id);
                    }
                }
                assert forall|k: int| 0 <= k < d0.users.len() && k != fi implies (
                #[trigger] d0.users[k]).id != f by {
                    if k < fi {
                        assert(d0.users[k].id != d0.users[fi as int].id);
                    } else {
                        assert(d0.users[fi as int].id != d0.users[k].id);
                    }
                }
                assert(db@.users =~= follow_counters_adjusted(d0.users, u, f, -1));
                assert(db@.follows =~= d0.follows.remove(ei as int));
                assert(db@ =~= spec_follow_removed(d0, u, f));
                lemma_follow_removed_wf(d0, u, f);
            }
            Ok(Toggled::Removed)
        },
    }
}

/// The follow toggle at a fixed timestamp: checks that both endpoints
/// resolve, then flips the edge inside one transaction.
pub fn follow_at(db: &mut Db, user_id: i32, follower_id: i32, now: i64) -> (r: Result<
    Toggled,
    DbError,
>)
    requires
        old(db)@.wf(),
    ensures
        final(db)@.wf(),
        (final(db)@, r) == spec_follow(old(db)@, user_id as int, follower_id as int, now as int),
{
    if db.find_user(user_id).is_none() || db.find_user(follower_id).is_none() {
        return Err(DbError::NotFound);
    }
    match db.find_follow(user_id, follower_id) {
        Some(_) => commit_follow_delete(db, user_id, follower_id),
        None => commit_follow_insert(db, user_id, follower_id, now),
    }
}

/// The key pair of each follow row, in row order.  The pair is the row's
/// identity; the creation timestamp is not part of it.
pub open spec fn follow_pairs(s: Seq<FollowV>) -> Seq<(int, int)> {
    s.map_values(|e: FollowV| (e.user_id, e.follower_id))
}

/// The stored counter fields agree with the cached cardinalities on a
/// well-formed state.
proof fn lemma_counter_fields(d: DbView, id: int)
    requires
        d.wf(),
        d.has_user(id),
    ensures
        0 <= d.user_idx(id) < d.users.len(),
        d.user_of(id).id == id,
        d.user_of(id).followers == d.followers_of(id),
        d.user_of(id).following == d.following_of(id),
{
    let i = d.user_idx(id);
    assert(0 <= i < d.users.len() && d.users[i].id == id);
    assert(d.users[i].followers == d.followers_of(d.users[i].id));
}

/// Law: toggling follow once on a valid pair with no existing edge creates
/// the edge, reports `Created`, and moves the target's `followers` and the
/// actor's `following` up by exactly one.
pub proof fn lemma_follow_once_creates(d: DbView, u: int, f: int, now: int)
    requires
        d.wf(),
        d.has_user(u),
        d.has_user(f),
        !d.has_follow(u, f),
    ensures
        ({
            let (d2, r) = spec_follow(d, u, f, now);
            &&& r == Ok::<Toggled, DbError>(Toggled::Created)
            &&& d2.has_follow(u, f)
            &&& d2.followers_of(u) == d.followers_of(u) + 1
            &&& d2.following_of(f) == d.following_of(f) + 1
            &&& d2.user_of(u).followers == d.user_of(u).followers + 1
            &&& d2.user_of(f).following == d.user_of(f).following + 1
        }),
{
    let (d2, r) = spec_follow(d, u, f, now);
    let e = FollowV { user_id: u, follower_id: f, created_at: now };
    lemma_count_where_push(d.follows, |x: FollowV| x.user_id == u, e);
    lemma_count_where_push(d.follows, |x: FollowV| x.follower_id == f, e);
    assert(d2.follows[d.follows.len() as int] == e);
    assert(d2.has_follow(u, f));
    lemma_follow_created_wf(d, u, f, now);
    lemma_has_user_congruence(d, d2);
    lemma_counter_fields(d, u);
    lemma_counter_fields(d, f);
    lemma_counter_fields(d2, u);
    lemma_counter_fields(d2, f);
}

/// Law: toggling follow twice on the same pair returns to the original
/// edge and counter state.  The user rows come back exactly; the edge
/// table comes back as the same multiset of key pairs (a re-created edge
/// carries a fresh creation time), and exactly when the pair had no edge
/// to begin with, even the edge rows come back exactly.
pub proof fn lemma_follow_toggle_round_trip(d: DbView, u: int, f: int, t1: int, t2: int)
    requires
        d.wf(),
        d.has_user(u),
        d.has_user(f),
    ensures
        ({
            let (d1, r1) = spec_follow(d, u, f, t1);
            let (d2, r2) = spec_follow(d1, u, f, t2);
            &&& d2.users == d.users
            &&& follow_pairs(d2.follows).to_multiset() == follow_pairs(d.follows).to_multiset()
            &&& d2.has_follow(u, f) == d.has_follow(u, f)
            &&& d2.posts == d.posts
            &&& d2.likes == d.likes
            &&& d2.sessions == d.sessions
            &&& d2.next_user_id == d.next_user_id
            &&& d2.next_post_id == d.next_post_id
            &&& !d.has_follow(u, f) ==> d2 == d && r1 == Ok::<Toggled, DbError>(Toggled::Created)
                && r2 == Ok::<Toggled, DbError>(Toggled::Removed)
            &&& d.has_follow(u, f) ==> r1 == Ok::<Toggled, DbError>(Toggled::Removed) && r2 == Ok::<
                Toggled,
                DbError,
            >(Toggled::Created)
        }),
{
    broadcast use vstd::seq_lib::group_to_multiset_ensures;

    let (d1, r1) = spec_follow(d, u, f, t1);
    let (d2, r2) = spec_follow(d1, u, f, t2);
    if !d.has_follow(u, f) {
        let e1 = FollowV { user_id: u, follower_id: f, created_at: t1 };
        let n = d.follows.len() as int;
        assert(d1.follows[n] == e1);
        assert(d1.has_follow(u, f));
        lemma_follow_created_wf(d, u, f, t1);
        lemma_has_user_congruence(d, d1);
        // The only row with this pair is the one just pushed, so the second
        // toggle removes exactly it.
        let ci = d1.follow_idx(u, f);
        assert(0 <= ci < d1.follows.len() && d1.follows[ci].user_id == u
            && d1.follows[ci].follower_id == f);
        if ci < n {
            assert(d.follows[ci] == d1.follows[ci]);
            assert(false);
        }
        assert(ci == n);
        assert(d2.follows =~= d.follows);
        assert(d2.users =~= d.users);
        assert(d2 =~= d);
    } else {
        let ei = d.follow_idx(u, f);
        assert(0 <= ei < d.follows.len() && d.follows[ei].user_id == u
            && d.follows[ei].follower_id == f);
        lemma_follow_removed_wf(d, u, f);
        lemma_has_user_congruence(d, d1);
        // After the removal no row with the pair is left.
        assert forall|k: int|
            0 <= k < d1.follows.len() implies !((#[trigger] d1.follows[k]).user_id == u
            && d1.follows[k].follower_id == f) by {
            let k0 = if k < ei {
                k
            } else {
                k + 1
            };
            assert(d1.follows[k] == d.follows[k0]);
            if k0 < ei {
                assert(!(d.follows[k0].user_id == d.follows[ei].user_id
                    && d.follows[k0].follower_id == d.follows[ei].follower_id));
            } else {
                assert(!(d.follows[ei].user_id == d.follows[k0].user_id
                    && d.follows[ei].follower_id == d.follows[k0].follower_id));
            }
        }
        assert(!d1.has_follow(u, f));
        let e2 = FollowV { user_id: u, follower_id: f, created_at: t2 };
        assert(d2.follows == d1.follows.push(e2));
        assert(d2.users =~= d.users);
        assert(d2.posts == d.posts && d2.likes == d.likes && d2.sessions == d.sessions);
        // Pair multisets: remove the pair at ei, then put the same pair back.
        let p0 = follow_pairs(d.follows);
        let p1 = follow_pairs(d1.follows);
        let p2 = follow_pairs(d2.follows);
        assert(p1 =~= p0.remove(ei));
        assert(p2 =~= p1.push((u, f)));
        assert(p0.remove(ei).to_multiset() =~= p0.to_multiset().remove(p0[ei]));
        assert(p0[ei] == (u, f));
        assert(p2.to_multiset() =~= p1.to_multiset().insert((u, f)));
        assert(p0.contains(p0[ei]));
        assert(p0.to_multiset().count((u, f)) > 0);
        assert(p2.to_multiset() =~= p0.to_multiset());
        assert(d2.follows[d1.follows.len() as int] == e2);
        assert(d2.has_follow(u, f));
    }
}

/// Law: two toggle transactions racing on the same pair from "no edge"
/// both choose the insert branch; the store's primary-key constraint lets
/// exactly one commit.  The second surfaces as a retryable conflict, and
/// the net state holds exactly one edge row for the pair and exactly one
/// +1 on each endpoint counter — never two.  The two serialization orders
/// are the same claim with `t1` and `t2` exchanged.
pub proof fn lemma_follow_insert_race(d: DbView, u: int, f: int, t1: int, t2: int)
    requires
        d.wf(),
        d.has_user(u),
        d.has_user(f),
        !d.has_follow(u, f),
    ensures
        ({
            let (d1, r1) = spec_commit_follow_insert(d, u, f, t1);
            let (d2, r2) = spec_commit_follow_insert(d1, u, f, t2);
            &&& r1 == Ok::<Toggled, DbError>(Toggled::Created)
            &&& r2 == Err::<Toggled, DbError>(DbError::AlreadyExists)
            &&& d2 == d1
            &&& count_where(d2.follows, |e: FollowV| e.user_id == u && e.follower_id == f) == 1
            &&& d2.followers_of(u) == d.followers_of(u) + 1
            &&& d2.following_of(f) == d.following_of(f) + 1
            &&& d2.user_of(u).followers == d.user_of(u).followers + 1
            &&& d2.user_of(f).following == d.user_of(f).following + 1
        }),
{
    let (d1, r1) = spec_commit_follow_insert(d, u, f, t1);
    let e1 = FollowV { user_id: u, follower_id: f, created_at: t1 };
    let n = d.follows.len() as int;
    assert(d1.follows[n] == e1);
    assert(d1.has_follow(u, f));
    let pair = |e: FollowV| e.user_id == u && e.follower_id == f;
    lemma_count_where_zero(d.follows, pair);
    lemma_count_where_push(d.follows, pair, e1);
    lemma_count_where_push(d.follows, |x: FollowV| x.user_id == u, e1);
    lemma_count_where_push(d.follows, |x: FollowV| x.follower_id == f, e1);
    lemma_follow_created_wf(d, u, f, t1);
    lemma_has_user_congruence(d, d1);
    lemma_counter_fields(d, u);
    lemma_counter_fields(d, f);
    lemma_counter_fields(d1, u);
    lemma_counter_fields(d1, f);
}

/// The follow toggle as the handler runs it, with the edge's creation time
/// read from the wall clock.
pub fn follow(db: &mut Db, user_id: i32, follower_id: i32) -> (r: Result<Toggled, DbError>)
    requires
        old(db)@.wf(),
    ensures
        final(db)@.wf(),
        exists|t: int|
            (final(db)@, r) == #[trigger] spec_follow(
                old(db)@,
                user_id as int,
                follower_id as int,
                t,
            ),
{
    let now = crate::clock::now_ts();
    let r = follow_at(db, user_id, follower_id, now);
    proof {
        assert((db@, r) == spec_follow(old(db)@, user_id as int, follower_id as int, now as int));
    }
    r
}

} // verus!
