use vstd::prelude::*;

use crate::counting::{
    count_where, lemma_count_where_pos, lemma_count_where_push, lemma_count_where_remove,
    lemma_count_where_zero,
};
use crate::errors::DbError;
use crate::follow::Toggled;
use crate::model::{
    lemma_has_post_congruence, lemma_has_user_congruence, Db, DbView, Like, LikeV, PostV,
};

verus! {

/// The post rows with the denormalized `likes` counter moved by `delta` on
/// the row of `target`; every other field and every other row is untouched.
pub open spec fn like_counter_adjusted(posts: Seq<PostV>, target: int, delta: int) -> Seq<PostV> {
    Seq::new(
        posts.len(),
        |i: int|
            {
                let p = posts[i];
                PostV {
                    likes: if p.id == target {
                        p.likes + delta
                    } else {
                        p.likes
                    },
                    ..p
                }
            },
    )
}

/// The state after the insert branch of the like toggle committed.
pub open spec fn spec_like_created(d: DbView, post_id: int, user_id: int) -> DbView {
    DbView {
        likes: d.likes.push(LikeV { post_id, user_id }),
        posts: like_counter_adjusted(d.posts, post_id, 1),
        ..d
    }
}

/// The state after the delete branch of the like toggle committed.
pub open spec fn spec_like_removed(d: DbView, post_id: int, user_id: int) -> DbView {
    DbView {
        likes: d.likes.remove(d.like_idx(post_id, user_id)),
        posts: like_counter_adjusted(d.posts, post_id, -1),
        ..d
    }
}

/// The insert transaction alone, with the store's primary-key check: a
/// duplicate like aborts as a conflict and changes nothing.
pub open spec fn spec_commit_like_insert(d: DbView, post_id: int, user_id: int) -> (DbView, Result<
    Toggled,
    DbError,
>) {
    if d.has_like(post_id, user_id) {
        (d, Err(DbError::AlreadyExists))
    } else {
        (spec_like_created(d, post_id, user_id), Ok(Toggled::Created))
    }
}

/// The delete transaction alone: deleting a like that is already gone
/// aborts and changes nothing.
pub open spec fn spec_commit_like_delete(d: DbView, post_id: int, user_id: int) -> (DbView, Result<
    Toggled,
    DbError,
>) {
    if !d.has_like(post_id, user_id) {
        (d, Err(DbError::NotFound))
    } else {
        (spec_like_removed(d, post_id, user_id), Ok(Toggled::Removed))
    }
}

/// Full functional specification of the like toggle.  The post must exist;
/// an unknown liker is only caught by the store's foreign-key constraint
/// when the insert commits, and surfaces as an internal fault.
pub open spec fn spec_like(d: DbView, post_id: int, user_id: int) -> (DbView, Result<
    Toggled,
    DbError,
>) {
    if !d.has_post(post_id) {
        (d, Err(DbError::NotFound))
    } else if d.has_like(post_id, user_id) {
        spec_commit_like_delete(d, post_id, user_id)
    } else if !d.has_user(user_id) {
        (d, Err(DbError::InternalError))
    } else {
        spec_commit_like_insert(d, post_id, user_id)
    }
}

/// The insert branch preserves the store invariant.
pub proof fn lemma_like_created_wf(d: DbView, post_id: int, user_id: int)
    requires
        d.wf(),
        d.has_post(post_id),
        d.has_user(user_id),
        !d.has_like(post_id, user_id),
    ensures
        spec_like_created(d, post_id, user_id).wf(),
{
    let d2 = spec_like_created(d, post_id, user_id);
    let e = LikeV { post_id, user_id };
    lemma_has_user_congruence(d, d2);
    lemma_has_post_congruence(d, d2);
    assert(d2.users_wf());
    assert forall|i: int| 0 <= i < d2.users.len() implies {
        &&& (#[trigger] d2.users[i]).followers == d2.followers_of(d2.users[i].id)
        &&& d2.users[i].following == d2.following_of(d2.users[i].id)
    } by {
        assert(d.users[i].followers == d.followers_of(d.users[i].id));
        assert(d.users[i].following == d.following_of(d.users[i].id));
    }
    assert(d2.counters_wf());
    assert(d2.follows_wf());
    assert(d2.posts_wf());
    assert forall|i: int, j: int|
        0 <= i < j < d2.likes.len() implies !((#[trigger] d2.likes[i]).post_id
        == (#[trigger] d2.likes[j]).post_id && d2.likes[i].user_id == d2.likes[j].user_id) by {
        if j < d.likes.len() {
            assert(d2.likes[i] == d.likes[i] && d2.likes[j] == d.likes[j]);
        } else {
            assert(d2.likes[j] == e);
            assert(!(d.likes[i].post_id == post_id && d.likes[i].user_id == user_id));
        }
    }
    assert forall|i: int| 0 <= i < d2.posts.len() implies (#[trigger] d2.posts[i]).likes
        == d2.likes_of(d2.posts[i].id) by {
        let id = d.posts[i].id;
        lemma_count_where_push(d.likes, |x: LikeV| x.post_id == id, e);
    }
    assert(d2.likes_wf());
    assert(d2.sessions_wf());
}

/// The delete branch preserves the store invariant.
pub proof fn lemma_like_removed_wf(d: DbView, post_id: int, user_id: int)
    requires
        d.wf(),
        d.has_like(post_id, user_id),
    ensures
        spec_like_removed(d, post_id, user_id).wf(),
{
    let d2 = spec_like_removed(d, post_id, user_id);
    let ei = d.like_idx(post_id, user_id);
    assert(0 <= ei < d.likes.len() && d.likes[ei].post_id == post_id && d.likes[ei].user_id
        == user_id);
    lemma_has_user_congruence(d, d2);
    lemma_has_post_congruence(d, d2);
    assert(d2.users_wf());
    assert forall|i: int| 0 <= i < d2.users.len() implies {
        &&& (#[trigger] d2.users[i]).followers == d2.followers_of(d2.users[i].id)
        &&& d2.users[i].following == d2.following_of(d2.users[i].id)
    } by {
        assert(d.users[i].followers == d.followers_of(d.users[i].id));
        assert(d.users[i].following == d.following_of(d.users[i].id));
    }
    assert(d2.counters_wf());
    assert(d2.follows_wf());
    assert(d2.posts_wf());
    assert forall|i: int, j: int|
        0 <= i < j < d2.likes.len() implies !((#[trigger] d2.likes[i]).post_id
        == (#[trigger] d2.likes[j]).post_id && d2.likes[i].user_id == d2.likes[j].user_id) by {
        let i0 = if i < ei {
            i
        } else {
            i + 1
        };
        let j0 = if j < ei {
            j
        } else {
            j + 1
        };
        assert(d2.likes[i] == d.likes[i0] && d2.likes[j] == d.likes[j0]);
    }
    assert forall|i: int| 0 <= i < d2.likes.len() implies {
        &&& d2.has_post((#[trigger] d2.likes[i]).post_id)
        &&& d2.has_user(d2.likes[i].user_id)
    } by {
        let i0 = if i < ei {
            i
        } else {
            i + 1
        };
        assert(d2.likes[i] == d.likes[i0]);
        assert(d.has_post(d.likes[i0].post_id) && d.has_user(d.likes[i0].user_id));
    }
    assert forall|i: int| 0 <= i < d2.posts.len() implies (#[trigger] d2.posts[i]).likes
        == d2.likes_of(d2.posts[i].id) by {
        let id = d.posts[i].id;
        lemma_count_where_remove(d.likes, |x: LikeV| x.post_id == id, ei);
    }
    assert(d2.likes_wf());
    assert(d2.sessions_wf());
}

/// The like toggle preserves the store invariant in every case.
pub proof fn lemma_spec_like_wf(d: DbView, post_id: int, user_id: int)
    requires
        d.wf(),
    ensures
        spec_like(d, post_id, user_id).0.wf(),
{
    if d.has_post(post_id) {
        if d.has_like(post_id, user_id) {
            lemma_like_removed_wf(d, post_id, user_id);
        } else if d.has_user(user_id) {
            lemma_like_created_wf(d, post_id, user_id);
        }
    }
}

/// The insert transaction: one like row inserted and the post's counter
/// raised together; a duplicate key aborts as a conflict.
pub fn commit_like_insert(db: &mut Db, post_id: i32, user_id: i32) -> (r: Result<Toggled, DbError>)
    requires
        old(db)@.wf(),
        old(db)@.has_post(post_id as int),
        old(db)@.has_user(user_id as int),
    ensures
        final(db)@.wf(),
        (final(db)@, r) == spec_commit_like_insert(old(db)@, post_id as int, user_id as int),
{
    let ghost d0 = db@;
    let ghost p = post_id as int;
    let ghost uid = user_id as int;
    match db.find_like(post_id, user_id) {
        Some(_) => Err(DbError::AlreadyExists),
        None => {
            let pi = match db.find_post(post_id) {
                Some(i) => i,
                None => {
                    proof {
                        assert(false);
                    }
                    0
                },
            };
            proof {
                d0.lemma_likes_bound(p);
                assert(d0.posts[pi as int].likes == d0.likes_of(p));
            }
            let mut post = db.posts[pi].duplicate();
            post.likes = post.likes + 1;
            db.posts[pi] = post;
            db.likes.push(Like { post_id, user_id });
            proof {
                assert forall|k: int| 0 <= k < d0.posts.len() && k != pi implies (
                #[trigger] d0.posts[k]).id != p by {
                    if k < pi {
                        assert(d0.posts[k].id != d0.posts[pi as int].id);
                    } else {
                        assert(d0.posts[pi as int].id != d0.posts[k].id);
                    }
                }
                assert(db@.posts =~= like_counter_adjusted(d0.posts, p, 1));
                assert(db@.likes =~= d0.likes.push(LikeV { post_id: p, user_id: uid }));
                assert(db@ =~= spec_like_created(d0, p, uid));
                lemma_like_created_wf(d0, p, uid);
            }
            Ok(Toggled::Created)
        },
    }
}

/// The delete transaction: the like row deleted and the post's counter
/// lowered together; a like already gone aborts the transaction.
pub fn commit_like_delete(db: &mut Db, post_id: i32, user_id: i32) -> (r: Result<Toggled, DbError>)
    requires
        old(db)@.wf(),
    ensures
        final(db)@.wf(),
        (final(db)@, r) == spec_commit_like_delete(old(db)@, post_id as int, user_id as int),
{
    let ghost d0 = db@;
    let ghost p = post_id as int;
    let ghost uid = user_id as int;
    match db.find_like(post_id, user_id) {
        None => Err(DbError::NotFound),
        Some(ei) => {
            proof {
                let ci = d0.like_idx(p, uid);
                if ci != ei {
                    if ci < ei {
                        assert(!(d0.likes[ci].post_id == d0.likes[ei as int].post_id
                            && d0.likes[ci].user_id == d0.likes[ei as int].user_id));
                    } else {
                        assert(!(d0.likes[ei as int].post_id == d0.likes[ci].post_id
                            && d0.likes[ei as int].user_id == d0.likes[ci].user_id));
                    }
                }
                assert(ci == ei);
                assert(d0.has_post(p));
            }
            let pi = match db.find_post(post_id) {
                Some(i) => i,
                None => {
                    proof {
                        assert(false);
                    }
                    0
                },
            };
            proof {
                lemma_count_where_pos(d0.likes, |x: LikeV| x.post_id == p, ei as int);
                assert(d0.posts[pi as int].likes == d0.likes_of(p));
            }
            let mut post = db.posts[pi].duplicate();
            post.likes = post.likes - 1;
            db.posts[pi] = post;
            db.likes.remove(ei);
            proof {
                assert forall|k: int| 0 <= k < d0.posts.len() && k != pi implies (
                #[trigger] d0.posts[k]).id != p by {
                    if k < pi {
                        assert(d0.posts[k].id != d0.posts[pi as int].id);
                    } else {
                        assert(d0.posts[pi as int].id != d0.posts[k].id);
                    }
                }
                assert(db@.posts =~= like_counter_adjusted(d0.posts, p, -1));
                assert(db@.likes =~= d0.likes.remove(ei as int));
                assert(db@ =~= spec_like_removed(d0, p, uid));
                lemma_like_removed_wf(d0, p, uid);
            }
            Ok(Toggled::Removed)
        },
    }
}

/// The like toggle as the handler runs it: flips whether `user_id` likes
/// `post_id` and keeps the post's `likes` counter consistent, atomically.
pub fn like(db: &mut Db, post_id: i32, user_id: i32) -> (r: Result<Toggled, DbError>)
    requires
        old(db)@.wf(),
    ensures
        final(db)@.wf(),
        (final(db)@, r) == spec_like(old(db)@, post_id as int, user_id as int),
{
    if db.find_post(post_id).is_none() {
        return Err(DbError::NotFound);
    }
    match db.find_like(post_id, user_id) {
        Some(_) => commit_like_delete(db, post_id, user_id),
        None => {
            if db.find_user(user_id).is_none() {
                // The store's foreign-key constraint would reject the
                // insert; the transaction rolls back.
                return Err(DbError::InternalError);
            }
            commit_like_insert(db, post_id, user_id)
        },
    }
}

/// The stored `likes` field agrees with the cached cardinality on a
/// well-formed state.
proof fn lemma_like_counter_field(d: DbView, id: int)
    requires
        d.wf(),
        d.has_post(id),
    ensures
        0 <= d.post_idx(id) < d.posts.len(),
        d.post_of(id).id == id,
        d.post_of(id).likes == d.likes_of(id),
{
    let i = d.post_idx(id);
    assert(0 <= i < d.posts.len() && d.posts[i].id == id);
    assert(d.posts[i].likes == d.likes_of(d.posts[i].id));
}

/// Law: liking a post raises its `likes` by exactly one, and a second like
/// call undoes it, returning the counter — and the whole state — to the
/// original value.  Starting from an existing like the same holds with the
/// two branches exchanged, up to the order of the like rows.
#[verifier::rlimit(60)]
pub proof fn lemma_like_round_trip(d: DbView, post_id: int, user_id: int)
    requires
        d.wf(),
        d.has_post(post_id),
        d.has_user(user_id),
    ensures
        ({
            let (d1, r1) = spec_like(d, post_id, user_id);
            let (d2, r2) = spec_like(d1, post_id, user_id);
            &&& !d.has_like(post_id, user_id) ==> {
                &&& r1 == Ok::<Toggled, DbError>(Toggled::Created)
                &&& d1.post_of(post_id).likes == d.post_of(post_id).likes + 1
                &&& d1.likes_of(post_id) == d.likes_of(post_id) + 1
                &&& r2 == Ok::<Toggled, DbError>(Toggled::Removed)
                &&& d2 == d
            }
            &&& d.has_like(post_id, user_id) ==> {
                &&& r1 == Ok::<Toggled, DbError>(Toggled::Removed)
                &&& d1.post_of(post_id).likes == d.post_of(post_id).likes - 1
                &&& r2 == Ok::<Toggled, DbError>(Toggled::Created)
                &&& d2.users == d.users
                &&& d2.posts == d.posts
                &&& d2.post_of(post_id).likes == d.post_of(post_id).likes
                &&& d2.likes.to_multiset() == d.likes.to_multiset()
                &&& d2.sessions == d.sessions
                &&& d2.follows == d.follows
            }
        }),
{
    broadcast use vstd::seq_lib::group_to_multiset_ensures;

    let (d1, r1) = spec_like(d, post_id, user_id);
    let (d2, r2) = spec_like(d1, post_id, user_id);
    if !d.has_like(post_id, user_id) {
        let e = LikeV { post_id, user_id };
        let n = d.likes.len() as int;
        assert(d1.likes[n] == e);
        assert(d1.has_like(post_id, user_id));
        lemma_like_created_wf(d, post_id, user_id);
        lemma_has_post_congruence(d, d1);
        lemma_like_counter_field(d, post_id);
        lemma_like_counter_field(d1, post_id);
        lemma_count_where_push(d.likes, |x: LikeV| x.post_id == post_id, e);
        let ci = d1.like_idx(post_id, user_id);
        assert(0 <= ci < d1.likes.len() && d1.likes[ci].post_id == post_id
            && d1.likes[ci].user_id == user_id);
        if ci < n {
            assert(d.likes[ci] == d1.likes[ci]);
            assert(false);
        }
        assert(d2.likes =~= d.likes);
        assert(d2.posts =~= d.posts);
        assert(d2 =~= d);
    } else {
        let ei = d.like_idx(post_id, user_id);
        assert(0 <= ei < d.likes.len() && d.likes[ei].post_id == post_id && d.likes[ei].user_id
            == user_id);
        lemma_like_removed_wf(d, post_id, user_id);
        lemma_has_post_congruence(d, d1);
        lemma_has_user_congruence(d, d1);
        lemma_like_counter_field(d, post_id);
        lemma_like_counter_field(d1, post_id);
        assert forall|k: int|
            0 <= k < d1.likes.len() implies !((#[trigger] d1.likes[k]).post_id == post_id
            && d1.likes[k].user_id == user_id) by {
            let k0 = if k < ei {
                k
            } else {
                k + 1
            };
            assert(d1.likes[k] == d.likes[k0]);
            if k0 < ei {
                assert(!(d.likes[k0].post_id == d.likes[ei].post_id && d.likes[k0].user_id
                    == d.likes[ei].user_id));
            } else {
                assert(!(d.likes[ei].post_id == d.likes[k0].post_id && d.likes[ei].user_id
                    == d.likes[k0].user_id));
            }
        }
        assert(!d1.has_like(post_id, user_id));
        let e2 = LikeV { post_id, user_id };
        assert(d2.likes == d1.likes.push(e2));
        assert(d2.posts =~= d.posts);
        assert(d1.likes =~= d.likes.remove(ei));
        assert(d.likes.remove(ei).to_multiset() =~= d.likes.to_multiset().remove(d.likes[ei]));
        assert(d.likes[ei] == e2);
        assert(d2.likes.to_multiset() =~= d1.likes.to_multiset().insert(e2));
        assert(d.likes.contains(d.likes[ei]));
        assert(d.likes.to_multiset().count(e2) > 0);
        assert(d2.likes.to_multiset() =~= d.likes.to_multiset());
        lemma_like_created_wf(d1, post_id, user_id);
        lemma_like_counter_field(d2, post_id);
        assert(d2.post_of(post_id).likes == d.post_of(post_id).likes);
    }
}

} // verus!
