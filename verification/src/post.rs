use vstd::prelude::*;

use crate::counting::lemma_filter_take_step;
use crate::errors::DbError;
use vstd::multiset::Multiset;
use crate::model::{lemma_has_user_congruence, Db, DbView, Post, PostV};
use crate::requests::PostCreateRequest;

verus! {

/// Sorted newest first by creation time.
pub open spec fn sorted_desc(s: Seq<PostV>) -> bool {
    forall|i: int, j: int| 0 <= i <= j < s.len() ==> (#[trigger] s[i]).created_at >= (
    #[trigger] s[j]).created_at
}

/// The state after a post was inserted: the row appended with the next
/// free id, zeroed counters, and the given creation time.
pub open spec fn spec_post_created(d: DbView, req: PostCreateRequestV, now: int) -> DbView {
    DbView {
        posts: d.posts.push(
            PostV {
                id: d.next_post_id,
                related_to_post: req.related_to_post,
                user_id: req.user_id,
                text: req.text,
                likes: 0,
                comments: 0,
                created_at: now,
            },
        ),
        next_post_id: d.next_post_id + 1,
        ..d
    }
}

/// View of a post creation request.
pub struct PostCreateRequestV {
    pub related_to_post: Option<int>,
    pub user_id: int,
    pub text: Seq<char>,
}

/// Full functional specification of post creation.  The author and, for a
/// reply, the referenced post must resolve — otherwise the store's
/// foreign-key constraints reject the insert; an exhausted id cursor is a
/// store fault as well.
pub open spec fn spec_create_post(d: DbView, req: PostCreateRequestV, now: int) -> (DbView, Result<
    (),
    DbError,
>) {
    if !d.has_user(req.user_id) || (req.related_to_post matches Some(r) && !d.has_post(r))
        || d.next_post_id >= i32::MAX {
        (d, Err(DbError::InternalError))
    } else {
        (spec_post_created(d, req, now), Ok(()))
    }
}

/// The state after a post's text was replaced.
pub open spec fn spec_post_updated(d: DbView, id: int, text: Seq<char>) -> DbView {
    DbView {
        posts: Seq::new(
            d.posts.len(),
            |i: int|
                if d.posts[i].id == id {
                    PostV { text: text, ..d.posts[i] }
                } else {
                    d.posts[i]
                },
        ),
        ..d
    }
}

/// Whether some row still references the post: a like row, or a reply.
/// The store's foreign keys are set to "no action", so deleting a
/// referenced row is rejected, not cascaded.
pub open spec fn post_referenced(d: DbView, id: int) -> bool {
    ||| exists|i: int| 0 <= i < d.likes.len() && (#[trigger] d.likes[i]).post_id == id
    ||| exists|i: int|
        0 <= i < d.posts.len() && (#[trigger] d.posts[i]).related_to_post == Some(id)
}

/// Full functional specification of post deletion.
pub open spec fn spec_delete_post(d: DbView, id: int) -> (DbView, Result<(), DbError>) {
    if !d.has_post(id) {
        (d, Err(DbError::NotFound))
    } else if post_referenced(d, id) {
        (d, Err(DbError::InternalError))
    } else {
        (DbView { posts: d.posts.remove(d.post_idx(id)), ..d }, Ok(()))
    }
}

impl PostCreateRequest {
    pub open spec fn req_view(&self) -> PostCreateRequestV {
        PostCreateRequestV {
            related_to_post: match self.related_to_post {
                Some(r) => Some(r as int),
                None => None,
            },
            user_id: self.user_id as int,
            text: self.text@,
        }
    }
}

/// Insertion of a fresh post row preserves the store invariant.
pub proof fn lemma_post_created_wf(d: DbView, req: PostCreateRequestV, now: int)
    requires
        d.wf(),
        d.has_user(req.user_id),
        req.related_to_post matches Some(r) ==> d.has_post(r),
        d.next_post_id < i32::MAX,
    ensures
        spec_post_created(d, req, now).wf(),
{
    let d2 = spec_post_created(d, req, now);
    lemma_has_user_congruence(d, d2);
    assert forall|x: int| d.has_post(x) implies d2.has_post(x) by {
        let i = choose|i: int| 0 <= i < d.posts.len() && (#[trigger] d.posts[i]).id == x;
        assert(d2.posts[i].id == x);
    }
    assert(d2.users_wf());
    assert(d2.follows_wf());
    assert(d2.counters_wf());
    assert forall|i: int, j: int|
        0 <= i < j < d2.posts.len() implies (#[trigger] d2.posts[i]).id != (
    #[trigger] d2.posts[j]).id by {
        if j < d.posts.len() {
            assert(d2.posts[i] == d.posts[i] && d2.posts[j] == d.posts[j]);
        } else {
            assert(d2.posts[i] == d.posts[i]);
            assert(d.posts[i].id < d.next_post_id);
        }
    }
    assert(d2.posts_wf());
    // No like row can reference the fresh id: every like points at a post
    // that already existed, whose id is below the cursor.
    assert forall|i: int|
        0 <= i < d.likes.len() implies (#[trigger] d.likes[i]).post_id != d.next_post_id by {
        let j = choose|j: int|
            0 <= j < d.posts.len() && (#[trigger] d.posts[j]).id == d.likes[i].post_id;
        assert(d.posts[j].id < d.next_post_id);
    }
    crate::counting::lemma_count_where_zero(
        d.likes,
        |x: crate::model::LikeV| x.post_id == d.next_post_id,
    );
    assert forall|i: int| 0 <= i < d2.posts.len() implies (#[trigger] d2.posts[i]).likes
        == d2.likes_of(d2.posts[i].id) by {
        if i < d.posts.len() {
            assert(d.posts[i].likes == d.likes_of(d.posts[i].id));
        }
    }
    assert(d2.likes_wf());
    assert(d2.sessions_wf());
}

/// Replacing a post's text preserves the store invariant.
pub proof fn lemma_post_updated_wf(d: DbView, id: int, text: Seq<char>)
    requires
        d.wf(),
    ensures
        spec_post_updated(d, id, text).wf(),
{
    let d2 = spec_post_updated(d, id, text);
    lemma_has_post_congruence_local(d, d2);
    lemma_has_user_congruence(d, d2);
    assert(d2.users_wf());
    assert(d2.follows_wf());
    assert(d2.counters_wf());
    assert(d2.posts_wf());
    assert forall|i: int| 0 <= i < d2.posts.len() implies (#[trigger] d2.posts[i]).likes
        == d2.likes_of(d2.posts[i].id) by {
        assert(d.posts[i].likes == d.likes_of(d.posts[i].id));
    }
    assert(d2.likes_wf());
    assert(d2.sessions_wf());
}

/// Like [`crate::model::lemma_has_post_congruence`], for two states whose
/// post tables carry the same ids row by row.
proof fn lemma_has_post_congruence_local(a: DbView, b: DbView)
    requires
        a.posts.len() == b.posts.len(),
        forall|i: int| 0 <= i < a.posts.len() ==> (#[trigger] a.posts[i]).id == b.posts[i].id,
    ensures
        forall|pid: int| #[trigger] a.has_post(pid) == b.has_post(pid),
{
    crate::model::lemma_has_post_congruence(a, b);
}

/// Removal of an unreferenced post row preserves the store invariant.
pub proof fn lemma_post_removed_wf(d: DbView, id: int)
    requires
        d.wf(),
        d.has_post(id),
        !post_referenced(d, id),
    ensures
        (spec_delete_post(d, id).0).wf(),
{
    let d2 = spec_delete_post(d, id).0;
    let pi = d.post_idx(id);
    assert(0 <= pi < d.posts.len() && d.posts[pi].id == id);
    assert(d2.posts == d.posts.remove(pi));
    // Any surviving post id other than the removed one stays resolvable.
    assert forall|x: int| d.has_post(x) && x != id implies d2.has_post(x) by {
        let i = choose|i: int| 0 <= i < d.posts.len() && (#[trigger] d.posts[i]).id == x;
        if i < pi {
            assert(d2.posts[i].id == x);
        } else {
            assert(i != pi);
            assert(d2.posts[i - 1].id == x);
        }
    }
    lemma_has_user_congruence(d, d2);
    assert(d2.users_wf());
    assert(d2.follows_wf());
    assert(d2.counters_wf());
    assert forall|i: int, j: int|
        0 <= i < j < d2.posts.len() implies (#[trigger] d2.posts[i]).id != (
    #[trigger] d2.posts[j]).id by {
        let i0 = if i < pi {
            i
        } else {
            i + 1
        };
        let j0 = if j < pi {
            j
        } else {
            j + 1
        };
        assert(d2.posts[i] == d.posts[i0] && d2.posts[j] == d.posts[j0]);
    }
    assert forall|i: int| 0 <= i < d2.posts.len() implies {
        &&& 1 <= (#[trigger] d2.posts[i]).id < d2.next_post_id
        &&& d2.has_user(d2.posts[i].user_id)
        &&& (d2.posts[i].related_to_post matches Some(r) ==> d2.has_post(r))
    } by {
        let i0 = if i < pi {
            i
        } else {
            i + 1
        };
        assert(d2.posts[i] == d.posts[i0]);
        match d.posts[i0].related_to_post {
            Some(r) => {
                assert(d.has_post(r));
                assert(r != id);
            },
            None => {},
        }
    }
    assert(d2.posts_wf());
    assert forall|i: int| 0 <= i < d2.likes.len() implies {
        &&& d2.has_post((#[trigger] d2.likes[i]).post_id)
        &&& d2.has_user(d2.likes[i].user_id)
    } by {
        assert(d.has_post(d.likes[i].post_id));
        assert(d.likes[i].post_id != id);
    }
    assert forall|i: int| 0 <= i < d2.posts.len() implies (#[trigger] d2.posts[i]).likes
        == d2.likes_of(d2.posts[i].id) by {
        let i0 = if i < pi {
            i
        } else {
            i + 1
        };
        assert(d2.posts[i] == d.posts[i0]);
        assert(d.posts[i0].likes == d.likes_of(d.posts[i0].id));
    }
    assert(d2.likes_wf());
    assert(d2.sessions_wf());
}

/// Post creation at a fixed timestamp.
pub fn create_at(db: &mut Db, req: &PostCreateRequest, now: i64) -> (r: Result<(), DbError>)
    requires
        old(db)@.wf(),
    ensures
        final(db)@.wf(),
        (final(db)@, r) == spec_create_post(old(db)@, req.req_view(), now as int),
{
    let ghost d0 = db@;
    if db.find_user(req.user_id).is_none() {
        return Err(DbError::InternalError);
    }
    let related_ok = match req.related_to_post {
        Some(rid) => db.find_post(rid).is_some(),
        None => true,
    };
    if !related_ok {
        return Err(DbError::InternalError);
    }
    if db.next_post_id >= i32::MAX {
        return Err(DbError::InternalError);
    }
    let post = Post {
        id: db.next_post_id,
        related_to_post: req.related_to_post,
        user_id: req.user_id,
        text: req.text.clone(),
        likes: 0,
        comments: 0,
        created_at: now,
    };
    db.posts.push(post);
    db.next_post_id = db.next_post_id + 1;
    proof {
        assert(db@.posts =~= d0.posts.push(
            PostV {
                id: d0.next_post_id,
                related_to_post: req.req_view().related_to_post,
                user_id: req.user_id as int,
                text: req.text@,
                likes: 0,
                comments: 0,
                created_at: now as int,
            },
        ));
        assert(db@ =~= spec_post_created(d0, req.req_view(), now as int));
        lemma_post_created_wf(d0, req.req_view(), now as int);
    }
    Ok(())
}

/// Post creation as the handler runs it, with the creation time read from
/// the wall clock.
pub fn create(db: &mut Db, req: &PostCreateRequest) -> (r: Result<(), DbError>)
    requires
        old(db)@.wf(),
    ensures
        final(db)@.wf(),
        exists|t: int|
            (final(db)@, r) == #[trigger] spec_create_post(old(db)@, req.req_view(), t),
{
    let now = crate::clock::now_ts();
    let r = create_at(db, req, now);
    proof {
        assert((db@, r) == spec_create_post(old(db)@, req.req_view(), now as int));
    }
    r
}

/// Replace a post's text, returning the updated row.
pub fn update(db: &mut Db, id: i32, req: &PostCreateRequest) -> (r: Result<Post, DbError>)
    requires
        old(db)@.wf(),
    ensures
        final(db)@.wf(),
        !old(db)@.has_post(id as int) ==> r == Err::<Post, DbError>(DbError::NotFound)
            && final(db)@ == old(db)@,
        old(db)@.has_post(id as int) ==> {
            &&& final(db)@ == spec_post_updated(old(db)@, id as int, req.text@)
            &&& r matches Ok(p) && p@ == (PostV { text: req.text@, ..old(db)@.post_of(id as int) })
        },
{
    let ghost d0 = db@;
    match db.find_post(id) {
        None => Err(DbError::NotFound),
        Some(pi) => {
            proof {
                let ci = d0.post_idx(id as int);
                assert(0 <= ci < d0.posts.len() && d0.posts[ci].id == id as int);
                if ci != pi as int {
                    if ci < pi as int {
                        assert(d0.posts[ci].id != d0.posts[pi as int].id);
                    } else {
                        assert(d0.posts[pi as int].id != d0.posts[ci].id);
                    }
                }
                assert(ci == pi as int);
            }
            let mut post = db.posts[pi].duplicate();
            post.text = req.text.clone();
            let out = post.duplicate();
            db.posts[pi] = post;
            proof {
                assert forall|k: int| 0 <= k < d0.posts.len() && k != pi implies (
                #[trigger] d0.posts[k]).id != id as int by {
                    if k < pi {
                        assert(d0.posts[k].id != d0.posts[pi as int].id);
                    } else {
                        assert(d0.posts[pi as int].id != d0.posts[k].id);
                    }
                }
                assert(db@.posts =~= spec_post_updated(d0, id as int, req.text@).posts);
                assert(db@ =~= spec_post_updated(d0, id as int, req.text@));
                lemma_post_updated_wf(d0, id as int, req.text@);
            }
            Ok(out)
        },
    }
}

/// Delete a post.  A post that other rows still reference cannot be
/// removed: the store's foreign keys reject the delete and the transaction
/// rolls back.  A missing post reports `NotFound` and leaves every table
/// untouched.
pub fn delete(db: &mut Db, id: i32) -> (r: Result<(), DbError>)
    requires
        old(db)@.wf(),
    ensures
        final(db)@.wf(),
        (final(db)@, r) == spec_delete_post(old(db)@, id as int),
{
    let ghost d0 = db@;
    match db.find_post(id) {
        None => Err(DbError::NotFound),
        Some(pi) => {
            proof {
                let ci = d0.post_idx(id as int);
                assert(0 <= ci < d0.posts.len() && d0.posts[ci].id == id as int);
                if ci != pi as int {
                    if ci < pi as int {
                        assert(d0.posts[ci].id != d0.posts[pi as int].id);
                    } else {
                        assert(d0.posts[pi as int].id != d0.posts[ci].id);
                    }
                }
                assert(ci == pi as int);
            }
            let nl = db.likes.len();
            let mut i: usize = 0;
            while i < nl
                invariant
                    db@ == d0,
                    d0.wf(),
                    d0.has_post(id as int),
                    i <= nl,
                    nl == db.likes.len(),
                    forall|j: int| 0 <= j < i ==> (#[trigger] db@.likes[j]).post_id != id as int,
                decreases nl - i,
            {
                if db.likes[i].post_id == id {
                    proof {
                        assert(d0.likes[i as int].post_id == id as int);
                        assert(post_referenced(d0, id as int));
                    }
                    return Err(DbError::InternalError);
                }
                i += 1;
            }
            let np = db.posts.len();
            let mut j: usize = 0;
            while j < np
                invariant
                    db@ == d0,
                    d0.wf(),
                    d0.has_post(id as int),
                    j <= np,
                    np == db.posts.len(),
                    forall|k: int|
                        0 <= k < j ==> (#[trigger] db@.posts[k]).related_to_post != Some(
                            id as int,
                        ),
                decreases np - j,
            {
                match db.posts[j].related_to_post {
                    Some(rid) => {
                        if rid == id {
                            proof {
                                assert(d0.posts[j as int].related_to_post == Some(id as int));
                                assert(post_referenced(d0, id as int));
                            }
                            return Err(DbError::InternalError);
                        }
                    },
                    None => {},
                }
                j += 1;
            }
            db.posts.remove(pi);
            proof {
                assert(!post_referenced(d0, id as int));
                assert(db@.posts =~= d0.posts.remove(pi as int));
                assert(db@ =~= spec_delete_post(d0, id as int).0);
                lemma_post_removed_wf(d0, id as int);
            }
            Ok(())
        },
    }
}

/// All post rows, in table order.
pub fn list(db: &Db) -> (r: Vec<Post>)
    ensures
        r@.map_values(|p: Post| p@) == db@.posts,
{
    let mut out: Vec<Post> = Vec::new();
    let n = db.posts.len();
    let mut i: usize = 0;
    while i < n
        invariant
            i <= n,
            n == db.posts.len(),
            out@.map_values(|p: Post| p@) =~= db@.posts.take(i as int),
        decreases n - i,
    {
        let ghost prev = out@;
        out.push(db.posts[i].duplicate());
        proof {
            assert(out@.map_values(|p: Post| p@) =~= prev.map_values(|p: Post| p@).push(
                db@.posts[i as int],
            ));
            assert(db@.posts.take(i as int).push(db@.posts[i as int]) =~= db@.posts.take(
                i as int + 1,
            ));
        }
        i += 1;
    }
    proof {
        assert(db@.posts.take(n as int) =~= db@.posts);
    }
    out
}

/// The views of a row of posts, in order.
pub open spec fn post_views(s: Seq<Post>) -> Seq<PostV> {
    s.map_values(|p: Post| p@)
}

/// The feed of `viewer`: the posts whose author `viewer` follows, in table
/// order.
pub open spec fn spec_feed_pick(d: DbView, viewer: int) -> Seq<PostV> {
    d.posts.filter(|p: PostV| d.has_follow(p.user_id, viewer))
}

/// Newest-first selection sort.
fn sort_posts_desc(input: Vec<Post>) -> (r: Vec<Post>)
    ensures
        post_views(r@).to_multiset() == post_views(input@).to_multiset(),
        sorted_desc(post_views(r@)),
{
    broadcast use vstd::seq_lib::group_to_multiset_ensures;

    let ghost orig = post_views(input@);
    let mut rest = input;
    let mut out: Vec<Post> = Vec::new();
    while rest.len() > 0
        invariant
            post_views(out@).to_multiset().add(post_views(rest@).to_multiset())
                == orig.to_multiset(),
            sorted_desc(post_views(out@)),
            forall|a: int, b: int|
                0 <= a < out@.len() && 0 <= b < rest@.len() ==> (#[trigger] out@[a]).created_at
                    >= (#[trigger] rest@[b]).created_at,
        decreases rest.len(),
    {
        let mut m: usize = 0;
        let mut k: usize = 1;
        while k < rest.len()
            invariant
                m < k <= rest.len(),
                forall|t: int| 0 <= t < k ==> (#[trigger] rest@[t]).created_at <= rest@[
                    m as int
                ].created_at,
            decreases rest.len() - k,
        {
            if rest[k].created_at > rest[m].created_at {
                m = k;
            }
            k += 1;
        }
        let ghost restv0 = post_views(rest@);
        let ghost outv0 = post_views(out@);
        let x = rest.remove(m);
        out.push(x);
        proof {
            broadcast use vstd::seq_lib::group_to_multiset_ensures;

            assert(post_views(rest@) =~= restv0.remove(m as int));
            assert(post_views(out@) =~= outv0.push(x@));
            assert(restv0[m as int] == x@);
            assert(restv0.contains(restv0[m as int]));
            assert(restv0.to_multiset().count(x@) > 0);
            assert(post_views(out@).to_multiset().add(post_views(rest@).to_multiset()) =~= outv0
                .to_multiset().add(restv0.to_multiset()));
            assert forall|a: int, b: int|
                0 <= a < out@.len() && 0 <= b < rest@.len() implies (
            #[trigger] out@[a]).created_at >= (#[trigger] rest@[b]).created_at by {
                let b0 = if b < m as int {
                    b
                } else {
                    b + 1
                };
                if a < out@.len() - 1 {
                    assert(out@[a].created_at >= restv0[b0].created_at);
                } else {
                    assert(out@[a] == x);
                    assert(restv0[b0].created_at <= restv0[m as int].created_at);
                }
            }
            assert forall|i: int, j: int|
                0 <= i <= j < post_views(out@).len() implies (
            #[trigger] post_views(out@)[i]).created_at >= (
            #[trigger] post_views(out@)[j]).created_at by {
                if j < out@.len() - 1 {
                    assert(outv0[i].created_at >= outv0[j].created_at);
                } else if i < j {
                    assert(out@[i].created_at >= restv0[m as int].created_at);
                }
            }
        }
    }
    proof {
        assert(post_views(rest@).to_multiset() =~= Multiset::<PostV>::empty());
        assert(post_views(out@).to_multiset().add(Multiset::<PostV>::empty()) =~= post_views(
            out@,
        ).to_multiset());
    }
    out
}

/// The feed route: every post whose author the viewer follows, newest
/// first.  The result is a permutation of exactly those rows — nothing by
/// an unfollowed author appears, nothing by a followed one is dropped —
/// ordered by creation time descending.
pub fn list_feed(db: &Db, viewer: i32) -> (r: Vec<Post>)
    ensures
        ({
            let picked = spec_feed_pick(db@, viewer as int);
            let out = post_views(r@);
            &&& out.to_multiset() == picked.to_multiset()
            &&& sorted_desc(out)
            &&& forall|i: int|
                0 <= i < out.len() ==> db@.has_follow(
                    (#[trigger] out[i]).user_id,
                    viewer as int,
                )
            &&& forall|j: int|
                0 <= j < db@.posts.len() && db@.has_follow(
                    (#[trigger] db@.posts[j]).user_id,
                    viewer as int,
                ) ==> out.contains(db@.posts[j])
        }),
{
    broadcast use vstd::seq_lib::group_to_multiset_ensures;

    let ghost pred = |p: PostV| db@.has_follow(p.user_id, viewer as int);
    let mut picked: Vec<Post> = Vec::new();
    let n = db.posts.len();
    let mut i: usize = 0;
    while i < n
        invariant
            i <= n,
            n == db.posts.len(),
            pred == (|p: PostV| db@.has_follow(p.user_id, viewer as int)),
            post_views(picked@) == db@.posts.take(i as int).filter(pred),
        decreases n - i,
    {
        let ghost prev = picked@;
        let followed = db.find_follow(db.posts[i].user_id, viewer).is_some();
        if followed {
            picked.push(db.posts[i].duplicate());
        }
        proof {
            lemma_filter_take_step(db@.posts, pred, i as int);
            if followed {
                assert(post_views(picked@) =~= post_views(prev).push(db@.posts[i as int]));
            }
        }
        i += 1;
    }
    proof {
        assert(db@.posts.take(n as int) =~= db@.posts);
    }
    let r = sort_posts_desc(picked);
    proof {
        let picked_s = spec_feed_pick(db@, viewer as int);
        let out = post_views(r@);
        broadcast use vstd::seq_lib::group_filter_ensures;
        assert forall|i: int|
            0 <= i < out.len() implies db@.has_follow(
            (#[trigger] out[i]).user_id,
            viewer as int,
        ) by {
            assert(out.contains(out[i]));
            assert(out.to_multiset().count(out[i]) > 0);
            assert(picked_s.to_multiset().count(out[i]) > 0);
            assert(picked_s.contains(out[i]));
            let k = choose|k: int| 0 <= k < picked_s.len() && picked_s[k] == out[i];
            assert(pred(picked_s[k]));
        }
        assert forall|j: int|
            0 <= j < db@.posts.len() && db@.has_follow(
            (#[trigger] db@.posts[j]).user_id,
            viewer as int,
        ) implies out.contains(db@.posts[j]) by {
            assert(pred(db@.posts[j]));
            assert(picked_s.contains(db@.posts[j]));
            assert(picked_s.to_multiset().count(db@.posts[j]) > 0);
            assert(out.to_multiset().count(db@.posts[j]) > 0);
        }
    }
    r
}

/// The post with the given id, or `NotFound`.
pub fn get_by_id(db: &Db, id: i32) -> (r: Result<Post, DbError>)
    requires
        db@.wf(),
    ensures
        db@.has_post(id as int) ==> (r matches Ok(p) && p@ == db@.post_of(id as int)),
        !db@.has_post(id as int) ==> r == Err::<Post, DbError>(DbError::NotFound),
{
    match db.find_post(id) {
        None => Err(DbError::NotFound),
        Some(i) => {
            proof {
                let ci = db@.post_idx(id as int);
                assert(0 <= ci < db@.posts.len() && db@.posts[ci].id == id as int);
                if ci != i as int {
                    if ci < i as int {
                        assert(db@.posts[ci].id != db@.posts[i as int].id);
                    } else {
                        assert(db@.posts[i as int].id != db@.posts[ci].id);
                    }
                }
            }
            Ok(db.posts[i].duplicate())
        },
    }
}

} // verus!
