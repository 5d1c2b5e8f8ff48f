use vstd::prelude::*;

use crate::counting::{count_where, lemma_count_where_keyed_bound, lemma_distinct_in_range_len};

verus! {

// ---------------------------------------------------------------------------
// Rows of the relational store, and their mathematical views.
// ---------------------------------------------------------------------------

/// A row of the `user` table.  `followers` and `following` are denormalized
/// caches of the cardinality of the `follower` table; the store invariant
/// [`DbView::wf`] ties them to it.
pub struct User {
    pub id: i32,
    pub username: String,
    pub email: String,
    pub password: String,
    pub followers: i32,
    pub following: i32,
    pub role: u8,
    pub created_at: i64,
}

#[verifier::ext_equal]
pub struct UserV {
    pub id: int,
    pub username: Seq<char>,
    pub email: Seq<char>,
    pub password: Seq<char>,
    pub followers: int,
    pub following: int,
    pub role: int,
    pub created_at: int,
}

impl View for User {
    type V = UserV;

    open spec fn view(&self) -> UserV {
        UserV {
            id: self.id as int,
            username: self.username@,
            email: self.email@,
            password: self.password@,
            followers: self.followers as int,
            following: self.following as int,
            role: self.role as int,
            created_at: self.created_at as int,
        }
    }
}

impl User {
    /// Field-by-field copy; `String` fields are cloned, so the copy has the
    /// same view as the original.
    pub fn duplicate(&self) -> (r: User)
        ensures
            r@ == self@,
    {
        User {
            id: self.id,
            username: self.username.clone(),
            email: self.email.clone(),
            password: self.password.clone(),
            followers: self.followers,
            following: self.following,
            role: self.role,
            created_at: self.created_at,
        }
    }
}

/// A row of the `follower` table: the directed edge "`follower_id` follows
/// `user_id`".  The composite key is the pair `(user_id, follower_id)`.
pub struct Follow {
    pub user_id: i32,
    pub follower_id: i32,
    pub created_at: i64,
}

#[verifier::ext_equal]
pub struct FollowV {
    pub user_id: int,
    pub follower_id: int,
    pub created_at: int,
}

impl View for Follow {
    type V = FollowV;

    open spec fn view(&self) -> FollowV {
        FollowV {
            user_id: self.user_id as int,
            follower_id: self.follower_id as int,
            created_at: self.created_at as int,
        }
    }
}

/// A row of the `post` table.  `likes` is a denormalized cache of the
/// cardinality of the `post_like` table.
pub struct Post {
    pub id: i32,
    pub related_to_post: Option<i32>,
    pub user_id: i32,
    pub text: String,
    pub likes: i32,
    pub comments: i32,
    pub created_at: i64,
}

#[verifier::ext_equal]
pub struct PostV {
    pub id: int,
    pub related_to_post: Option<int>,
    pub user_id: int,
    pub text: Seq<char>,
    pub likes: int,
    pub comments: int,
    pub created_at: int,
}

impl View for Post {
    type V = PostV;

    open spec fn view(&self) -> PostV {
        PostV {
            id: self.id as int,
            related_to_post: match self.related_to_post {
                Some(r) => Some(r as int),
                None => None,
            },
            user_id: self.user_id as int,
            text: self.text@,
            likes: self.likes as int,
            comments: self.comments as int,
            created_at: self.created_at as int,
        }
    }
}

impl Post {
    pub fn duplicate(&self) -> (r: Post)
        ensures
            r@ == self@,
    {
        Post {
            id: self.id,
            related_to_post: self.related_to_post,
            user_id: self.user_id,
            text: self.text.clone(),
            likes: self.likes,
            comments: self.comments,
            created_at: self.created_at,
        }
    }
}

/// A row of the `post_like` table: the edge "`user_id` likes `post_id`",
/// keyed by the pair `(user_id, post_id)`.
pub struct Like {
    pub post_id: i32,
    pub user_id: i32,
}

#[verifier::ext_equal]
pub struct LikeV {
    pub post_id: int,
    pub user_id: int,
}

impl View for Like {
    type V = LikeV;

    open spec fn view(&self) -> LikeV {
        LikeV { post_id: self.post_id as int, user_id: self.user_id as int }
    }
}

/// A row of the `session` table, keyed by the token string itself.
pub struct Session {
    pub jwt: String,
    pub user_id: i32,
}

#[verifier::ext_equal]
pub struct SessionV {
    pub jwt: Seq<char>,
    pub user_id: int,
}

impl View for Session {
    type V = SessionV;

    open spec fn view(&self) -> SessionV {
        SessionV { jwt: self.jwt@, user_id: self.user_id as int }
    }
}

// ---------------------------------------------------------------------------
// The store.
// ---------------------------------------------------------------------------

/// The relational store: six tables (the `role` table is fixed and kept as
/// the rank field of each user) plus the auto-increment cursors.
pub struct Db {
    pub users: Vec<User>,
    pub follows: Vec<Follow>,
    pub posts: Vec<Post>,
    pub likes: Vec<Like>,
    pub sessions: Vec<Session>,
    pub next_user_id: i32,
    pub next_post_id: i32,
}

/// The mathematical state of the store, over which all contracts speak.
#[verifier::ext_equal]
pub struct DbView {
    pub users: Seq<UserV>,
    pub follows: Seq<FollowV>,
    pub posts: Seq<PostV>,
    pub likes: Seq<LikeV>,
    pub sessions: Seq<SessionV>,
    pub next_user_id: int,
    pub next_post_id: int,
}

impl View for Db {
    type V = DbView;

    open spec fn view(&self) -> DbView {
        DbView {
            users: self.users@.map_values(|u: User| u@),
            follows: self.follows@.map_values(|f: Follow| f@),
            posts: self.posts@.map_values(|p: Post| p@),
            likes: self.likes@.map_values(|l: Like| l@),
            sessions: self.sessions@.map_values(|s: Session| s@),
            next_user_id: self.next_user_id as int,
            next_post_id: self.next_post_id as int,
        }
    }
}

impl DbView {
    // -- membership ---------------------------------------------------------

    pub open spec fn has_user(self, id: int) -> bool {
        exists|i: int| 0 <= i < self.users.len() && (#[trigger] self.users[i]).id == id
    }

    pub open spec fn user_idx(self, id: int) -> int {
        choose|i: int| 0 <= i < self.users.len() && (#[trigger] self.users[i]).id == id
    }

    pub open spec fn user_of(self, id: int) -> UserV {
        self.users[self.user_idx(id)]
    }

    pub open spec fn has_post(self, id: int) -> bool {
        exists|i: int| 0 <= i < self.posts.len() && (#[trigger] self.posts[i]).id == id
    }

    pub open spec fn post_idx(self, id: int) -> int {
        choose|i: int| 0 <= i < self.posts.len() && (#[trigger] self.posts[i]).id == id
    }

    pub open spec fn post_of(self, id: int) -> PostV {
        self.posts[self.post_idx(id)]
    }

    pub open spec fn has_follow(self, user_id: int, follower_id: int) -> bool {
        exists|i: int|
            0 <= i < self.follows.len() && (#[trigger] self.follows[i]).user_id == user_id
                && self.follows[i].follower_id == follower_id
    }

    pub open spec fn follow_idx(self, user_id: int, follower_id: int) -> int {
        choose|i: int|
            0 <= i < self.follows.len() && (#[trigger] self.follows[i]).user_id == user_id
                && self.follows[i].follower_id == follower_id
    }

    pub open spec fn has_like(self, post_id: int, user_id: int) -> bool {
        exists|i: int|
            0 <= i < self.likes.len() && (#[trigger] self.likes[i]).post_id == post_id
                && self.likes[i].user_id == user_id
    }

    pub open spec fn like_idx(self, post_id: int, user_id: int) -> int {
        choose|i: int|
            0 <= i < self.likes.len() && (#[trigger] self.likes[i]).post_id == post_id
                && self.likes[i].user_id == user_id
    }

    pub open spec fn has_session(self, jwt: Seq<char>) -> bool {
        exists|i: int| 0 <= i < self.sessions.len() && (#[trigger] self.sessions[i]).jwt == jwt
    }

    pub open spec fn session_idx(self, jwt: Seq<char>) -> int {
        choose|i: int| 0 <= i < self.sessions.len() && (#[trigger] self.sessions[i]).jwt == jwt
    }

    // -- derived counters ----------------------------------------------------

    /// How many rows of the `follower` table point at `id`.
    pub open spec fn followers_of(self, id: int) -> int {
        count_where(self.follows, |e: FollowV| e.user_id == id)
    }

    /// How many rows of the `follower` table originate at `id`.
    pub open spec fn following_of(self, id: int) -> int {
        count_where(self.follows, |e: FollowV| e.follower_id == id)
    }

    /// How many rows of the `post_like` table point at `id`.
    pub open spec fn likes_of(self, id: int) -> int {
        count_where(self.likes, |e: LikeV| e.post_id == id)
    }

    // -- well-formedness -----------------------------------------------------

    pub open spec fn users_wf(self) -> bool {
        &&& 1 <= self.next_user_id <= i32::MAX
        &&& forall|i: int|
            0 <= i < self.users.len() ==> {
                &&& 1 <= (#[trigger] self.users[i]).id < self.next_user_id
                &&& 1 <= self.users[i].role <= 3
            }
        &&& forall|i: int, j: int|
            0 <= i < j < self.users.len() ==> (#[trigger] self.users[i]).id
                != (#[trigger] self.users[j]).id
        &&& forall|i: int, j: int|
            0 <= i < j < self.users.len() ==> (#[trigger] self.users[i]).username
                != (#[trigger] self.users[j]).username
    }

    pub open spec fn follows_wf(self) -> bool {
        &&& forall|i: int|
            0 <= i < self.follows.len() ==> {
                &&& self.has_user((#[trigger] self.follows[i]).user_id)
                &&& self.has_user(self.follows[i].follower_id)
            }
        &&& forall|i: int, j: int|
            0 <= i < j < self.follows.len() ==> !((#[trigger] self.follows[i]).user_id
                == (#[trigger] self.follows[j]).user_id && self.follows[i].follower_id
                == self.follows[j].follower_id)
    }

    pub open spec fn counters_wf(self) -> bool {
        forall|i: int|
            0 <= i < self.users.len() ==> {
                &&& (#[trigger] self.users[i]).followers == self.followers_of(self.users[i].id)
                &&& self.users[i].following == self.following_of(self.users[i].id)
            }
    }

    pub open spec fn posts_wf(self) -> bool {
        &&& 1 <= self.next_post_id <= i32::MAX
        &&& forall|i: int|
            0 <= i < self.posts.len() ==> {
                &&& 1 <= (#[trigger] self.posts[i]).id < self.next_post_id
                &&& self.has_user(self.posts[i].user_id)
                &&& (self.posts[i].related_to_post matches Some(r) ==> self.has_post(r))
            }
        &&& forall|i: int, j: int|
            0 <= i < j < self.posts.len() ==> (#[trigger] self.posts[i]).id
                != (#[trigger] self.posts[j]).id
    }

    pub open spec fn likes_wf(self) -> bool {
        &&& forall|i: int|
            0 <= i < self.likes.len() ==> {
                &&& self.has_post((#[trigger] self.likes[i]).post_id)
                &&& self.has_user(self.likes[i].user_id)
            }
        &&& forall|i: int, j: int|
            0 <= i < j < self.likes.len() ==> !((#[trigger] self.likes[i]).post_id
                == (#[trigger] self.likes[j]).post_id && self.likes[i].user_id
                == self.likes[j].user_id)
        &&& forall|i: int|
            0 <= i < self.posts.len() ==> (#[trigger] self.posts[i]).likes == self.likes_of(
                self.posts[i].id,
            )
    }

    pub open spec fn sessions_wf(self) -> bool {
        &&& forall|i: int|
            0 <= i < self.sessions.len() ==> self.has_user(
                (#[trigger] self.sessions[i]).user_id,
            )
        &&& forall|i: int, j: int|
            0 <= i < j < self.sessions.len() ==> (#[trigger] self.sessions[i]).jwt
                != (#[trigger] self.sessions[j]).jwt
    }

    /// The schema invariant: primary keys are unique, foreign keys resolve,
    /// and every denormalized counter equals the cardinality it caches.
    pub open spec fn wf(self) -> bool {
        &&& self.users_wf()
        &&& self.follows_wf()
        &&& self.counters_wf()
        &&& self.posts_wf()
        &&& self.likes_wf()
        &&& self.sessions_wf()
    }

    /// The ids of the user rows, in row order.
    pub open spec fn user_ids(self) -> Seq<int> {
        self.users.map_values(|u: UserV| u.id)
    }

    /// Primary-key uniqueness, restated over [`DbView::user_ids`].
    pub proof fn lemma_user_ids_distinct(self)
        requires
            self.users_wf(),
        ensures
            self.user_ids().no_duplicates(),
            self.user_ids().to_set().finite(),
            self.user_ids().to_set().len() == self.users.len(),
            forall|uid: int| self.has_user(uid) ==> #[trigger] self.user_ids().to_set().contains(
                uid,
            ),
    {
        let ids = self.user_ids();
        assert forall|i: int, j: int|
            0 <= i < ids.len() && 0 <= j < ids.len() && i != j implies ids[i] != ids[j] by {
            if i < j {
                assert(self.users[i].id != self.users[j].id);
            } else {
                assert(self.users[j].id != self.users[i].id);
            }
        }
        ids.unique_seq_to_set();
        vstd::seq_lib::seq_to_set_is_finite(ids);
        assert forall|uid: int| self.has_user(uid) implies #[trigger] self.user_ids()
            .to_set()
            .contains(uid) by {
            let j = choose|j: int|
                0 <= j < self.users.len() && (#[trigger] self.users[j]).id == uid;
            assert(ids[j] == uid);
        }
    }

    /// Distinct user ids below `next_user_id` bound the table's size.
    pub proof fn lemma_users_len(self)
        requires
            self.users_wf(),
        ensures
            self.users.len() <= i32::MAX - 1,
    {
        let ids = self.user_ids();
        lemma_distinct_in_range_len(ids, 1, self.next_user_id);
    }

    /// A user's `followers` cache can never reach the table size bound:
    /// matching follow edges carry pairwise distinct follower ids, each an
    /// existing user's id.
    pub proof fn lemma_followers_bound(self, id: int)
        requires
            self.users_wf(),
            self.follows_wf(),
        ensures
            self.followers_of(id) <= self.users.len() <= i32::MAX - 1,
    {
        self.lemma_user_ids_distinct();
        lemma_count_where_keyed_bound(
            self.follows,
            |e: FollowV| e.user_id == id,
            |e: FollowV| e.follower_id,
            self.user_ids().to_set(),
        );
        self.lemma_users_len();
    }

    /// Same bound for the `following` cache, keyed on the target this time.
    pub proof fn lemma_following_bound(self, id: int)
        requires
            self.users_wf(),
            self.follows_wf(),
        ensures
            self.following_of(id) <= self.users.len() <= i32::MAX - 1,
    {
        self.lemma_user_ids_distinct();
        lemma_count_where_keyed_bound(
            self.follows,
            |e: FollowV| e.follower_id == id,
            |e: FollowV| e.user_id,
            self.user_ids().to_set(),
        );
        self.lemma_users_len();
    }

    /// Same bound for a post's `likes` cache: matching like edges carry
    /// pairwise distinct user ids.
    pub proof fn lemma_likes_bound(self, id: int)
        requires
            self.users_wf(),
            self.likes_wf(),
        ensures
            self.likes_of(id) <= self.users.len() <= i32::MAX - 1,
    {
        self.lemma_user_ids_distinct();
        lemma_count_where_keyed_bound(
            self.likes,
            |e: LikeV| e.post_id == id,
            |e: LikeV| e.user_id,
            self.user_ids().to_set(),
        );
        self.lemma_users_len();
    }
}

/// Two states whose user rows carry the same ids row by row agree on which
/// users exist.
pub proof fn lemma_has_user_congruence(a: DbView, b: DbView)
    requires
        a.users.len() == b.users.len(),
        forall|i: int| 0 <= i < a.users.len() ==> (#[trigger] a.users[i]).id == b.users[i].id,
    ensures
        forall|uid: int| #[trigger] a.has_user(uid) == b.has_user(uid),
{
    assert forall|uid: int| #[trigger] a.has_user(uid) == b.has_user(uid) by {
        if a.has_user(uid) {
            let i = choose|i: int| 0 <= i < a.users.len() && (#[trigger] a.users[i]).id == uid;
            assert(b.users[i].id == uid);
        }
        if b.has_user(uid) {
            let i = choose|i: int| 0 <= i < b.users.len() && (#[trigger] b.users[i]).id == uid;
            assert(a.users[i].id == uid);
        }
    }
}

/// Two states whose post rows carry the same ids row by row agree on which
/// posts exist.
pub proof fn lemma_has_post_congruence(a: DbView, b: DbView)
    requires
        a.posts.len() == b.posts.len(),
        forall|i: int| 0 <= i < a.posts.len() ==> (#[trigger] a.posts[i]).id == b.posts[i].id,
    ensures
        forall|pid: int| #[trigger] a.has_post(pid) == b.has_post(pid),
{
    assert forall|pid: int| #[trigger] a.has_post(pid) == b.has_post(pid) by {
        if a.has_post(pid) {
            let i = choose|i: int| 0 <= i < a.posts.len() && (#[trigger] a.posts[i]).id == pid;
            assert(b.posts[i].id == pid);
        }
        if b.has_post(pid) {
            let i = choose|i: int| 0 <= i < b.posts.len() && (#[trigger] b.posts[i]).id == pid;
            assert(a.posts[i].id == pid);
        }
    }
}

// ---------------------------------------------------------------------------
// Executable lookups.
// ---------------------------------------------------------------------------

impl Db {
    /// An empty store, as the migrations leave it.
    pub fn new() -> (db: Db)
        ensures
            db@.wf(),
            db@.next_user_id == 1,
            db@.next_post_id == 1,
            db@.users == Seq::<UserV>::empty(),
            db@.follows == Seq::<FollowV>::empty(),
            db@.posts == Seq::<PostV>::empty(),
            db@.likes == Seq::<LikeV>::empty(),
            db@.sessions == Seq::<SessionV>::empty(),
    {
        let db = Db {
            users: Vec::new(),
            follows: Vec::new(),
            posts: Vec::new(),
            likes: Vec::new(),
            sessions: Vec::new(),
            next_user_id: 1,
            next_post_id: 1,
        };
        proof {
            assert(db@.users =~= Seq::<UserV>::empty());
            assert(db@.follows =~= Seq::<FollowV>::empty());
            assert(db@.posts =~= Seq::<PostV>::empty());
            assert(db@.likes =~= Seq::<LikeV>::empty());
            assert(db@.sessions =~= Seq::<SessionV>::empty());
        }
        db
    }

    /// Index of the user row with the given id, if any.
    pub fn find_user(&self, id: i32) -> (r: Option<usize>)
        ensures
            match r {
                Some(i) => i < self.users.len() && self@.users[i as int].id == id,
                None => !self@.has_user(id as int),
            },
    {
        let n = self.users.len();
        let mut i: usize = 0;
        while i < n
            invariant
                i <= n,
                n == self.users.len(),
                forall|j: int| 0 <= j < i ==> (#[trigger] self@.users[j]).id != id,
            decreases n - i,
        {
            if self.users[i].id == id {
                return Some(i);
            }
            i += 1;
        }
        None
    }

    /// Index of the post row with the given id, if any.
    pub fn find_post(&self, id: i32) -> (r: Option<usize>)
        ensures
            match r {
                Some(i) => i < self.posts.len() && self@.posts[i as int].id == id,
                None => !self@.has_post(id as int),
            },
    {
        let n = self.posts.len();
        let mut i: usize = 0;
        while i < n
            invariant
                i <= n,
                n == self.posts.len(),
                forall|j: int| 0 <= j < i ==> (#[trigger] self@.posts[j]).id != id,
            decreases n - i,
        {
            if self.posts[i].id == id {
                return Some(i);
            }
            i += 1;
        }
        None
    }

    /// Index of the follow edge with the given composite key, if any.
    pub fn find_follow(&self, user_id: i32, follower_id: i32) -> (r: Option<usize>)
        ensures
            match r {
                Some(i) => i < self.follows.len() && self@.follows[i as int].user_id == user_id
                    && self@.follows[i as int].follower_id == follower_id,
                None => !self@.has_follow(user_id as int, follower_id as int),
            },
    {
        let n = self.follows.len();
        let mut i: usize = 0;
        while i < n
            invariant
                i <= n,
                n == self.follows.len(),
                forall|j: int|
                    0 <= j < i ==> !((#[trigger] self@.follows[j]).user_id == user_id
                        && self@.follows[j].follower_id == follower_id),
            decreases n - i,
        {
            if self.follows[i].user_id == user_id && self.follows[i].follower_id == follower_id {
                return Some(i);
            }
            i += 1;
        }
        None
    }

    /// Index of the like edge with the given composite key, if any.
    pub fn find_like(&self, post_id: i32, user_id: i32) -> (r: Option<usize>)
        ensures
            match r {
                Some(i) => i < self.likes.len() && self@.likes[i as int].post_id == post_id
                    && self@.likes[i as int].user_id == user_id,
                None => !self@.has_like(post_id as int, user_id as int),
            },
    {
        let n = self.likes.len();
        let mut i: usize = 0;
        while i < n
            invariant
                i <= n,
                n == self.likes.len(),
                forall|j: int|
                    0 <= j < i ==> !((#[trigger] self@.likes[j]).post_id == post_id
                        && self@.likes[j].user_id == user_id),
            decreases n - i,
        {
            if self.likes[i].post_id == post_id && self.likes[i].user_id == user_id {
                return Some(i);
            }
            i += 1;
        }
        None
    }

    /// Index of the session row keyed by the given token, if any.
    pub fn find_session(&self, jwt: &String) -> (r: Option<usize>)
        ensures
            match r {
                Some(i) => i < self.sessions.len() && self@.sessions[i as int].jwt == jwt@,
                None => !self@.has_session(jwt@),
            },
    {
        let n = self.sessions.len();
        let mut i: usize = 0;
        while i < n
            invariant
                i <= n,
                n == self.sessions.len(),
                forall|j: int| 0 <= j < i ==> (#[trigger] self@.sessions[j]).jwt != jwt@,
            decreases n - i,
        {
            if self.sessions[i].jwt == *jwt {
                return Some(i);
            }
            i += 1;
        }
        None
    }
}

} // verus!
