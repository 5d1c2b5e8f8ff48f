use socialnet::errors::DbError;
use socialnet::follow::{commit_follow_insert, follow_at, Toggled};
use socialnet::like::like;
use socialnet::model::Db;
use socialnet::post;
use socialnet::requests::{AuthRequest, PostCreateRequest};
use socialnet::users;

fn auth_req(name: &str, password: &str) -> AuthRequest {
    AuthRequest {
        username: String::from(name),
        password: String::from(password),
        email: format!("{}@example.com", name),
    }
}

/// A store with two users: id 1 and id 2.
fn two_user_db() -> Db {
    let mut db = Db::new();
    users::create_at(&mut db, &auth_req("alice", "pw-a"), 100).unwrap();
    users::create_at(&mut db, &auth_req("bob", "pw-b"), 101).unwrap();
    db
}

fn counters_of(db: &Db, id: i32) -> (i32, i32) {
    let u = users::get_by_id(db, id).unwrap();
    (u.followers, u.following)
}

#[test]
fn follow_once_creates_edge_and_counters() {
    let mut db = two_user_db();
    // user 2 follows user 1
    let r = follow_at(&mut db, 1, 2, 500).unwrap();
    assert_eq!(r, Toggled::Created);
    assert_eq!(counters_of(&db, 1), (1, 0));
    assert_eq!(counters_of(&db, 2), (0, 1));
    assert_eq!(db.follows.len(), 1);
}

#[test]
fn follow_twice_returns_to_original_state() {
    let mut db = two_user_db();
    assert_eq!(follow_at(&mut db, 1, 2, 500).unwrap(), Toggled::Created);
    assert_eq!(follow_at(&mut db, 1, 2, 600).unwrap(), Toggled::Removed);
    assert_eq!(counters_of(&db, 1), (0, 0));
    assert_eq!(counters_of(&db, 2), (0, 0));
    assert_eq!(db.follows.len(), 0);
}

#[test]
fn follow_missing_user_is_not_found() {
    let mut db = two_user_db();
    assert_eq!(follow_at(&mut db, 9, 2, 500), Err(DbError::NotFound));
    assert_eq!(follow_at(&mut db, 1, 9, 500), Err(DbError::NotFound));
    assert_eq!(db.follows.len(), 0);
}

#[test]
fn self_follow_bumps_both_counters_on_one_row() {
    let mut db = two_user_db();
    assert_eq!(follow_at(&mut db, 1, 1, 500).unwrap(), Toggled::Created);
    assert_eq!(counters_of(&db, 1), (1, 1));
    assert_eq!(follow_at(&mut db, 1, 1, 600).unwrap(), Toggled::Removed);
    assert_eq!(counters_of(&db, 1), (0, 0));
}

#[test]
fn racing_follow_inserts_commit_exactly_once() {
    // Two toggles that both observed "no edge" both try the insert
    // transaction; the second hits the key conflict and nothing doubles.
    let mut db = two_user_db();
    assert_eq!(commit_follow_insert(&mut db, 1, 2, 500), Ok(Toggled::Created));
    assert_eq!(commit_follow_insert(&mut db, 1, 2, 501), Err(DbError::AlreadyExists));
    assert_eq!(db.follows.len(), 1);
    assert_eq!(counters_of(&db, 1), (1, 0));
    assert_eq!(counters_of(&db, 2), (0, 1));
}

fn post_req(user_id: i32, text: &str) -> PostCreateRequest {
    PostCreateRequest { related_to_post: None, user_id, text: String::from(text) }
}

#[test]
fn like_increments_by_one_and_a_second_like_reverts_it() {
    let mut db = two_user_db();
    post::create_at(&mut db, &post_req(1, "hello"), 300).unwrap();
    let before = post::get_by_id(&db, 1).unwrap().likes;
    assert_eq!(before, 0);
    assert_eq!(like(&mut db, 1, 2), Ok(Toggled::Created));
    assert_eq!(post::get_by_id(&db, 1).unwrap().likes, 1);
    assert_eq!(like(&mut db, 1, 2), Ok(Toggled::Removed));
    assert_eq!(post::get_by_id(&db, 1).unwrap().likes, before);
    assert_eq!(db.likes.len(), 0);
}

#[test]
fn like_missing_post_is_not_found() {
    let mut db = two_user_db();
    assert_eq!(like(&mut db, 7, 1), Err(DbError::NotFound));
}

#[test]
fn like_by_unknown_user_is_rejected_by_the_store() {
    let mut db = two_user_db();
    post::create_at(&mut db, &post_req(1, "hello"), 300).unwrap();
    assert_eq!(like(&mut db, 1, 99), Err(DbError::InternalError));
    assert_eq!(post::get_by_id(&db, 1).unwrap().likes, 0);
}

#[test]
fn delete_missing_post_reports_not_found_and_changes_nothing() {
    let mut db = two_user_db();
    post::create_at(&mut db, &post_req(1, "keep me"), 300).unwrap();
    let rows_before = db.posts.len();
    assert_eq!(post::delete(&mut db, 42), Err(DbError::NotFound));
    assert_eq!(db.posts.len(), rows_before);
}

#[test]
fn delete_liked_post_is_rejected_by_the_store() {
    let mut db = two_user_db();
    post::create_at(&mut db, &post_req(1, "liked"), 300).unwrap();
    like(&mut db, 1, 2).unwrap();
    assert_eq!(post::delete(&mut db, 1), Err(DbError::InternalError));
    assert_eq!(db.posts.len(), 1);
    // After the like is gone the delete goes through.
    like(&mut db, 1, 2).unwrap();
    assert_eq!(post::delete(&mut db, 1), Ok(()));
    assert_eq!(db.posts.len(), 0);
}

#[test]
fn delete_replied_to_post_is_rejected_by_the_store() {
    let mut db = two_user_db();
    post::create_at(&mut db, &post_req(1, "parent"), 300).unwrap();
    let reply = PostCreateRequest {
        related_to_post: Some(1),
        user_id: 2,
        text: String::from("reply"),
    };
    post::create_at(&mut db, &reply, 301).unwrap();
    assert_eq!(post::delete(&mut db, 1), Err(DbError::InternalError));
    assert_eq!(post::delete(&mut db, 2), Ok(()));
    assert_eq!(post::delete(&mut db, 1), Ok(()));
}

#[test]
fn create_post_with_unknown_author_is_rejected() {
    let mut db = two_user_db();
    assert_eq!(post::create_at(&mut db, &post_req(77, "ghost"), 300), Err(DbError::InternalError));
    assert_eq!(db.posts.len(), 0);
}

#[test]
fn update_post_replaces_text_and_returns_the_row() {
    let mut db = two_user_db();
    post::create_at(&mut db, &post_req(1, "old text"), 300).unwrap();
    let updated = post::update(&mut db, 1, &post_req(1, "new text")).unwrap();
    assert_eq!(updated.text, "new text");
    assert_eq!(post::get_by_id(&db, 1).unwrap().text, "new text");
    assert!(matches!(post::update(&mut db, 9, &post_req(1, "x")), Err(DbError::NotFound)));
}

#[test]
fn post_list_returns_all_rows_in_table_order() {
    let mut db = two_user_db();
    post::create_at(&mut db, &post_req(1, "first"), 300).unwrap();
    post::create_at(&mut db, &post_req(2, "second"), 301).unwrap();
    let all = post::list(&db);
    assert_eq!(all.len(), 2);
    assert_eq!(all[0].text, "first");
    assert_eq!(all[1].text, "second");
}

#[test]
fn feed_holds_only_followed_authors_newest_first() {
    let mut db = Db::new();
    users::create_at(&mut db, &auth_req("viewer", "pw"), 1).unwrap(); // id 1
    users::create_at(&mut db, &auth_req("a", "pw"), 2).unwrap(); // id 2
    users::create_at(&mut db, &auth_req("b", "pw"), 3).unwrap(); // id 3
    users::create_at(&mut db, &auth_req("c", "pw"), 4).unwrap(); // id 4
    follow_at(&mut db, 2, 1, 10).unwrap(); // viewer follows a
    follow_at(&mut db, 3, 1, 11).unwrap(); // viewer follows b
    post::create_at(&mut db, &post_req(2, "a-early"), 100).unwrap();
    post::create_at(&mut db, &post_req(4, "c-ignored"), 150).unwrap();
    post::create_at(&mut db, &post_req(3, "b-late"), 200).unwrap();
    post::create_at(&mut db, &post_req(2, "a-middle"), 160).unwrap();
    let feed = post::list_feed(&db, 1);
    let texts: Vec<String> = feed.iter().map(|p| p.text.clone()).collect();
    assert_eq!(texts, vec![
        String::from("b-late"),
        String::from("a-middle"),
        String::from("a-early"),
    ]);
}

#[test]
fn followers_and_following_listings_join_usernames_newest_first() {
    let mut db = Db::new();
    users::create_at(&mut db, &auth_req("star", "pw"), 1).unwrap(); // id 1
    users::create_at(&mut db, &auth_req("fan1", "pw"), 2).unwrap(); // id 2
    users::create_at(&mut db, &auth_req("fan2", "pw"), 3).unwrap(); // id 3
    follow_at(&mut db, 1, 2, 10).unwrap();
    follow_at(&mut db, 1, 3, 20).unwrap();
    let followers = users::get_user_followers(&db, 1);
    let names: Vec<String> = followers.iter().map(|f| f.username.clone()).collect();
    assert_eq!(names, vec![String::from("fan2"), String::from("fan1")]);
    let following = users::get_user_following(&db, 2);
    assert_eq!(following.len(), 1);
    assert_eq!(following[0].username, "star");
    assert_eq!(following[0].id, 1);
}

#[test]
fn user_lookup_by_id_and_username() {
    let db = two_user_db();
    assert_eq!(users::get_by_id(&db, 2).unwrap().username, "bob");
    assert!(matches!(users::get_by_id(&db, 9), Err(DbError::NotFound)));
    let u = users::get_by_username(&db, &String::from("alice")).unwrap();
    assert_eq!(u.id, 1);
    assert!(matches!(
        users::get_by_username(&db, &String::from("nobody")),
        Err(DbError::NotFound)
    ));
    assert_eq!(users::list(&db).len(), 2);
}

#[test]
fn existence_checks_answer_already_exists() {
    let db = two_user_db();
    assert_eq!(users::check_user_by_id(&db, 1), Err(DbError::AlreadyExists));
    assert_eq!(users::check_user_by_id(&db, 9), Ok(()));
    assert_eq!(
        users::check_user_by_username(&db, &String::from("bob")),
        Err(DbError::AlreadyExists)
    );
    assert_eq!(users::check_user_by_username(&db, &String::from("zoe")), Ok(()));
}
