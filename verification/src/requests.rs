use vstd::prelude::*;

verus! {

/// Authentication data, as posted to the register and login routes.
pub struct AuthRequest {
    pub username: String,
    pub password: String,
    pub email: String,
}

/// Data to log out from a session.
pub struct LogoutRequest {
    pub token: String,
}

/// Body of the post-creation route.  `related_to_post` marks a reply.
pub struct PostCreateRequest {
    pub related_to_post: Option<i32>,
    pub user_id: i32,
    pub text: String,
}

} // verus!
