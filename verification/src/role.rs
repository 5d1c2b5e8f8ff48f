use vstd::prelude::*;

verus! {

/// Access level of a user account.  `Admin` is the most privileged; the
/// numeric rank grows as the privilege shrinks (`Admin` = 1, `Moderator` = 2,
/// `User` = 3).
#[derive(Clone, Copy, Debug, PartialEq, Eq, Structural)]
pub enum Role {
    Admin,
    Moderator,
    User,
}

impl Role {
    /// Numeric rank of the role as stored in the `user` table.
    pub open spec fn spec_rank(self) -> u8 {
        match self {
            Role::Admin => 1u8,
            Role::Moderator => 2u8,
            Role::User => 3u8,
        }
    }

    /// Name of the role as it appears inside a token's claim set.
    pub open spec fn spec_name(self) -> Seq<char> {
        match self {
            Role::Admin => "admin"@,
            Role::Moderator => "moderator"@,
            Role::User => "user"@,
        }
    }

    pub fn from_u8(n: u8) -> (r: Result<Role, String>)
        ensures
            1 <= n <= 3 <==> r is Ok,
            n == 1 ==> r == Ok::<Role, String>(Role::Admin),
            n == 2 ==> r == Ok::<Role, String>(Role::Moderator),
            n == 3 ==> r == Ok::<Role, String>(Role::User),
            r is Err ==> r->Err_0@ == "Expected a number from: 1, 2 or 3"@,
    {
        match n {
            1 => Ok(Role::Admin),
            2 => Ok(Role::Moderator),
            3 => Ok(Role::User),
            _ => Err(String::from_str("Expected a number from: 1, 2 or 3")),
        }
    }

    pub fn to_u8(role: Role) -> (n: u8)
        ensures
            n == role.spec_rank(),
    {
        match role {
            Role::Admin => 1,
            Role::Moderator => 2,
            Role::User => 3,
        }
    }

    /// Claim-set name of the role; the executable counterpart of
    /// [`Role::spec_name`].
    pub fn name(&self) -> (s: String)
        ensures
            s@ == self.spec_name(),
    {
        match self {
            Role::Admin => String::from_str("admin"),
            Role::Moderator => String::from_str("moderator"),
            Role::User => String::from_str("user"),
        }
    }

    /// The role a claim-set name denotes, matched without regard to
    /// case; the executable counterpart of [`spec_role_of_name`].
    pub fn parse(name: &String) -> (r: Option<Role>)
        ensures
            r == spec_role_of_name(name@),
    {
        proof {
            reveal_strlit("admin");
            reveal_strlit("moderator");
            reveal_strlit("user");
            assert("admin"@.len() == 5 && "moderator"@.len() == 9 && "user"@.len() == 4);
            assert("admin"@ != "moderator"@ && "admin"@ != "user"@ && "moderator"@
                != "user"@);
        }
        let low = lowercase(name.as_str());
        if low == String::from_str("admin") {
            Some(Role::Admin)
        } else if low == String::from_str("moderator") {
            Some(Role::Moderator)
        } else if low == String::from_str("user") {
            Some(Role::User)
        } else {
            None
        }
    }

    /// A caller with rank `r` may use a route gated on `required` exactly
    /// when its rank is at most the required one.
    pub fn satisfies(self, required: Role) -> (b: bool)
        ensures
            b == (self.spec_rank() <= required.spec_rank()),
    {
        Role::to_u8(self) <= Role::to_u8(required)
    }
}

/// The lowercase mapping of a text: what `str::to_lowercase` returns, a
/// function of the characters alone.
pub uninterp spec fn lower_of(s: Seq<char>) -> Seq<char>;

/// Relies on std's `str::to_lowercase`.
#[verifier::external_body]
fn lowercase(s: &str) -> (r: String)
    ensures
        r@ == lower_of(s@),
{
    s.to_lowercase()
}

/// Which role a name denotes once lowercased.
pub open spec fn spec_role_of_name(name: Seq<char>) -> Option<Role> {
    if lower_of(name) == "admin"@ {
        Some(Role::Admin)
    } else if lower_of(name) == "moderator"@ {
        Some(Role::Moderator)
    } else if lower_of(name) == "user"@ {
        Some(Role::User)
    } else {
        None
    }
}

} // verus!
