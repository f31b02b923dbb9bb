use vstd::prelude::*;

use crate::TimeMs;

verus! {

/// A registered user. The id is immutable; display name and avatar are
/// mutable.
pub struct User {
    pub id: u64,
    pub username: String,
    pub display_name: String,
    pub avatar_url: String,
    pub created_at: TimeMs,
}

impl Clone for User {
    fn clone(&self) -> (r: Self)
        ensures
            r == *self,
    {
        User {
            id: self.id,
            username: self.username.clone(),
            display_name: self.display_name.clone(),
            avatar_url: self.avatar_url.clone(),
            created_at: self.created_at,
        }
    }
}

pub struct CreateUserRequest {
    pub username: String,
    pub display_name: String,
    pub avatar_url: String,
}

pub struct UpdateUserRequest {
    pub display_name: Option<String>,
    pub avatar_url: Option<String>,
}

/// A user after an update request: each field given in the request is
/// overwritten, the rest stay.
pub open spec fn spec_apply_user_update(u: User, request: UpdateUserRequest) -> User {
    User {
        display_name: match request.display_name {
            Some(d) => d,
            None => u.display_name,
        },
        avatar_url: match request.avatar_url {
            Some(a) => a,
            None => u.avatar_url,
        },
        ..u
    }
}

/// The users found under `ids`, in request order; unknown ids are dropped.
pub open spec fn resolve_users(users: Map<u64, User>, ids: Seq<u64>) -> Seq<User>
    decreases ids.len(),
{
    if ids.len() == 0 {
        Seq::empty()
    } else {
        let rest = resolve_users(users, ids.drop_last());
        if users.dom().contains(ids.last()) {
            rest.push(users[ids.last()])
        } else {
            rest
        }
    }
}

/// The ids of `ids` that are registered users, in request order.
pub open spec fn known_users(users: Map<u64, User>, ids: Seq<u64>) -> Seq<u64>
    decreases ids.len(),
{
    if ids.len() == 0 {
        Seq::empty()
    } else {
        let rest = known_users(users, ids.drop_last());
        if users.dom().contains(ids.last()) {
            rest.push(ids.last())
        } else {
            rest
        }
    }
}

} // verus!
