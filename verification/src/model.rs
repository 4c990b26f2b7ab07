use vstd::prelude::*;

verus! {

/// Identifier of a user in the upstream network.
pub type UserId = i64;

/// Lightweight projection of a user: enough to identify and display a
/// follower without owning the full profile.
///
/// Instants (`last_online`) carry upstream timestamps as milliseconds since
/// the Unix epoch; the application converts them at its boundary.
#[derive(Debug, PartialEq)]
pub struct FollowingUser {
    pub id: UserId,
    pub first_name: String,
    pub last_name: String,
    pub user_link: String,
    pub last_online: i64,
}

impl Clone for FollowingUser {
    fn clone(&self) -> (res: Self)
        ensures
            res == *self,
    {
        FollowingUser {
            id: self.id,
            first_name: self.first_name.clone(),
            last_name: self.last_name.clone(),
            user_link: self.user_link.clone(),
            last_online: self.last_online,
        }
    }
}

/// A discovered follow edge: a user together with the minimum hop distance
/// (`order`) at which the resolver reached them from the resolution root.
#[derive(Debug, PartialEq)]
pub struct FollowWithOrder {
    pub following_user: FollowingUser,
    pub order: i64,
}

impl Clone for FollowWithOrder {
    fn clone(&self) -> (res: Self)
        ensures
            res == *self,
    {
        FollowWithOrder { following_user: self.following_user.clone(), order: self.order }
    }
}

/// A user record as returned by the upstream directory listing.
#[derive(Debug, Clone, PartialEq)]
pub struct User {
    pub id: UserId,
    pub first_name: String,
    pub last_name: String,
    pub user_link: String,
    pub last_online: i64,
}

/// A comment attached to a highlight; replies nest recursively.
#[derive(Debug, PartialEq)]
pub struct Comment {
    pub id: i64,
    pub user_id: UserId,
    pub user: Option<User>,
    pub parent_id: Option<i64>,
    pub text: String,
    pub created_date: i64,
    pub modified_date: i64,
    pub replies: Option<Vec<Comment>>,
}

/// A highlighted passage of a saved link.
#[derive(Debug, PartialEq)]
pub struct Highlight {
    pub id: i64,
    pub user_id: UserId,
    pub link_id: i64,
    pub highlight: String,
    pub created_date: i64,
    pub left_context: String,
    pub right_context: String,
    pub raw_highlight: String,
    pub comment_ids: Vec<Option<i64>>,
    pub comment: Option<Comment>,
}

/// A saved content item. Creation and modification timestamps are opaque,
/// lexicographically comparable strings exactly as the upstream API sends
/// them. `metadata` holds the raw text of the upstream metadata payload,
/// which the core never interprets. `saved_by` is not part of the upstream
/// payload: the feed aggregator rebuilds it on every aggregation, naming
/// every resolved follower who saved the item.
#[derive(Debug, PartialEq)]
pub struct Content {
    pub id: i64,
    pub link: String,
    pub title: String,
    pub favorite: bool,
    pub snippet: Option<String>,
    pub to_read: Option<bool>,
    pub created_by: Option<UserId>,
    pub created_date: String,
    pub modified_date: String,
    pub last_crawled: Option<String>,
    pub metadata: Option<String>,
    pub highlights: Vec<Highlight>,
    pub user_ids: Option<Vec<UserId>>,
    pub saved_by: Option<Vec<FollowWithOrder>>,
}

/// One user's page of saved content: the unit of upstream fetch and of cache
/// storage.
#[derive(Debug, PartialEq)]
pub struct LinkResponse {
    pub user_saved: Vec<Content>,
}

/// A full user profile as fetched from the upstream API, immutable once
/// fetched. `following_users` is the ordered sequence of users this profile
/// follows, the relation the graph resolver expands.
#[derive(Debug, Clone, PartialEq)]
pub struct UserProfile {
    pub id: UserId,
    pub first_name: String,
    pub last_name: String,
    pub user_link: String,
    pub major: Option<String>,
    pub interests: Option<String>,
    pub expertise: Option<String>,
    pub school: Option<String>,
    pub github: Option<String>,
    pub twitter: Option<String>,
    pub website: Option<String>,
    pub created_date: i64,
    pub modified_date: i64,
    pub last_online: i64,
    pub last_checked_notifications: i64,
    pub views: i64,
    pub num_followers: i64,
    pub followed: Option<bool>,
    pub following_me: Option<bool>,
    pub recent_users: Vec<FollowingUser>,
    pub following_users: Vec<FollowingUser>,
}

/// The envelope of the upstream profile endpoint.
#[derive(Debug, Clone, PartialEq)]
pub struct UserResponse {
    pub user: UserProfile,
}

/// The envelope of the upstream directory endpoint.
#[derive(Debug, Clone, PartialEq)]
pub struct AllUsersResponse {
    pub users: Vec<User>,
}

/// The projection of a full profile to its lightweight reference.
pub open spec fn spec_following_of(p: UserProfile) -> FollowingUser {
    FollowingUser {
        id: p.id,
        first_name: p.first_name,
        last_name: p.last_name,
        user_link: p.user_link,
        last_online: p.last_online,
    }
}

impl From<UserProfile> for FollowingUser {
    fn from(p: UserProfile) -> (r: FollowingUser)
    {
        FollowingUser {
            id: p.id,
            first_name: p.first_name,
            last_name: p.last_name,
            user_link: p.user_link,
            last_online: p.last_online,
        }
    }
}

impl vstd::std_specs::convert::FromSpecImpl<UserProfile> for FollowingUser {
    open spec fn obeys_from_spec() -> bool {
        true
    }

    open spec fn from_spec(p: UserProfile) -> FollowingUser {
        spec_following_of(p)
    }
}

} // verus!
