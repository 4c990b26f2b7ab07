use vstd::prelude::*;
use vstd::string::StringExecFns;
use crate::text::{int_digits, push_i64_decimal};

verus! {

/// Time to live of every cache entry: six hours, in seconds.
pub const CACHE_TTL_SECONDS: u64 = 21600;

/// The cache key of a user profile, derived from the user's handle.
pub open spec fn spec_profile_key(handle: Seq<char>) -> Seq<char> {
    "profile:"@ + handle
}

/// Builds the cache key `profile:{handle}`.
pub fn profile_key(handle: &str) -> (r: String)
    ensures
        r@ == spec_profile_key(handle@),
{
    let mut s = String::from_str("profile:");
    s.append(handle);
    s
}

/// The cache key of one user's saved-content page, derived from the user id.
pub open spec fn spec_content_key(user_id: int) -> Seq<char> {
    "content:"@ + int_digits(user_id)
}

/// Builds the cache key `content:{userId}`.
pub fn content_key(user_id: i64) -> (r: String)
    ensures
        r@ == spec_content_key(user_id as int),
{
    let mut s = String::from_str("content:");
    push_i64_decimal(&mut s, user_id);
    s
}

/// The cache key of a memoized follow-graph resolution, derived from the
/// root user id and the maximum hop distance.
pub open spec fn spec_follow_list_key(root_id: int, order: int) -> Seq<char> {
    "follow_list:"@ + int_digits(root_id) + ":"@ + int_digits(order)
}

/// Builds the cache key `follow_list:{rootUserId}:{maxOrder}`.
pub fn follow_list_key(root_id: i64, order: i64) -> (r: String)
    ensures
        r@ == spec_follow_list_key(root_id as int, order as int),
{
    let mut s = String::from_str("follow_list:");
    push_i64_decimal(&mut s, root_id);
    s.append(":");
    push_i64_decimal(&mut s, order);
    proof {
        assert(s@ =~= spec_follow_list_key(root_id as int, order as int));
    }
    s
}

} // verus!
