use vstd::prelude::*;
use vstd::string::StringExecFns;
use crate::errors::FeedError;

verus! {

/// Query of the follow-list endpoint: the root user handle and the maximum
/// hop distance to resolve.
#[derive(Debug, PartialEq)]
pub struct FollowListRequest {
    pub user_handle: String,
    pub order: i64,
}

/// Query of the feed endpoint: the root user handle, the maximum hop
/// distance, the number of feed items asked for, and the rendering.
#[derive(Debug, PartialEq)]
pub struct FeedRequest {
    pub user_handle: String,
    pub order: i64,
    pub limit: usize,
    pub format: FeedFormat,
}

/// The rendering a feed caller asked for.
#[derive(Debug, Clone, Copy, PartialEq, Eq, Structural)]
pub enum FeedFormat {
    Json,
    Rss,
}

impl Default for FeedFormat {
    /// A feed request that names no format is rendered as JSON.
    fn default() -> (r: Self)
        ensures
            r == FeedFormat::Json,
    {
        FeedFormat::Json
    }
}

/// The limit applied when a feed request names none.
pub fn default_limit() -> (r: usize)
    ensures
        r == 100,
{
    100
}

/// Hard ceiling on the number of feed items served, whatever a caller asks.
pub const MAX_FEED_LIMIT: usize = 500;

/// Clamps a caller-requested feed limit to the server-side maximum.
pub fn clamp_limit(limit: usize) -> (r: usize)
    ensures
        r == if limit > MAX_FEED_LIMIT { MAX_FEED_LIMIT as int } else { limit as int },
{
    if limit > MAX_FEED_LIMIT {
        MAX_FEED_LIMIT
    } else {
        limit
    }
}

/// Error envelope of the HTTP layer: wraps the core's error for the handler
/// that turns it into a failure response.
#[derive(Debug)]
pub struct AppError(pub FeedError);

impl From<FeedError> for AppError {
    fn from(err: FeedError) -> (r: AppError) {
        AppError(err)
    }
}

impl vstd::std_specs::convert::FromSpecImpl<FeedError> for AppError {
    open spec fn obeys_from_spec() -> bool {
        true
    }

    open spec fn from_spec(err: FeedError) -> AppError {
        AppError(err)
    }
}

impl AppError {
    /// The body of the failure response that the HTTP layer sends.
    pub fn response_body(&self) -> (r: String)
        ensures
            r@ == "Something went wrong: "@ + self.0.spec_message(),
    {
        let mut s = String::from_str("Something went wrong: ");
        s.append(self.0.message().as_str());
        s
    }
}

} // verus!
