use vstd::prelude::*;
use vstd::string::StringExecFns;
use crate::errors::FeedError;
use crate::text::{dec_digits, int_digits, push_i64_decimal, push_u64_decimal};

verus! {

/// A successful HTTP status: the 2xx class.
pub open spec fn spec_status_success(status: u16) -> bool {
    200 <= status < 300
}

/// Whether an HTTP status code reports success.
pub fn status_is_success(status: u16) -> (r: bool)
    ensures
        r == spec_status_success(status),
{
    200 <= status && status < 300
}

/// Classifies an upstream reply. A non-2xx status is a transport failure
/// naming the status. A 2xx body that does not decode is a hard decode
/// failure carrying the decoder's field-path diagnostic (the application
/// decodes the body and reports the exact path of any structural mismatch).
/// Otherwise the decoded payload is returned.
pub fn parse_response_outcome<T>(status: u16, decoded: Result<T, String>) -> (r: Result<
    T,
    FeedError,
>)
    ensures
        !spec_status_success(status) ==> (r matches Err(e) && e matches FeedError::Transport(m)
            && m@ == "HTTP request failed with status: "@ + dec_digits(status as nat)),
        spec_status_success(status) ==> match decoded {
            Ok(v) => r == Ok::<T, FeedError>(v),
            Err(path_msg) => (r matches Err(e) && e matches FeedError::Decode(m) && m == path_msg),
        },
{
    if !status_is_success(status) {
        let mut m = String::from_str("HTTP request failed with status: ");
        push_u64_decimal(&mut m, status as u64);
        proof {
            assert((status as u64) as nat == status as nat);
        }
        Err(FeedError::Transport(m))
    } else {
        match decoded {
            Ok(v) => Ok(v),
            Err(path_msg) => Err(FeedError::Decode(path_msg)),
        }
    }
}

/// The upstream profile endpoint for a user handle:
/// `{base}users/{handle}`.
pub fn profile_url(base: &str, handle: &str) -> (r: String)
    ensures
        r@ == base@ + "users/"@ + handle@,
{
    let mut s = String::from_str(base);
    s.append("users/");
    s.append(handle);
    proof {
        assert(s@ =~= base@ + "users/"@ + handle@);
    }
    s
}

/// The upstream saved-links endpoint for a user id, first page only:
/// `{base}users/{userId}/links?page=0`.
pub fn links_url(base: &str, user_id: i64) -> (r: String)
    ensures
        r@ == base@ + "users/"@ + int_digits(user_id as int) + "/links?page=0"@,
{
    let mut s = String::from_str(base);
    s.append("users/");
    push_i64_decimal(&mut s, user_id);
    s.append("/links?page=0");
    proof {
        assert(s@ =~= base@ + "users/"@ + int_digits(user_id as int) + "/links?page=0"@);
    }
    s
}

} // verus!
