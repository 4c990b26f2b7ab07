use vstd::prelude::*;

verus! {

/// Closed error taxonomy of the core, replacing a dynamically typed error
/// wrapper so that callers can branch on the failure kind.
///
/// `Transport` is a network or store communication failure, `Decode` a
/// malformed payload (from the cache or from the upstream API), and
/// `PartialTask` the failure of one of several concurrently dispatched
/// subtasks.
#[derive(Debug, PartialEq)]
pub enum FeedError {
    Transport(String),
    Decode(String),
    PartialTask(String),
}

impl Clone for FeedError {
    fn clone(&self) -> (res: Self)
        ensures
            res == *self,
    {
        match self {
            FeedError::Transport(m) => FeedError::Transport(m.clone()),
            FeedError::Decode(m) => FeedError::Decode(m.clone()),
            FeedError::PartialTask(m) => FeedError::PartialTask(m.clone()),
        }
    }
}

impl FeedError {
    /// The message carried by the error, whatever its kind.
    pub open spec fn spec_message(&self) -> Seq<char> {
        match self {
            FeedError::Transport(m) => m@,
            FeedError::Decode(m) => m@,
            FeedError::PartialTask(m) => m@,
        }
    }

    /// The message carried by the error, whatever its kind.
    pub fn message(&self) -> (r: &String)
        ensures
            r@ == self.spec_message(),
    {
        match self {
            FeedError::Transport(m) => m,
            FeedError::Decode(m) => m,
            FeedError::PartialTask(m) => m,
        }
    }
}

} // verus!
