//! Error kinds surfaced by the tribbler service.
use crate::strutil::append_str;
use vstd::prelude::*;

verus! {

/// Basic error types that can occur when running the tribbler service.
#[derive(Debug, Clone)]
pub enum TribblerError {
    /// an operation named a user who does not exist
    UserDoesNotExist(String),
    /// a sign-up found the name already taken
    UsernameTaken(String),
    /// a username failed validation
    InvalidUsername(String),
    /// a communication failure on the storage path
    RpcError(String),
    /// a user tried to follow more than the allowed number of users
    FollowingTooMany,
    /// a user tried to follow a user they already follow
    AlreadyFollowing(String, String),
    /// a user tried to unfollow a user they do not follow
    NotFollowing(String, String),
    /// a post exceeded the length limit
    TribTooLong,
    /// someone tried to follow or query themselves
    WhoWhom(String),
    /// the clock has no more values to give out
    MaxedSeq,
    /// catch-all for other issues
    Unknown(String),
}

impl TribblerError {
    /// A human-readable description of the error.
    pub fn message(&self) -> String {
        let mut out = String::new();
        match self {
            TribblerError::UserDoesNotExist(x) => {
                append_str(&mut out, "user \"");
                append_str(&mut out, x.as_str());
                append_str(&mut out, "\" does not exist");
            },
            TribblerError::UsernameTaken(x) => {
                append_str(&mut out, "username \"");
                append_str(&mut out, x.as_str());
                append_str(&mut out, "\" already taken");
            },
            TribblerError::InvalidUsername(x) => {
                append_str(&mut out, "username \"");
                append_str(&mut out, x.as_str());
                append_str(&mut out, "\" is invalid");
            },
            TribblerError::RpcError(x) => {
                append_str(&mut out, "rpc error: ");
                append_str(&mut out, x.as_str());
            },
            TribblerError::FollowingTooMany => {
                append_str(&mut out, "following too many users");
            },
            TribblerError::AlreadyFollowing(who, whom) => {
                append_str(&mut out, who.as_str());
                append_str(&mut out, " already following ");
                append_str(&mut out, whom.as_str());
            },
            TribblerError::NotFollowing(who, whom) => {
                append_str(&mut out, who.as_str());
                append_str(&mut out, " doesn't follow ");
                append_str(&mut out, whom.as_str());
            },
            TribblerError::TribTooLong => {
                append_str(&mut out, "tribbler post exceed character limit");
            },
            TribblerError::WhoWhom(x) => {
                append_str(&mut out, "user ");
                append_str(&mut out, x.as_str());
                append_str(&mut out, " can't follow themself");
            },
            TribblerError::MaxedSeq => {
                append_str(&mut out, "no more sequence numbers to give out");
            },
            TribblerError::Unknown(x) => {
                append_str(&mut out, "unknown error: ");
                append_str(&mut out, x.as_str());
            },
        }
        out
    }
}

} // verus!
