//! Plain data carried between the services and their surroundings.

use vstd::prelude::*;

verus! {

/// The secrets the feedback service is started with; either may instead
/// come from the environment.
pub struct FeedbackKeys {
    /// GitHub personal access token.
    pub github_token: Option<String>,
    /// Secret for the feedback token generation.
    pub jwt_key: Option<String>,
}

impl FeedbackKeys {
    /// Feedback can be processed only with both secrets present.
    pub fn able_to_process_feedback(&self) -> (r: bool)
        ensures
            r == (self.github_token is Some && self.jwt_key is Some),
    {
        self.github_token.is_some() && self.jwt_key.is_some()
    }
}

/// A visible-id alias of a room key.
pub struct DBRoomKeyAlias {
    pub key: String,
    pub visible_id: String,
    pub type_: String,
}

} // verus!
