//! The failures that sealing and opening a key can report.

use vstd::prelude::*;

verus! {

/// Why an operation on a key cache failed.
///
/// Every layer hands the failure of the layer below it to its caller as it
/// received it; no variant is ever turned into another one on the way up.
#[derive(Debug, Clone, Copy, PartialEq, Eq, Structural)]
pub enum KeycacheError {
    /// An argument handed to the library is not acceptable.
    InvalidInput,
    /// The stored bytes are not a cache entry, or its sealed key is not a sealed key record.
    MalformedRecord,
    /// No secure element can be reached.
    BackendUnavailable,
    /// The secure-element driver could not be brought into the process.
    BridgeLoadFailed {
        /// The error number that the operating system gave for the step that failed.
        os_error: i32,
    },
    /// The secure element refuses to create a key of the requested authentication level.
    CreationDenied,
    /// The key asks for a user authentication token and none was given.
    AuthRequired,
    /// The user authentication token is not the one that the key was made with.
    AuthRejected,
    /// The secure element's live challenge was refused.
    ChallengeDenied,
    /// The secure element's live challenge ran out of time.
    ChallengeTimeout,
    /// The authentication tag does not belong to the ciphertext.
    AuthenticationFailed,
    /// The system's random source gave no bytes.
    EntropyUnavailable,
}

impl KeycacheError {
    /// Whether a second attempt may succeed once the user has authenticated:
    /// true of the four failures of the authentication step and of nothing else.
    pub open spec fn spec_is_recoverable(self) -> bool {
        self is AuthRequired || self is AuthRejected || self is ChallengeDenied
            || self is ChallengeTimeout
    }

    /// Whether the caller may ask the user again and retry.
    #[verifier::when_used_as_spec(spec_is_recoverable)]
    pub fn is_recoverable(self) -> (recoverable: bool)
        ensures
            recoverable == self.spec_is_recoverable(),
    {
        match self {
            KeycacheError::AuthRequired => true,
            KeycacheError::AuthRejected => true,
            KeycacheError::ChallengeDenied => true,
            KeycacheError::ChallengeTimeout => true,
            _ => false,
        }
    }

    /// The text that stands for the failure in a message to the user.
    pub open spec fn spec_describe(self) -> Seq<char> {
        match self {
            KeycacheError::InvalidInput => "invalid input"@,
            KeycacheError::MalformedRecord => "malformed record"@,
            KeycacheError::BackendUnavailable => "secure element unavailable"@,
            KeycacheError::BridgeLoadFailed { .. } => "failed to load the secure element bridge"@,
            KeycacheError::CreationDenied => "key creation denied"@,
            KeycacheError::AuthRequired => "user authentication required"@,
            KeycacheError::AuthRejected => "user authentication rejected"@,
            KeycacheError::ChallengeDenied => "challenge denied"@,
            KeycacheError::ChallengeTimeout => "challenge timed out"@,
            KeycacheError::AuthenticationFailed => "authentication failed"@,
            KeycacheError::EntropyUnavailable => "random source unavailable"@,
        }
    }

    /// A short description of the failure.
    pub fn describe(self) -> (text: String)
        ensures
            text@ == self.spec_describe(),
    {
        match self {
            KeycacheError::InvalidInput => "invalid input".to_owned(),
            KeycacheError::MalformedRecord => "malformed record".to_owned(),
            KeycacheError::BackendUnavailable => "secure element unavailable".to_owned(),
            KeycacheError::BridgeLoadFailed { .. } => "failed to load the secure element bridge".to_owned(),
            KeycacheError::CreationDenied => "key creation denied".to_owned(),
            KeycacheError::AuthRequired => "user authentication required".to_owned(),
            KeycacheError::AuthRejected => "user authentication rejected".to_owned(),
            KeycacheError::ChallengeDenied => "challenge denied".to_owned(),
            KeycacheError::ChallengeTimeout => "challenge timed out".to_owned(),
            KeycacheError::AuthenticationFailed => "authentication failed".to_owned(),
            KeycacheError::EntropyUnavailable => "random source unavailable".to_owned(),
        }
    }
}

} // verus!
