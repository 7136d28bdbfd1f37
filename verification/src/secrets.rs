use vstd::prelude::*;

verus! {

/// How the secrets provider answered a fetch, by HTTP status.
#[derive(Debug, Clone, Copy, PartialEq, Eq, Structural)]
pub enum FetchStatus {
    /// The body carries the secret set.
    Authorized,
    /// The credential was rejected; retried with backoff like any other
    /// transport failure.
    InvalidToken,
    /// Any other failure status.
    HttpFailure,
}

/// Classifies the provider's HTTP status: 200 carries the secret set, 401
/// means the credential was rejected, anything else is a failure.
pub fn classify_status(status: u16) -> (r: FetchStatus)
    ensures
        r == (if status == 200 {
            FetchStatus::Authorized
        } else if status == 401 {
            FetchStatus::InvalidToken
        } else {
            FetchStatus::HttpFailure
        }),
{
    if status == 200 {
        FetchStatus::Authorized
    } else if status == 401 {
        FetchStatus::InvalidToken
    } else {
        FetchStatus::HttpFailure
    }
}

} // verus!
