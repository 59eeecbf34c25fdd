//! Why a request could not be forwarded.

use vstd::prelude::*;

verus! {

/// Why no upstream server was handed out.
#[derive(Debug)]
pub enum RateLimitingError {
    /// Indicates that the maximum number of requests has been exceeded.
    ExceededMaxRequests,
    /// Indicates a failure to connect.
    FailedToConnect,
}

} // verus!
