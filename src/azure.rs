//! The decisions of the Azure Blob Storage adapter.

use vstd::prelude::*;
use crate::error::{ErrorKind, classify_status, status_kind};

verus! {

/// The shape of a failed Blob Storage call, as far as classification needs
/// it.
#[derive(Clone, Copy, Debug, PartialEq, Eq, Structural)]
pub enum AzureFailure {
    /// The service answered with this HTTP status.
    Status(u16),
    /// The request could not be sent or its response not read.
    Network,
    /// Any other failure: building the request, parsing the response.
    Other,
}

pub open spec fn azure_failure_kind(f: AzureFailure) -> ErrorKind {
    match f {
        AzureFailure::Status(s) => status_kind(s),
        AzureFailure::Network => ErrorKind::Transient,
        AzureFailure::Other => ErrorKind::PermanentClient,
    }
}

/// Classifies a Blob Storage failure by its HTTP status where it has one:
/// 404 is a missing blob and 5xx is transient, as are network failures.
pub fn classify_azure(f: AzureFailure) -> (k: ErrorKind)
    ensures
        k == azure_failure_kind(f),
{
    match f {
        AzureFailure::Status(s) => classify_status(s),
        AzureFailure::Network => ErrorKind::Transient,
        AzureFailure::Other => ErrorKind::PermanentClient,
    }
}

/// A `get` of a missing blob (status 404) fails with `NotFound` on its first
/// attempt: the failure is not retried and keeps its kind.
pub proof fn lemma_azure_missing_blob_not_found()
    ensures
        azure_failure_kind(AzureFailure::Status(404)) == ErrorKind::NotFound,
        crate::retry::decide(1, azure_failure_kind(AzureFailure::Status(404)) == ErrorKind::Transient)
            == crate::retry::RetryDecision::GiveUp,
        crate::retry::surfaced_kind(azure_failure_kind(AzureFailure::Status(404)))
            == ErrorKind::NotFound,
{
}

} // verus!
