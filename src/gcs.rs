//! The decisions of the Google Cloud Storage adapter.

use vstd::prelude::*;
use crate::error::{ErrorKind, classify_status, status_kind};
use crate::path::starts_with;

verus! {

/// The shape of a failed Cloud Storage call, as far as classification needs
/// it.
#[derive(Debug)]
pub enum GcsFailure {
    /// Google answered with this HTTP status.
    Status(u16),
    /// The request could not be sent or its response not received.
    Network,
    /// A response could not be deserialized.
    Malformed,
    /// Signing or TLS set-up failed.
    Credentials,
    /// The client's catch-all failure, with its message.
    Other(String),
}

/// The message prefix that the client's catch-all failure carries for a
/// missing object.
pub open spec fn no_such_object_text() -> Seq<char> {
    seq!['N', 'o', ' ', 's', 'u', 'c', 'h', ' ', 'o', 'b', 'j', 'e', 'c', 't']
}

pub open spec fn gcs_failure_kind(f: GcsFailure) -> ErrorKind {
    match f {
        GcsFailure::Status(s) => status_kind(s),
        GcsFailure::Network => ErrorKind::Transient,
        GcsFailure::Malformed => ErrorKind::ParseFailure,
        GcsFailure::Credentials => ErrorKind::PermanentClient,
        GcsFailure::Other(text) => if no_such_object_text().is_prefix_of(text@) {
            ErrorKind::NotFound
        } else {
            ErrorKind::PermanentClient
        },
    }
}

/// Classifies a Cloud Storage failure. The client reports a missing object
/// only through the text of its catch-all failure, so that text is matched
/// on its "No such object" prefix.
pub fn classify_gcs(f: &GcsFailure) -> (k: ErrorKind)
    ensures
        k == gcs_failure_kind(*f),
{
    match f {
        GcsFailure::Status(s) => classify_status(*s),
        GcsFailure::Network => ErrorKind::Transient,
        GcsFailure::Malformed => ErrorKind::ParseFailure,
        GcsFailure::Credentials => ErrorKind::PermanentClient,
        GcsFailure::Other(text) => {
            let prefix = "No such object";
            proof {
                reveal_strlit("No such object");
                assert(prefix@ =~= no_such_object_text());
            }
            if starts_with(text.as_str(), prefix) {
                ErrorKind::NotFound
            } else {
                ErrorKind::PermanentClient
            }
        },
    }
}

/// A `get` whose download fails with the client's "No such object" text
/// fails with `NotFound` on its first attempt: the failure is not retried and
/// keeps its kind.
pub proof fn lemma_gcs_missing_object_not_found(text: Seq<char>, f: GcsFailure)
    requires
        f matches GcsFailure::Other(t) && t@ == text,
        no_such_object_text().is_prefix_of(text),
    ensures
        gcs_failure_kind(f) == ErrorKind::NotFound,
        crate::retry::decide(1, gcs_failure_kind(f) == ErrorKind::Transient)
            == crate::retry::RetryDecision::GiveUp,
        crate::retry::surfaced_kind(gcs_failure_kind(f)) == ErrorKind::NotFound,
{
}

} // verus!
