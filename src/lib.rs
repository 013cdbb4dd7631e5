//! A backend-agnostic object store: the path model, the error taxonomy, the
//! retry and pagination state machines, the local cache
//! bookkeeping and the pieces of each backend adapter that decide rather
//! than talk to the network.

pub mod path;
pub mod error;
pub mod retry;
pub mod listing;
pub mod s3;
pub mod azure;
pub mod gcs;
pub mod cache;
pub mod delimited;
pub mod memory;
