//! The decisions of the Amazon S3 adapter: configuration, error
//! classification and the conversion of listing pages.

use vstd::prelude::*;
use crate::error::{Error, ErrorKind};
use crate::listing::{ListResult, ObjectMeta, Timestamp};
use crate::path::{Path, PathView, lemma_raw_of_parse, opt_string_view, parse_raw, raw_of};

verus! {

#[verifier::external_type_specification]
#[verifier::external_body]
pub struct ExRegion(rusoto_core::Region);

#[verifier::external_type_specification]
#[verifier::external_body]
pub struct ExParseRegionError(rusoto_core::region::ParseRegionError);

#[verifier::external_type_specification]
#[verifier::external_body]
pub struct ExChronoParseError(chrono::ParseError);

/// Whether rusoto knows `name` as an AWS region.
pub uninterp spec fn is_aws_region_name(name: Seq<char>) -> bool;

/// The instant, in milliseconds since the epoch, that an RFC 3339 timestamp
/// denotes; `None` where the text is not such a timestamp.
pub uninterp spec fn rfc3339_millis(text: Seq<char>) -> Option<i64>;

/// Relies on `<rusoto_core::Region as FromStr>::from_str`: a region name that
/// rusoto knows gives its region, any other name an error.
#[verifier::external_body]
fn parse_region(name: &str) -> (r: Result<rusoto_core::Region, rusoto_core::region::ParseRegionError>)
    ensures
        r is Ok <==> is_aws_region_name(name@),
{
    name.parse::<rusoto_core::Region>()
}

/// Relies on `chrono::DateTime::parse_from_rfc3339`, then
/// `DateTime::timestamp_millis`: the instant that an RFC 3339 text denotes.
#[verifier::external_body]
fn parse_rfc3339(text: &str) -> (r: Result<i64, chrono::ParseError>)
    ensures
        r is Ok <==> rfc3339_millis(text@) is Some,
        r matches Ok(ms) ==> rfc3339_millis(text@) == Some(ms),
{
    chrono::DateTime::parse_from_rfc3339(text).map(|d| d.timestamp_millis())
}

/// How an S3 client authenticates.
#[derive(Debug)]
pub enum S3Credentials {
    /// A fixed key pair, with a session token where one was given.
    Static { access_key_id: String, secret_access_key: String, session_token: Option<String> },
    /// Credentials served by the instance metadata endpoint.
    InstanceMetadata,
}

/// Where an S3 client sends its requests.
#[derive(Clone, Debug, PartialEq, Eq)]
pub enum S3Region {
    /// A region that rusoto knows by this name.
    Named(String),
    /// A region reached through an explicit endpoint.
    Custom { name: String, endpoint: String },
}

/// A validated S3 configuration.
#[derive(Debug)]
pub struct S3Settings {
    pub region: S3Region,
    pub credentials: S3Credentials,
    pub bucket_name: String,
    pub max_connections: usize,
}

/// Picks the credentials: a key pair where both halves are given, the
/// instance metadata where neither is, and an error where only one is.
pub fn resolve_s3_credentials(
    access_key_id: Option<String>,
    secret_access_key: Option<String>,
    session_token: Option<String>,
) -> (r: Result<S3Credentials, Error>)
    ensures
        r is Err <==> (access_key_id is Some) != (secret_access_key is Some),
        r matches Err(e) ==> e.kind == ErrorKind::ConfigurationInvalid,
        r matches Ok(c) ==> match c {
            S3Credentials::Static { access_key_id: a, secret_access_key: s, session_token: t } =>
                access_key_id == Some(a) && secret_access_key == Some(s) && session_token == t,
            S3Credentials::InstanceMetadata => access_key_id is None && secret_access_key is None,
        },
{
    match (access_key_id, secret_access_key) {
        (Some(a), Some(s)) => Ok(
            S3Credentials::Static { access_key_id: a, secret_access_key: s, session_token },
        ),
        (None, Some(_)) => Err(
            Error { kind: ErrorKind::ConfigurationInvalid, detail: String::from_str("Missing aws-access-key") },
        ),
        (Some(_), None) => Err(
            Error {
                kind: ErrorKind::ConfigurationInvalid,
                detail: String::from_str("Missing aws-secret-access-key"),
            },
        ),
        (None, None) => Ok(S3Credentials::InstanceMetadata),
    }
}

/// Assembles a configuration from a resolved region (`None` where the region
/// name was not recognised). Fails on an unknown region first, then on
/// incomplete credentials, then on a zero connection limit.
pub fn s3_settings(
    region: Option<S3Region>,
    access_key_id: Option<String>,
    secret_access_key: Option<String>,
    session_token: Option<String>,
    bucket_name: String,
    max_connections: usize,
) -> (r: Result<S3Settings, Error>)
    ensures
        r is Ok <==> region is Some && ((access_key_id is Some) == (secret_access_key is Some))
            && max_connections > 0,
        r matches Err(e) ==> e.kind == ErrorKind::ConfigurationInvalid,
        r matches Ok(s) ==> s.bucket_name@ == bucket_name@ && s.max_connections == max_connections
            && Some(s.region) == region && match s.credentials {
            S3Credentials::Static { access_key_id: a, secret_access_key: k, session_token: t } =>
                access_key_id == Some(a) && secret_access_key == Some(k) && session_token == t,
            S3Credentials::InstanceMetadata => access_key_id is None,
        },
{
    let region = match region {
        Some(r) => r,
        None => {
            return Err(
                Error {
                    kind: ErrorKind::ConfigurationInvalid,
                    detail: String::from_str("not a known AWS region"),
                },
            );
        },
    };
    let credentials = match resolve_s3_credentials(access_key_id, secret_access_key, session_token) {
        Ok(c) => c,
        Err(e) => {
            return Err(e);
        },
    };
    if max_connections == 0 {
        return Err(
            Error {
                kind: ErrorKind::ConfigurationInvalid,
                detail: String::from_str("the connection limit must be positive"),
            },
        );
    }
    Ok(S3Settings { region, credentials, bucket_name, max_connections })
}

/// Validates an S3 configuration eagerly. Without an endpoint the region must
/// be one that rusoto knows; with one, any name is accepted and the endpoint
/// is used as given.
pub fn new_s3(
    access_key_id: Option<String>,
    secret_access_key: Option<String>,
    region: String,
    bucket_name: String,
    endpoint: Option<String>,
    session_token: Option<String>,
    max_connections: usize,
) -> (r: Result<S3Settings, Error>)
    ensures
        r is Ok <==> (endpoint is Some || is_aws_region_name(region@)) && ((access_key_id is Some)
            == (secret_access_key is Some)) && max_connections > 0,
        r matches Err(e) ==> e.kind == ErrorKind::ConfigurationInvalid,
        r matches Ok(s) ==> s.bucket_name@ == bucket_name@ && s.max_connections == max_connections
            && match s.credentials {
            S3Credentials::Static { access_key_id: a, secret_access_key: k, session_token: t } =>
                access_key_id == Some(a) && secret_access_key == Some(k) && session_token == t,
            S3Credentials::InstanceMetadata => access_key_id is None,
        } && match endpoint {
            None => s.region matches S3Region::Named(n) && n@ == region@,
            Some(e) => s.region matches S3Region::Custom { name, endpoint: ep } && name@ == region@
                && ep@ == e@,
        },
{
    let resolved = match endpoint {
        None => match parse_region(region.as_str()) {
            Ok(_) => Some(S3Region::Named(region)),
            Err(_) => None,
        },
        Some(endpoint) => Some(S3Region::Custom { name: region, endpoint }),
    };
    s3_settings(resolved, access_key_id, secret_access_key, session_token, bucket_name, max_connections)
}

/// The shape of a failed S3 call, as far as classification needs it.
#[derive(Clone, Copy, Debug, PartialEq, Eq, Structural)]
pub enum S3Failure {
    /// The service reported that the key does not exist.
    NoSuchKey,
    /// The service reported another failure of its own.
    Service,
    /// The request could not be sent or its response not received.
    Dispatch,
    /// The credentials could not be obtained.
    Credentials,
    /// The request was refused before it was sent.
    Validation,
    /// The response could not be parsed.
    Parse,
    /// An unclassified response with this HTTP status.
    Status(u16),
    /// A blocking call failed.
    Blocking,
}

pub open spec fn s3_failure_kind(f: S3Failure) -> ErrorKind {
    match f {
        S3Failure::NoSuchKey => ErrorKind::NotFound,
        S3Failure::Dispatch => ErrorKind::Transient,
        S3Failure::Parse => ErrorKind::ParseFailure,
        S3Failure::Status(s) => if 500 <= s <= 599 {
            ErrorKind::Transient
        } else {
            ErrorKind::PermanentClient
        },
        _ => ErrorKind::PermanentClient,
    }
}

/// Classifies an S3 failure. Only the service's "no such key" answer is a
/// missing key (a missing bucket is a client error); network failures and 5xx
/// responses are transient.
pub fn classify_s3(f: S3Failure) -> (k: ErrorKind)
    ensures
        k == s3_failure_kind(f),
{
    match f {
        S3Failure::NoSuchKey => ErrorKind::NotFound,
        S3Failure::Dispatch => ErrorKind::Transient,
        S3Failure::Parse => ErrorKind::ParseFailure,
        S3Failure::Status(s) => if 500 <= s && s <= 599 {
            ErrorKind::Transient
        } else {
            ErrorKind::PermanentClient
        },
        _ => ErrorKind::PermanentClient,
    }
}

/// One entry of a `ListObjectsV2` page.
#[derive(Debug)]
pub struct S3Object {
    pub key: Option<String>,
    pub last_modified: Option<String>,
    pub size: Option<i64>,
}

/// One `ListObjectsV2` page.
#[derive(Debug)]
pub struct S3ListPage {
    pub contents: Vec<S3Object>,
    pub common_prefixes: Vec<Option<String>>,
    pub next_continuation_token: Option<String>,
}

/// The metadata an entry denotes, or the failure: a missing key, an
/// unparsable modification time (`Some(None)`) or a negative size is a
/// malformed response. A missing modification time reads as `now`, a missing
/// size as zero.
pub open spec fn s3_meta_spec(
    key: Option<Seq<char>>,
    last_modified: Option<Option<i64>>,
    size: Option<i64>,
    now: Timestamp,
) -> Result<(PathView, i64, u64), ErrorKind> {
    if key is None {
        Err(ErrorKind::ParseFailure)
    } else if last_modified == Some(None::<i64>) {
        Err(ErrorKind::ParseFailure)
    } else if size matches Some(n) && n < 0 {
        Err(ErrorKind::ParseFailure)
    } else {
        Ok(
            (
                parse_raw(key->0),
                match last_modified {
                    Some(Some(ms)) => ms,
                    _ => now.millis,
                },
                match size {
                    Some(n) => n as u64,
                    None => 0,
                },
            ),
        )
    }
}

pub open spec fn meta_matches(r: Result<ObjectMeta, Error>, s: Result<(PathView, i64, u64), ErrorKind>) -> bool {
    match (r, s) {
        (Ok(m), Ok((p, t, n))) => m.location@ == p && m.location.wf() && m.last_modified.millis == t
            && m.size == n,
        (Err(e), Err(k)) => e.kind == k,
        _ => false,
    }
}

/// The parsed modification time, as [`s3_meta_spec`] takes it.
pub open spec fn parsed_last_modified(text: Option<Seq<char>>) -> Option<Option<i64>> {
    match text {
        Some(t) => Some(rfc3339_millis(t)),
        None => None,
    }
}

/// Builds the metadata of one entry from its already parsed modification time
/// (`None`: absent; `Some(None)`: unparsable).
pub fn s3_object_meta(
    key: Option<String>,
    last_modified: Option<Option<i64>>,
    size: Option<i64>,
    now: Timestamp,
) -> (r: Result<ObjectMeta, Error>)
    ensures
        meta_matches(r, s3_meta_spec(opt_string_view(key), last_modified, size, now)),
{
    let key = match key {
        Some(k) => k,
        None => {
            return Err(
                Error { kind: ErrorKind::ParseFailure, detail: String::from_str("listed object without a key") },
            );
        },
    };
    let millis = match last_modified {
        Some(Some(ms)) => ms,
        Some(None) => {
            return Err(
                Error {
                    kind: ErrorKind::ParseFailure,
                    detail: String::from_str("unable to parse last modified date"),
                },
            );
        },
        None => now.millis,
    };
    let size: u64 = match size {
        Some(n) => {
            if n < 0 {
                return Err(
                    Error { kind: ErrorKind::ParseFailure, detail: String::from_str("negative object size") },
                );
            }
            n as u64
        },
        None => 0,
    };
    let location = Path::from_raw(key.as_str());
    Ok(ObjectMeta { location, last_modified: Timestamp { millis }, size })
}

/// Builds the metadata of one listed entry, parsing its modification time.
pub fn object_meta_from_s3(obj: &S3Object, now: Timestamp) -> (r: Result<ObjectMeta, Error>)
    ensures
        meta_matches(
            r,
            s3_meta_spec(
                opt_string_view(obj.key),
                parsed_last_modified(opt_string_view(obj.last_modified)),
                obj.size,
                now,
            ),
        ),
{
    let last_modified = match &obj.last_modified {
        Some(text) => match parse_rfc3339(text.as_str()) {
            Ok(ms) => Some(Some(ms)),
            Err(_) => Some(None),
        },
        None => None,
    };
    s3_object_meta(obj.key.clone(), last_modified, obj.size, now)
}

/// The outcome [`list_result_from_s3`] owes on a page: every entry and every
/// common prefix must be well formed.
pub open spec fn s3_page_ok(page: S3ListPage, now: Timestamp) -> bool {
    &&& forall|i: int|
        0 <= i < page.contents@.len() ==> #[trigger] s3_meta_spec(
            opt_string_view(page.contents@[i].key),
            parsed_last_modified(opt_string_view(page.contents@[i].last_modified)),
            page.contents@[i].size,
            now,
        ) is Ok
    &&& forall|i: int| 0 <= i < page.common_prefixes@.len() ==> #[trigger] page.common_prefixes@[i] is Some
}

/// Converts one delimited `ListObjectsV2` page into a [`ListResult`]: its
/// objects in order, its common prefixes in order, and its continuation
/// token, which the caller uses to ask for the next page.
pub fn list_result_from_s3(page: &S3ListPage, now: Timestamp) -> (r: Result<ListResult, Error>)
    ensures
        r is Ok <==> s3_page_ok(*page, now),
        r matches Err(e) ==> e.kind == ErrorKind::ParseFailure,
        r matches Ok(l) ==> {
            &&& l.objects@.len() == page.contents@.len()
            &&& forall|i: int|
                0 <= i < l.objects@.len() ==> meta_matches(
                    Ok(#[trigger] l.objects@[i]),
                    s3_meta_spec(
                        opt_string_view(page.contents@[i].key),
                        parsed_last_modified(opt_string_view(page.contents@[i].last_modified)),
                        page.contents@[i].size,
                        now,
                    ),
                )
            &&& l.common_prefixes@.len() == page.common_prefixes@.len()
            &&& forall|i: int|
                0 <= i < l.common_prefixes@.len() ==> (#[trigger] l.common_prefixes@[i])@
                    == parse_raw(page.common_prefixes@[i]->0@)
            &&& opt_string_view(l.next_token) == opt_string_view(page.next_continuation_token)
        },
{
    let mut objects: Vec<ObjectMeta> = Vec::new();
    let mut i: usize = 0;
    while i < page.contents.len()
        invariant
            i <= page.contents@.len(),
            objects@.len() == i,
            forall|j: int|
                0 <= j < i ==> #[trigger] s3_meta_spec(
                    opt_string_view(page.contents@[j].key),
                    parsed_last_modified(opt_string_view(page.contents@[j].last_modified)),
                    page.contents@[j].size,
                    now,
                ) is Ok,
            forall|j: int|
                0 <= j < i ==> meta_matches(
                    Ok(#[trigger] objects@[j]),
                    s3_meta_spec(
                        opt_string_view(page.contents@[j].key),
                        parsed_last_modified(opt_string_view(page.contents@[j].last_modified)),
                        page.contents@[j].size,
                        now,
                    ),
                ),
        decreases page.contents@.len() - i,
    {
        match object_meta_from_s3(&page.contents[i], now) {
            Ok(m) => {
                objects.push(m);
            },
            Err(e) => {
                return Err(e);
            },
        }
        i = i + 1;
    }
    let mut prefixes: Vec<Path> = Vec::new();
    let mut j: usize = 0;
    while j < page.common_prefixes.len()
        invariant
            j <= page.common_prefixes@.len(),
            prefixes@.len() == j,
            forall|k: int| 0 <= k < j ==> #[trigger] page.common_prefixes@[k] is Some,
            forall|k: int|
                0 <= k < j ==> (#[trigger] prefixes@[k])@ == parse_raw(
                    page.common_prefixes@[k]->0@,
                ),
        decreases page.common_prefixes@.len() - j,
    {
        match &page.common_prefixes[j] {
            Some(p) => {
                prefixes.push(Path::from_raw(p.as_str()));
            },
            None => {
                return Err(
                    Error {
                        kind: ErrorKind::ParseFailure,
                        detail: String::from_str("common prefix without a value"),
                    },
                );
            },
        }
        j = j + 1;
    }
    Ok(ListResult { objects, common_prefixes: prefixes, next_token: page.next_continuation_token.clone() })
}

/// The paths of the entries that carry a key, in order.
pub open spec fn present_keys(keys: Seq<Option<Seq<char>>>) -> Seq<PathView>
    decreases keys.len(),
{
    if keys.len() == 0 {
        Seq::empty()
    } else {
        let front = present_keys(keys.drop_last());
        match keys.last() {
            Some(k) => front.push(parse_raw(k)),
            None => front,
        }
    }
}

/// The keys of the entries that carry one, in order, as raw text.
pub open spec fn present_raw_keys(keys: Seq<Option<Seq<char>>>) -> Seq<Seq<char>>
    decreases keys.len(),
{
    if keys.len() == 0 {
        Seq::empty()
    } else {
        let front = present_raw_keys(keys.drop_last());
        match keys.last() {
            Some(k) => front.push(k),
            None => front,
        }
    }
}

/// A full listing batch carries every listed key exactly as the backend
/// gave it: the raw key of each path is the key it was parsed from.
pub proof fn lemma_page_keys_exact(keys: Seq<Option<Seq<char>>>)
    ensures
        present_keys(keys).map_values(|p: PathView| raw_of(p)) == present_raw_keys(keys),
    decreases keys.len(),
{
    if keys.len() > 0 {
        lemma_page_keys_exact(keys.drop_last());
        let front = present_keys(keys.drop_last());
        if let Some(k) = keys.last() {
            lemma_raw_of_parse(k);
            assert(front.push(parse_raw(k)).map_values(|p: PathView| raw_of(p)) =~= front.map_values(
                |p: PathView| raw_of(p),
            ).push(raw_of(parse_raw(k))));
        }
    }
}

pub open spec fn object_keys(contents: Seq<S3Object>) -> Seq<Option<Seq<char>>> {
    contents.map_values(|o: S3Object| opt_string_view(o.key))
}

/// The batch of paths that one page of a full listing yields: the keys of its
/// entries, in order, skipping any entry without a key.
pub fn s3_page_keys(page: &S3ListPage) -> (r: Vec<Path>)
    ensures
        r@.map_values(|p: Path| p@) == present_keys(object_keys(page.contents@)),
{
    let mut r: Vec<Path> = Vec::new();
    let mut i: usize = 0;
    let ghost keys = object_keys(page.contents@);
    while i < page.contents.len()
        invariant
            i <= page.contents@.len(),
            keys == object_keys(page.contents@),
            r@.map_values(|p: Path| p@) == present_keys(keys.take(i as int)),
        decreases page.contents@.len() - i,
    {
        let ghost before = r@;
        assert(keys.take(i + 1).drop_last() =~= keys.take(i as int));
        assert(keys.take(i + 1).last() == opt_string_view(page.contents@[i as int].key));
        match &page.contents[i].key {
            Some(k) => {
                r.push(Path::from_raw(k.as_str()));
                assert(r@.map_values(|p: Path| p@) =~= before.map_values(|p: Path| p@).push(
                    r@.last()@,
                ));
            },
            None => {},
        }
        i = i + 1;
    }
    assert(keys.take(i as int) =~= keys);
    r
}

} // verus!

verus! {

/// A `get` of a key that S3 reports missing fails with `NotFound` on its
/// first attempt: the failure is not retried and keeps its kind.
pub proof fn lemma_s3_missing_key_not_found()
    ensures
        s3_failure_kind(S3Failure::NoSuchKey) == ErrorKind::NotFound,
        crate::retry::decide(1, s3_failure_kind(S3Failure::NoSuchKey) == ErrorKind::Transient)
            == crate::retry::RetryDecision::GiveUp,
        crate::retry::surfaced_kind(s3_failure_kind(S3Failure::NoSuchKey)) == ErrorKind::NotFound,
{
}

} // verus!
