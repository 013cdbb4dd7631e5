use object_store::error::ErrorKind;
use object_store::listing::Timestamp;
use object_store::s3::{
    classify_s3, list_result_from_s3, new_s3, object_meta_from_s3, resolve_s3_credentials,
    s3_object_meta, s3_page_keys, s3_settings, S3Credentials, S3Failure, S3ListPage, S3Object,
    S3Region,
};

fn s(x: &str) -> Option<String> {
    Some(x.to_string())
}

const NOW: Timestamp = Timestamp { millis: 42 };

#[test]
fn valid_static_configuration() {
    let cfg = new_s3(s("foo"), s("bar"), "us-east-1".to_string(), "bucket".to_string(), None, None, 16)
        .unwrap();
    assert_eq!(cfg.bucket_name, "bucket");
    assert_eq!(cfg.max_connections, 16);
    assert_eq!(cfg.region, S3Region::Named("us-east-1".to_string()));
    match cfg.credentials {
        S3Credentials::Static { access_key_id, secret_access_key, session_token } => {
            assert_eq!(access_key_id, "foo");
            assert_eq!(secret_access_key, "bar");
            assert_eq!(session_token, None);
        }
        S3Credentials::InstanceMetadata => panic!("expected static credentials"),
    }
}

#[test]
fn other_known_region_is_accepted() {
    let cfg = new_s3(s("foo"), s("bar"), "us-west-1".to_string(), "bucket".to_string(), None, None, 16)
        .unwrap();
    assert_eq!(cfg.region, S3Region::Named("us-west-1".to_string()));
}

#[test]
fn unknown_region_fails_at_construction() {
    let err = new_s3(s("foo"), s("bar"), "moon-base-1".to_string(), "b".to_string(), None, None, 16)
        .unwrap_err();
    assert_eq!(err.kind, ErrorKind::ConfigurationInvalid);
}

#[test]
fn custom_endpoint_accepts_any_region_name() {
    let cfg = new_s3(
        s("foo"),
        s("bar"),
        "local".to_string(),
        "b".to_string(),
        s("http://localhost:9000"),
        s("token"),
        4,
    )
    .unwrap();
    assert_eq!(
        cfg.region,
        S3Region::Custom { name: "local".to_string(), endpoint: "http://localhost:9000".to_string() }
    );
}

#[test]
fn access_key_without_secret_is_a_configuration_error() {
    let err = new_s3(s("foo"), None, "us-east-1".to_string(), "b".to_string(), None, None, 16).unwrap_err();
    assert_eq!(err.kind, ErrorKind::ConfigurationInvalid);
    let err = new_s3(None, s("bar"), "us-east-1".to_string(), "b".to_string(), None, None, 16).unwrap_err();
    assert_eq!(err.kind, ErrorKind::ConfigurationInvalid);
}

#[test]
fn zero_connection_limit_is_rejected() {
    let err = new_s3(None, None, "us-east-1".to_string(), "b".to_string(), None, None, 0).unwrap_err();
    assert_eq!(err.kind, ErrorKind::ConfigurationInvalid);
}

#[test]
fn credentials_choice() {
    assert!(matches!(
        resolve_s3_credentials(None, None, s("t")).unwrap(),
        S3Credentials::InstanceMetadata
    ));
    match resolve_s3_credentials(s("a"), s("b"), s("t")).unwrap() {
        S3Credentials::Static { session_token, .. } => assert_eq!(session_token, s("t")),
        S3Credentials::InstanceMetadata => panic!("expected static credentials"),
    }
}

#[test]
fn unrecognised_region_settings_fail() {
    let err = s3_settings(None, None, None, None, "b".to_string(), 1).unwrap_err();
    assert_eq!(err.kind, ErrorKind::ConfigurationInvalid);
    let ok = s3_settings(Some(S3Region::Named("eu-west-1".to_string())), None, None, None, "b".to_string(), 1)
        .unwrap();
    assert!(matches!(ok.credentials, S3Credentials::InstanceMetadata));
}

#[test]
fn failure_classification() {
    assert_eq!(classify_s3(S3Failure::NoSuchKey), ErrorKind::NotFound);
    assert_eq!(classify_s3(S3Failure::Status(503)), ErrorKind::Transient);
    assert_eq!(classify_s3(S3Failure::Status(500)), ErrorKind::Transient);
    assert_eq!(classify_s3(S3Failure::Status(404)), ErrorKind::PermanentClient);
    assert_eq!(classify_s3(S3Failure::Status(403)), ErrorKind::PermanentClient);
    assert_eq!(classify_s3(S3Failure::Dispatch), ErrorKind::Transient);
    assert_eq!(classify_s3(S3Failure::Credentials), ErrorKind::PermanentClient);
    assert_eq!(classify_s3(S3Failure::Parse), ErrorKind::ParseFailure);
    assert_eq!(classify_s3(S3Failure::Service), ErrorKind::PermanentClient);
}

#[test]
fn object_meta_from_parsed_fields() {
    let m = s3_object_meta(s("a/b.txt"), Some(Some(7)), Some(5), NOW).unwrap();
    assert_eq!(m.location.to_raw(), "a/b.txt");
    assert_eq!(m.last_modified, Timestamp { millis: 7 });
    assert_eq!(m.size, 5);
    let m = s3_object_meta(s("k"), None, None, NOW).unwrap();
    assert_eq!(m.last_modified, NOW);
    assert_eq!(m.size, 0);
    assert_eq!(s3_object_meta(None, None, None, NOW).unwrap_err().kind, ErrorKind::ParseFailure);
    assert_eq!(s3_object_meta(s("k"), Some(None), None, NOW).unwrap_err().kind, ErrorKind::ParseFailure);
    assert_eq!(s3_object_meta(s("k"), None, Some(-1), NOW).unwrap_err().kind, ErrorKind::ParseFailure);
}

#[test]
fn last_modified_is_parsed_as_rfc3339() {
    let obj = S3Object { key: s("k"), last_modified: s("2021-01-01T00:00:00Z"), size: Some(3) };
    let m = object_meta_from_s3(&obj, NOW).unwrap();
    assert_eq!(m.last_modified, Timestamp { millis: 1_609_459_200_000 });
    let obj = S3Object { key: s("k"), last_modified: s("2021-01-01T01:00:00.250+01:00"), size: None };
    assert_eq!(object_meta_from_s3(&obj, NOW).unwrap().last_modified, Timestamp { millis: 1_609_459_200_250 });
    let obj = S3Object { key: s("k"), last_modified: s("yesterday"), size: None };
    assert_eq!(object_meta_from_s3(&obj, NOW).unwrap_err().kind, ErrorKind::ParseFailure);
}

#[test]
fn delimited_page_conversion() {
    let page = S3ListPage {
        contents: vec![
            S3Object { key: s("a/b.txt"), last_modified: None, size: Some(5) },
            S3Object { key: s("a/c.txt"), last_modified: s("1970-01-01T00:00:01Z"), size: Some(1) },
        ],
        common_prefixes: vec![s("a/d/")],
        next_continuation_token: s("next"),
    };
    let r = list_result_from_s3(&page, NOW).unwrap();
    assert_eq!(r.objects.len(), 2);
    assert_eq!(r.objects[0].location.to_raw(), "a/b.txt");
    assert_eq!(r.objects[0].last_modified, NOW);
    assert_eq!(r.objects[1].last_modified, Timestamp { millis: 1000 });
    assert_eq!(r.common_prefixes.len(), 1);
    assert_eq!(r.common_prefixes[0].to_raw(), "a/d/");
    assert_eq!(r.next_token, s("next"));
}

#[test]
fn malformed_page_is_a_parse_failure() {
    let page = S3ListPage { contents: vec![], common_prefixes: vec![None], next_continuation_token: None };
    assert_eq!(list_result_from_s3(&page, NOW).unwrap_err().kind, ErrorKind::ParseFailure);
    let page = S3ListPage {
        contents: vec![S3Object { key: None, last_modified: None, size: None }],
        common_prefixes: vec![],
        next_continuation_token: None,
    };
    assert_eq!(list_result_from_s3(&page, NOW).unwrap_err().kind, ErrorKind::ParseFailure);
}

#[test]
fn full_listing_batch_skips_entries_without_key() {
    let page = S3ListPage {
        contents: vec![
            S3Object { key: s("x"), last_modified: None, size: None },
            S3Object { key: None, last_modified: None, size: None },
            S3Object { key: s("y/z"), last_modified: None, size: None },
        ],
        common_prefixes: vec![],
        next_continuation_token: None,
    };
    let keys: Vec<String> = s3_page_keys(&page).iter().map(|p| p.to_raw()).collect();
    assert_eq!(keys, vec!["x".to_string(), "y/z".to_string()]);
}

#[test]
fn region_names_are_matched_case_insensitively() {
    let cfg = new_s3(None, None, "EU-WEST-1".to_string(), "b".to_string(), None, None, 1).unwrap();
    assert_eq!(cfg.region, S3Region::Named("EU-WEST-1".to_string()));
}
