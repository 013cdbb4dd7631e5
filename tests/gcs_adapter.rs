use object_store::error::{check_length, classify_status, require_setting, settle_delete, Error, ErrorKind};
use object_store::azure::{classify_azure, AzureFailure};
use object_store::gcs::{classify_gcs, GcsFailure};

#[test]
fn no_such_object_text_is_not_found() {
    let f = GcsFailure::Other("No such object: bucket/nonexistentname".to_string());
    assert_eq!(classify_gcs(&f), ErrorKind::NotFound);
}

#[test]
fn other_text_is_a_client_error() {
    assert_eq!(classify_gcs(&GcsFailure::Other("no such object".to_string())), ErrorKind::PermanentClient);
    assert_eq!(classify_gcs(&GcsFailure::Other("Bucket missing".to_string())), ErrorKind::PermanentClient);
}

#[test]
fn gcs_status_and_transport_failures() {
    assert_eq!(classify_gcs(&GcsFailure::Status(502)), ErrorKind::Transient);
    assert_eq!(classify_gcs(&GcsFailure::Status(401)), ErrorKind::PermanentClient);
    assert_eq!(classify_gcs(&GcsFailure::Network), ErrorKind::Transient);
    assert_eq!(classify_gcs(&GcsFailure::Malformed), ErrorKind::ParseFailure);
    assert_eq!(classify_gcs(&GcsFailure::Credentials), ErrorKind::PermanentClient);
}

#[test]
fn status_codes() {
    assert_eq!(classify_status(404), ErrorKind::NotFound);
    assert_eq!(classify_status(599), ErrorKind::Transient);
    assert_eq!(classify_status(600), ErrorKind::PermanentClient);
    assert_eq!(classify_status(400), ErrorKind::PermanentClient);
}

#[test]
fn length_mismatch_is_a_data_integrity_error() {
    assert_eq!(check_length(5, 5), Ok(()));
    assert_eq!(check_length(5, 4), Err(ErrorKind::DataIntegrity));
}

#[test]
fn delete_of_missing_key_settles_as_success() {
    assert!(settle_delete(Error::new(ErrorKind::NotFound, "gone".to_string())).is_ok());
    let e = settle_delete(Error::new(ErrorKind::PermanentClient, "denied".to_string())).unwrap_err();
    assert_eq!(e.kind, ErrorKind::PermanentClient);
}

#[test]
fn azure_failure_classification() {
    assert_eq!(classify_azure(AzureFailure::Status(404)), ErrorKind::NotFound);
    assert_eq!(classify_azure(AzureFailure::Status(503)), ErrorKind::Transient);
    assert_eq!(classify_azure(AzureFailure::Status(403)), ErrorKind::PermanentClient);
    assert_eq!(classify_azure(AzureFailure::Network), ErrorKind::Transient);
    assert_eq!(classify_azure(AzureFailure::Other), ErrorKind::PermanentClient);
}

#[test]
fn empty_configuration_value_is_rejected() {
    assert_eq!(require_setting("").unwrap_err().kind, ErrorKind::ConfigurationInvalid);
    assert!(require_setting("account").is_ok());
}
