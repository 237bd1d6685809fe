use ckbtc_minter::metrics::{
    key_count_values, LABEL_BODY_RECEIVE_SIZE, LABEL_CONNECT, LABEL_DOWNLOAD, LABEL_UPLOAD, BooleanOperation, BooleanResult, KeyCounts, KeyRotationResult, KeyType,
    MessageType, MetricsDomain, MetricsResult, MetricsScope, ServiceType,
};

#[test]
fn key_counts_hold_what_they_were_made_with() {
    let counts = KeyCounts::new(1, 2, 3);
    assert_eq!(counts.get_pk_registry(), 1);
    assert_eq!(counts.get_pk_local(), 2);
    assert_eq!(counts.get_sk_local(), 3);
}

#[test]
fn key_count_gauges_are_set_in_order() {
    let counts = KeyCounts::new(10, 20, 255);
    assert_eq!(
        key_count_values(&counts),
        vec![(KeyType::PublicLocal, 20), (KeyType::PublicRegistry, 10), (KeyType::SecretSKS, 255)]
    );
}

#[test]
fn labels_are_in_snake_case() {
    assert_eq!(KeyType::PublicRegistry.label(), "public_registry");
    assert_eq!(KeyType::PublicLocal.label(), "public_local");
    assert_eq!(MetricsDomain::BasicSignature.label(), "basic_signature");
    assert_eq!(MetricsDomain::MultiSignature.label(), "multi_signature");
    assert_eq!(MetricsDomain::ThresholdSignature.label(), "threshold_signature");
    assert_eq!(MetricsDomain::TlsHandshake.label(), "tls_handshake");
    assert_eq!(MetricsDomain::ThresholdEcdsa.label(), "threshold_ecdsa");
    assert_eq!(MetricsDomain::IcCanisterSignature.label(), "ic_canister_signature");
    assert_eq!(MetricsDomain::PublicSeed.label(), "public_seed");
    assert_eq!(MetricsDomain::KeyManagement.label(), "key_management");
    assert_eq!(MetricsScope::Full.label(), "full");
    assert_eq!(MetricsScope::Local.label(), "local");
    assert_eq!(MetricsResult::Success.label(), "ok");
    assert_eq!(MetricsResult::Failure.label(), "err");
    assert_eq!(KeyRotationResult::KeyRotated.label(), "key_rotated");
    assert_eq!(
        KeyRotationResult::LatestLocalRotationTooRecent.label(),
        "latest_local_rotation_too_recent"
    );
    assert_eq!(KeyRotationResult::RegistryKeyBadOrMissing.label(), "registry_key_bad_or_missing");
    assert_eq!(ServiceType::Client.label(), "client");
    assert_eq!(ServiceType::Server.label(), "server");
    assert_eq!(MessageType::Request.label(), "request");
    assert_eq!(MessageType::Response.label(), "response");
    assert_eq!(BooleanResult::True.label(), "true");
    assert_eq!(BooleanResult::False.label(), "false");
    assert_eq!(
        BooleanOperation::KeyInRegistryMissingLocally.label(),
        "key_in_registry_missing_locally"
    );
}

#[test]
fn labels_split_runs_of_capitals() {
    assert_eq!(KeyType::SecretSKS.label(), "secret_sks");
    assert_eq!(MetricsDomain::NiDkgAlgorithm.label(), "ni_dkg_algorithm");
    assert_eq!(MetricsDomain::IDkgProtocol.label(), "i_dkg_protocol");
    assert_eq!(
        BooleanOperation::LatestLocalIDkgKeyExistsInRegistry.label(),
        "latest_local_i_dkg_key_exists_in_registry"
    );
}

#[test]
fn variant_names() {
    assert_eq!(KeyType::SecretSKS.as_str(), "SecretSKS");
    assert_eq!(MetricsResult::Success.as_str(), "Ok");
    assert_eq!(MetricsResult::Failure.as_str(), "Err");
    assert_eq!(MetricsDomain::IDkgProtocol.as_str(), "IDkgProtocol");
}

#[test]
fn key_count_metric_names() {
    assert_eq!(KeyType::PublicLocal.key_count_metric_name(), "crypto_public_local_key_count");
    assert_eq!(
        KeyType::PublicRegistry.key_count_metric_help(),
        "Number of crypto_public_registry_key_count"
    );
}

#[test]
fn all_key_types() {
    assert_eq!(
        KeyType::all(),
        vec![KeyType::PublicRegistry, KeyType::PublicLocal, KeyType::SecretSKS]
    );
}

#[test]
fn metrics_result_of_a_result() {
    let ok: Result<u8, String> = Ok(1);
    let err: Result<u8, String> = Err(String::new());
    assert_eq!(MetricsResult::from(&ok), MetricsResult::Success);
    assert_eq!(MetricsResult::from(&err), MetricsResult::Failure);
}

#[test]
fn metrics_enums_are_ordered_as_declared() {
    assert!(KeyType::PublicRegistry < KeyType::PublicLocal);
    assert!(KeyType::PublicLocal < KeyType::SecretSKS);
    assert!(MetricsScope::Full < MetricsScope::Local);
}

#[test]
fn adapter_labels() {
    assert_eq!(LABEL_BODY_RECEIVE_SIZE, "body_receive_size");
    assert_eq!(LABEL_CONNECT, "connect");
    assert_eq!(LABEL_UPLOAD, "up");
    assert_eq!(LABEL_DOWNLOAD, "down");
}
