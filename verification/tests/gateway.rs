use linkerd_failover::backends::{Backend, TrafficSplitSpec};
use linkerd_failover::errors::{classify_failure, ApiCall, FailoverError};
use linkerd_failover::gateway::{failover_patch, field_manager, merge_patch};

fn weighted(service: &str, weight: u32) -> Backend {
    Backend { service: service.to_string(), weight }
}

fn listed(backends: &[Backend]) -> Vec<(String, u32)> {
    backends.iter().map(|b| (b.service.clone(), b.weight)).collect()
}

#[test]
fn patch_names_the_kind_and_carries_the_backends() {
    let patch = merge_patch(vec![weighted("a", 0), weighted("b", 1)]);
    assert_eq!(patch.api_version, "split.smi-spec.io/v1alpha1");
    assert_eq!(patch.kind, "TrafficSplit");
    assert_eq!(listed(&patch.backends), vec![("a".to_string(), 0), ("b".to_string(), 1)]);
}

#[test]
fn patch_of_no_backends() {
    let patch = merge_patch(Vec::new());
    assert_eq!(patch.api_version, "split.smi-spec.io/v1alpha1");
    assert!(patch.backends.is_empty());
}

#[test]
fn field_manager_is_fixed() {
    assert_eq!(field_manager(), "linkerd_failover_patch");
}

#[test]
fn failover_patch_switches_the_split_over() {
    let split = TrafficSplitSpec {
        backends: vec![weighted("web", 1), weighted("web-failover", 0), weighted("other", 2)],
    };
    let patch = failover_patch(split, "web", "web-failover");
    assert_eq!(patch.kind, "TrafficSplit");
    assert_eq!(
        listed(&patch.backends),
        vec![
            ("web".to_string(), 0),
            ("web-failover".to_string(), 1),
            ("other".to_string(), 2),
        ]
    );
}

#[test]
fn failed_calls_are_named() {
    assert_eq!(classify_failure(ApiCall::Read, Some(404)), FailoverError::ResourceNotFound);
    assert_eq!(classify_failure(ApiCall::Read, Some(403)), FailoverError::ResourceAccessError);
    assert_eq!(classify_failure(ApiCall::Read, Some(500)), FailoverError::ResourceAccessError);
    assert_eq!(classify_failure(ApiCall::Read, None), FailoverError::ResourceAccessError);
    assert_eq!(classify_failure(ApiCall::Patch, Some(409)), FailoverError::PatchRejected);
    assert_eq!(classify_failure(ApiCall::Patch, Some(404)), FailoverError::PatchRejected);
    assert_eq!(classify_failure(ApiCall::Patch, None), FailoverError::PatchRejected);
}

#[test]
fn only_startup_and_patch_errors_end_the_run() {
    assert!(FailoverError::ResourceAccessError.is_fatal());
    assert!(FailoverError::ResourceNotFound.is_fatal());
    assert!(FailoverError::SelectorMissing.is_fatal());
    assert!(FailoverError::PatchRejected.is_fatal());
    assert!(!FailoverError::StatusMissing.is_fatal());
    assert!(!FailoverError::FetchError.is_fatal());
    assert!(!FailoverError::ParseError.is_fatal());
}

#[test]
fn errors_have_names() {
    assert_eq!(FailoverError::ResourceAccessError.describe(), "resource access error");
    assert_eq!(FailoverError::ResourceNotFound.describe(), "resource not found");
    assert_eq!(FailoverError::SelectorMissing.describe(), "selector missing");
    assert_eq!(FailoverError::StatusMissing.describe(), "status missing");
    assert_eq!(FailoverError::FetchError.describe(), "fetch error");
    assert_eq!(FailoverError::ParseError.describe(), "parse error");
    assert_eq!(FailoverError::PatchRejected.describe(), "patch rejected");
}
