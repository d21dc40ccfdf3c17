use linkerd_failover::errors::FailoverError;
use linkerd_failover::resolver::{
    endpoint_addresses, label_selector, pod_address, PodInfo, PodStatusInfo, SelectorEntry,
};

fn entry(key: &str, value: &str) -> SelectorEntry {
    SelectorEntry { key: key.to_string(), value: value.to_string() }
}

fn pod(name: &str, status: Option<Option<&str>>) -> PodInfo {
    PodInfo {
        name: Some(name.to_string()),
        status: status.map(|ip| PodStatusInfo { pod_ip: ip.map(|text| text.to_string()) }),
    }
}

#[test]
fn selector_query_uses_the_first_entry() {
    let selector = vec![entry("app", "web"), entry("tier", "front")];
    assert_eq!(label_selector(Some(&selector)), Ok("app=web".to_string()));
}

#[test]
fn selector_query_of_a_single_entry() {
    let selector = vec![entry("app.kubernetes.io/name", "voting")];
    assert_eq!(label_selector(Some(&selector)), Ok("app.kubernetes.io/name=voting".to_string()));
}

#[test]
fn missing_selector_is_an_error() {
    assert_eq!(label_selector(None), Err(FailoverError::SelectorMissing));
}

#[test]
fn empty_selector_is_an_error() {
    let selector: Vec<SelectorEntry> = Vec::new();
    assert_eq!(label_selector(Some(&selector)), Err(FailoverError::SelectorMissing));
}

#[test]
fn pods_without_address_are_skipped() {
    let pods = vec![
        pod("a", Some(Some("10.0.0.1"))),
        pod("b", None),
        pod("c", Some(None)),
        pod("d", Some(Some("10.0.0.2"))),
    ];
    let found = endpoint_addresses(&pods);
    assert_eq!(found.addresses, vec!["10.0.0.1".to_string(), "10.0.0.2".to_string()]);
    assert_eq!(found.skipped, vec![1, 2]);
}

#[test]
fn no_pods_give_no_endpoints() {
    let found = endpoint_addresses(&Vec::new());
    assert!(found.addresses.is_empty());
    assert!(found.skipped.is_empty());
}

#[test]
fn all_pods_ready_are_all_found_in_order() {
    let pods = vec![pod("a", Some(Some("10.0.0.3"))), pod("b", Some(Some("10.0.0.1")))];
    let found = endpoint_addresses(&pods);
    assert_eq!(found.addresses, vec!["10.0.0.3".to_string(), "10.0.0.1".to_string()]);
    assert!(found.skipped.is_empty());
}

#[test]
fn pod_address_tells_why_there_is_none() {
    assert_eq!(pod_address(&pod("a", Some(Some("10.0.0.1")))), Ok(&"10.0.0.1".to_string()));
    assert_eq!(pod_address(&pod("b", None)), Err(FailoverError::StatusMissing));
    assert_eq!(pod_address(&pod("c", Some(None))), Err(FailoverError::StatusMissing));
    let nameless = PodInfo { name: None, status: None };
    assert_eq!(pod_address(&nameless), Err(FailoverError::StatusMissing));
}
