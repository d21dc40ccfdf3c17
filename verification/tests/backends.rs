use linkerd_failover::backends::{swap_backends, Backend, TrafficSplitSpec};

fn backend(service: &str, weight: u32) -> Backend {
    Backend { service: service.to_string(), weight }
}

fn pairs(backends: &[Backend]) -> Vec<(String, u32)> {
    backends.iter().map(|b| (b.service.clone(), b.weight)).collect()
}

fn expect(list: &[(&str, u32)]) -> Vec<(String, u32)> {
    list.iter().map(|(s, w)| (s.to_string(), *w)).collect()
}

#[test]
fn switch_moves_weight_from_watched_to_failover() {
    let mut backends = vec![backend("a", 1), backend("b", 0), backend("c", 2)];
    swap_backends(&mut backends, "a", "b");
    assert_eq!(pairs(&backends), expect(&[("a", 0), ("b", 1), ("c", 2)]));
}

#[test]
fn switch_with_absent_names_changes_nothing() {
    let mut backends = vec![backend("a", 1), backend("b", 0), backend("c", 2)];
    swap_backends(&mut backends, "x", "y");
    assert_eq!(pairs(&backends), expect(&[("a", 1), ("b", 0), ("c", 2)]));
}

#[test]
fn switch_with_only_watched_present() {
    let mut backends = vec![backend("a", 5), backend("c", 2)];
    swap_backends(&mut backends, "a", "missing");
    assert_eq!(pairs(&backends), expect(&[("a", 0), ("c", 2)]));
}

#[test]
fn switch_with_only_failover_present() {
    let mut backends = vec![backend("b", 0), backend("c", 2)];
    swap_backends(&mut backends, "missing", "b");
    assert_eq!(pairs(&backends), expect(&[("b", 1), ("c", 2)]));
}

#[test]
fn switch_twice_is_switch_once() {
    let mut once = vec![backend("a", 7), backend("b", 3), backend("c", 2)];
    swap_backends(&mut once, "a", "b");
    let mut twice = once.clone();
    swap_backends(&mut twice, "a", "b");
    assert_eq!(pairs(&once), pairs(&twice));
}

#[test]
fn switch_keeps_length_names_and_order() {
    let mut backends = vec![backend("c", 2), backend("b", 9), backend("a", 1), backend("d", 4)];
    swap_backends(&mut backends, "a", "b");
    let names: Vec<String> = backends.iter().map(|b| b.service.clone()).collect();
    assert_eq!(names, vec!["c", "b", "a", "d"]);
    assert_eq!(backends[0].weight, 2);
    assert_eq!(backends[3].weight, 4);
}

#[test]
fn switch_treats_one_name_for_both_as_watched() {
    let mut backends = vec![backend("a", 3)];
    swap_backends(&mut backends, "a", "a");
    assert_eq!(pairs(&backends), expect(&[("a", 0)]));
}

#[test]
fn switch_sets_every_entry_of_a_name() {
    let mut backends = vec![backend("a", 3), backend("b", 0), backend("a", 4), backend("b", 9)];
    swap_backends(&mut backends, "a", "b");
    assert_eq!(pairs(&backends), expect(&[("a", 0), ("b", 1), ("a", 0), ("b", 1)]));
}

#[test]
fn switch_on_empty_list() {
    let mut backends: Vec<Backend> = Vec::new();
    swap_backends(&mut backends, "a", "b");
    assert!(backends.is_empty());
}

#[test]
fn switch_sets_failover_weight_to_one_whatever_it_was() {
    let mut backends = vec![backend("a", 100), backend("b", 50)];
    swap_backends(&mut backends, "a", "b");
    assert_eq!(pairs(&backends), expect(&[("a", 0), ("b", 1)]));
}

#[test]
fn traffic_split_spec_holds_backends_in_order() {
    let spec = TrafficSplitSpec { backends: vec![backend("a", 1), backend("b", 0)] };
    assert_eq!(pairs(&spec.backends), expect(&[("a", 1), ("b", 0)]));
}
