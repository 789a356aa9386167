use dslreports::Latency;
use dslreports::PingResult;
use dslreports::rank;

fn ping(server: &str, latency: Latency) -> PingResult {
    PingResult { server: String::from(server), latency }
}

#[test]
fn rank_orders_by_latency_with_unreachable_last() {
    let probes = vec![
        ping("A", Latency::Reachable(50_000_000)),
        ping("B", Latency::Reachable(10_000_000)),
        ping("C", Latency::Unreachable),
    ];
    let ranked = rank(probes);
    assert_eq!(ranked.len(), 3);
    assert_eq!(ranked[0].server, "B");
    assert_eq!(ranked[0].latency, Latency::Reachable(10_000_000));
    assert_eq!(ranked[1].server, "A");
    assert_eq!(ranked[1].latency, Latency::Reachable(50_000_000));
    assert_eq!(ranked[2].server, "C");
    assert_eq!(ranked[2].latency, Latency::Unreachable);
}

#[test]
fn rank_keeps_every_server_when_all_probes_fail() {
    let probes = vec![
        ping("A", Latency::Unreachable),
        ping("B", Latency::Unreachable),
        ping("C", Latency::Unreachable),
    ];
    let ranked = rank(probes);
    assert_eq!(ranked.len(), 3);
    let mut names: Vec<String> = ranked.iter().map(|p| p.server.clone()).collect();
    names.sort();
    assert_eq!(names, vec!["A".to_string(), "B".to_string(), "C".to_string()]);
    for p in &ranked {
        assert_eq!(p.latency, Latency::Unreachable);
    }
}

#[test]
fn rank_of_empty_input_is_empty() {
    let ranked = rank(Vec::new());
    assert!(ranked.is_empty());
}

#[test]
fn rank_keeps_servers_with_equal_latency() {
    let probes = vec![
        ping("A", Latency::Reachable(7)),
        ping("B", Latency::Reachable(7)),
        ping("C", Latency::Reachable(3)),
    ];
    let ranked = rank(probes);
    assert_eq!(ranked.len(), 3);
    assert_eq!(ranked[0].server, "C");
    let mut tied: Vec<String> = vec![ranked[1].server.clone(), ranked[2].server.clone()];
    tied.sort();
    assert_eq!(tied, vec!["A".to_string(), "B".to_string()]);
    assert_eq!(ranked[1].latency, Latency::Reachable(7));
    assert_eq!(ranked[2].latency, Latency::Reachable(7));
}

#[test]
fn from_probe_measures_elapsed_time() {
    let r = PingResult::from_probe(String::from("A"), 1_000, Some(51_000));
    assert_eq!(r.server, "A");
    assert_eq!(r.latency, Latency::Reachable(50_000));
}

#[test]
fn from_probe_records_failure_as_unreachable() {
    let r = PingResult::from_probe(String::from("A"), 1_000, None);
    assert_eq!(r.server, "A");
    assert_eq!(r.latency, Latency::Unreachable);
    assert!(r.latency.is_unreachable());
}

#[test]
fn latency_order_puts_unreachable_after_everything() {
    assert!(Latency::Reachable(u64::MAX).leq(Latency::Unreachable));
    assert!(!Latency::Unreachable.leq(Latency::Reachable(u64::MAX)));
    assert!(Latency::Unreachable.leq(Latency::Unreachable));
    assert!(Latency::Reachable(3).leq(Latency::Reachable(3)));
    assert!(Latency::Reachable(2).leq(Latency::Reachable(3)));
    assert!(!Latency::Reachable(3).leq(Latency::Reachable(2)));
}
