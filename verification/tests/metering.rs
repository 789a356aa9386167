use dslreports::AggregateMeter;
use dslreports::DSLReportsResponse;
use dslreports::DSLReportsResponsePrefs;

#[test]
fn total_is_the_sum_of_both_samplers_rates() {
    // Two samplers report 10.0 and 15.0 MB/s (decimal megabytes).
    let mut meter = AggregateMeter::new();
    meter.upsert(String::from("https://a.example"), 10_000_000);
    meter.upsert(String::from("https://b.example"), 15_000_000);
    assert_eq!(meter.total(), 25_000_000);
    assert_eq!(meter.total() as f64 / 1_000_000.0, 25.0);
    meter.remove(&String::from("https://a.example"));
    assert_eq!(meter.total(), 15_000_000);
    assert_eq!(meter.total() as f64 / 1_000_000.0, 15.0);
}

#[test]
fn interleaved_upserts_keep_the_latest_value_per_key() {
    // Updates from several samplers land in an arbitrary interleaving;
    // the aggregate reflects the last value written for each key.
    let mut meter = AggregateMeter::new();
    meter.upsert(String::from("a"), 1_000);
    meter.upsert(String::from("b"), 2_000);
    meter.upsert(String::from("c"), 4_000);
    meter.upsert(String::from("b"), 8_000);
    meter.upsert(String::from("a"), 16_000);
    meter.upsert(String::from("b"), 32_000);
    assert_eq!(meter.total(), 16_000 + 32_000 + 4_000);
}

#[test]
fn removing_an_absent_server_changes_nothing() {
    let mut meter = AggregateMeter::new();
    meter.upsert(String::from("a"), 5);
    meter.remove(&String::from("b"));
    assert_eq!(meter.total(), 5);
    assert!(!meter.is_empty());
}

#[test]
fn meter_drains_to_empty_when_all_samplers_finish() {
    let mut meter = AggregateMeter::new();
    assert!(meter.is_empty());
    assert_eq!(meter.total(), 0);
    meter.upsert(String::from("a"), 1);
    meter.upsert(String::from("b"), 2);
    assert!(!meter.is_empty());
    meter.remove(&String::from("a"));
    meter.remove(&String::from("b"));
    assert!(meter.is_empty());
    assert_eq!(meter.total(), 0);
}

#[test]
fn upsert_overwrites_in_place_without_duplicating_the_key() {
    let mut meter = AggregateMeter::new();
    meter.upsert(String::from("a"), 100);
    meter.upsert(String::from("a"), 250);
    assert_eq!(meter.total(), 250);
    meter.remove(&String::from("a"));
    assert!(meter.is_empty());
}

#[test]
fn config_response_carries_the_candidate_servers() {
    let response = DSLReportsResponse {
        locations: vec![String::from("east"), String::from("west")],
        plat: String::from("10"),
        server_rids: vec![String::from("1")],
        locations_short: vec![String::from("e"), String::from("w")],
        key: String::from("k"),
        ports: vec![String::from("443")],
        prefs: DSLReportsResponsePrefs { ipv6: 0, https: 1 },
        dnsdom: None,
        servers: vec![String::from("https://a.example"), String::from("https://b.example")],
        ipaddr: String::from("198.51.100.7"),
    };
    assert_eq!(response.servers.len(), 2);
    assert_eq!(response.servers[0], "https://a.example");
    assert_eq!(response.prefs.https, 1);
}
