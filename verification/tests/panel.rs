use std::collections::HashMap;

use domain_stats::boot::{choose_boot_time, resolve_instance_boot_time, ProcessTreeNode};
use domain_stats::collection::{
    client_counters_from_rows, collection_plan, non_negative_i64_to_u64, ClientTrafficRow,
    CollectionPlan, TrafficSource,
};
use domain_stats::config::{runtime_stats_api_from_config, v2ray_stats_url};
use domain_stats::counters::{counter_deltas, CounterMap};
use domain_stats::error::StatsError;
use domain_stats::online::online_snapshot_from_rows;
use domain_stats::queries::{
    clamp_stats_hours, online_window_start, prune_cutoff, stats_query, MAX_STATS_ROWS,
};
use domain_stats::settings::{default_settings, DEFAULT_CONFIG_JSON};
use domain_stats::system::{
    disk_io_totals, disk_usage, interface_address_lists, network_totals, parse_status_kib,
    process_status_snapshot, status_sections, DiskInfo, DiskUsage, InterfaceAddress,
    InterfaceCounters, StatusSection,
};

fn counters_of(pairs: &[(&str, u64)]) -> CounterMap {
    let mut map = CounterMap::new();
    for (name, value) in pairs {
        map.insert(name.to_string(), *value);
    }
    map
}

fn entries(map: CounterMap) -> Vec<(String, u64)> {
    map.into_entries()
}

#[test]
fn deltas_forget_missing_counters_and_repeat_to_nothing() {
    let mut previous = counters_of(&[("a", 10), ("gone", 5)]);
    let now = counters_of(&[("a", 3), ("new", 8)]);
    assert_eq!(counter_deltas(&mut previous, &now), vec![("a".to_string(), 3)]);
    assert_eq!(entries(previous), vec![("a".to_string(), 3), ("new".to_string(), 8)]);

    let mut previous = counters_of(&[("a", 10)]);
    let same = counters_of(&[("a", 10)]);
    assert!(counter_deltas(&mut previous, &same).is_empty());
    let reset = counters_of(&[("a", 0)]);
    assert!(counter_deltas(&mut previous, &reset).is_empty());
}

#[test]
fn counter_maps_iterate_in_key_order() {
    let map = counters_of(&[("b", 1), ("a", 2), ("é", 3), ("Z", 4), ("a", 5)]);
    assert_eq!(map.len(), 4);
    assert_eq!(
        entries(map),
        vec![("Z".to_string(), 4), ("a".to_string(), 5), ("b".to_string(), 1), ("é".to_string(), 3)]
    );
}

#[test]
fn boot_time_edge_cases() {
    let own_parent = HashMap::from([(7_u32, ProcessTreeNode { start_time: 70, parent: Some(7) })]);
    assert_eq!(resolve_instance_boot_time(7, |pid| own_parent.get(&pid).copied()), Some(70));
    let unknown: HashMap<u32, ProcessTreeNode> = HashMap::new();
    assert_eq!(resolve_instance_boot_time(1, |pid| unknown.get(&pid).copied()), None);
    let zeros = HashMap::from([
        (3_u32, ProcessTreeNode { start_time: 0, parent: Some(2) }),
        (2_u32, ProcessTreeNode { start_time: 500, parent: Some(1) }),
        (1_u32, ProcessTreeNode { start_time: 0, parent: None }),
    ]);
    assert_eq!(resolve_instance_boot_time(3, |pid| zeros.get(&pid).copied()), Some(500));
    assert_eq!(choose_boot_time(Some(5), Some(9), 1), 5);
    assert_eq!(choose_boot_time(None, Some(9), 1), 9);
    assert_eq!(choose_boot_time(None, Some(0), 1), 1);
    assert_eq!(choose_boot_time(None, None, 1), 1);
}

#[test]
fn online_snapshot_dedups_sorts_and_skips_blank_tags() {
    let snapshot = online_snapshot_from_rows(vec![
        ("client".to_string(), "zed".to_string(), 5),
        ("user".to_string(), "amy".to_string(), 5),
        ("clients".to_string(), "amy".to_string(), 1),
        ("user".to_string(), "  ".to_string(), 9),
        ("outbounds".to_string(), "proxy".to_string(), 2),
        ("inbound".to_string(), "in".to_string(), -4),
    ]);
    assert_eq!(snapshot.user, vec!["amy".to_string(), "zed".to_string()]);
    assert_eq!(snapshot.outbound, vec!["proxy".to_string()]);
    assert!(snapshot.inbound.is_empty());
}

#[test]
fn stats_api_address_from_config() {
    let enabled = r#"{"experimental":{"v2ray_api":{"listen":" 127.0.0.1:10085 ","stats":{"enabled":true}}}}"#;
    assert_eq!(runtime_stats_api_from_config(enabled).unwrap().listen, "127.0.0.1:10085");
    let disabled = r#"{"experimental":{"v2ray_api":{"listen":"127.0.0.1:1","stats":{"enabled":false}}}}"#;
    assert!(runtime_stats_api_from_config(disabled).is_none());
    let blank = r#"{"experimental":{"v2ray_api":{"listen":"  ","stats":{"enabled":true}}}}"#;
    assert!(runtime_stats_api_from_config(blank).is_none());
    let no_stats = r#"{"experimental":{"v2ray_api":{"listen":"a"}}}"#;
    assert!(runtime_stats_api_from_config(no_stats).is_none());
    let not_text = r#"{"experimental":{"v2ray_api":{"listen":5,"stats":{"enabled":true}}}}"#;
    assert!(runtime_stats_api_from_config(not_text).is_none());
    assert!(runtime_stats_api_from_config("not json").is_none());
    assert!(runtime_stats_api_from_config(DEFAULT_CONFIG_JSON).is_none());
}

#[test]
fn stats_urls() {
    let path = "/v2ray.core.app.stats.command.StatsService/QueryStats";
    assert_eq!(v2ray_stats_url(" 127.0.0.1:8080// "), Ok(format!("http://127.0.0.1:8080{path}")));
    assert_eq!(v2ray_stats_url("https://core/"), Ok(format!("https://core{path}")));
    assert_eq!(v2ray_stats_url("http://core"), Ok(format!("http://core{path}")));
    assert_eq!(v2ray_stats_url(" \t"), Err(StatsError::EmptyListenAddress));
}

#[test]
fn status_values() {
    assert_eq!(parse_status_kib("   1234 kB"), 1234 * 1024);
    assert_eq!(parse_status_kib(" kB"), 0);
    assert_eq!(parse_status_kib(""), 0);
    assert_eq!(parse_status_kib("18446744073709551615 kB"), u64::MAX);
    let status = "Name:\tx\nVmRSS:\t  2048 kB\nThreads:\t 12 \nVmRSS: 1 kB\r\n";
    assert_eq!(process_status_snapshot(status), (1024, 12));
    assert_eq!(process_status_snapshot("Threads: many\n"), (0, 0));
}

#[test]
fn disk_io_from_diskstats() {
    let content = "\
   8       0 sda 100 0 10 0 50 0 20 0 0 0 0 0 0 0 0
   7       0 loop0 100 0 999 0 50 0 999 0 0 0 0 0 0
   8       1 sda1 1 0 x 0 1 0 2 0 0 0 0 0 0
 short line
";
    assert_eq!(disk_io_totals(content), (10 * 512, (20 + 2) * 512));
}

#[test]
fn disks_and_networks() {
    let disk = |is_root, total_space, available_space| DiskInfo { is_root, total_space, available_space };
    assert_eq!(disk_usage(&vec![]), DiskUsage { current: 0, total: 0 });
    assert_eq!(
        disk_usage(&vec![disk(false, 100, 10), disk(true, 50, 60), disk(true, 70, 0)]),
        DiskUsage { current: 0, total: 50 }
    );
    assert_eq!(
        disk_usage(&vec![disk(false, 100, 10), disk(false, 100, 40), disk(false, 90, 0)]),
        DiskUsage { current: 60, total: 100 }
    );
    let nic = |t, r| InterfaceCounters { transmitted: t, received: r, packets_transmitted: 1, packets_received: 2 };
    let totals = network_totals(&vec![nic(5, 6), nic(u64::MAX, 1)]);
    assert_eq!((totals.sent, totals.recv, totals.psent, totals.precv), (u64::MAX, 7, 2, 4));
}

#[test]
fn interface_addresses_are_filtered_sorted_and_unique() {
    let addr = |is_loopback, is_ipv6, ip: &str| InterfaceAddress { is_loopback, is_ipv6, ip: ip.to_string() };
    let (v4, v6) = interface_address_lists(&vec![
        addr(false, false, "192.168.1.2"),
        addr(true, false, "127.0.0.1"),
        addr(false, false, "10.0.0.1"),
        addr(false, false, "192.168.1.2"),
        addr(false, true, "fe80::1"),
        addr(false, true, "2001:db8::1"),
        addr(true, true, "::1"),
    ]);
    assert_eq!(v4, vec!["10.0.0.1".to_string(), "192.168.1.2".to_string()]);
    assert_eq!(v6, vec!["2001:db8::1".to_string()]);
}

#[test]
fn status_request_sections() {
    assert_eq!(
        status_sections("cpu,,mem,bogus,db,cpu"),
        vec![StatusSection::Cpu, StatusSection::Mem, StatusSection::Db, StatusSection::Cpu]
    );
    assert_eq!(status_sections(""), vec![]);
    assert_eq!(
        status_sections("dsk,dio,swp,net,sys,sbd"),
        vec![
            StatusSection::Dsk,
            StatusSection::Dio,
            StatusSection::Swp,
            StatusSection::Net,
            StatusSection::Sys,
            StatusSection::Sbd
        ]
    );
}

#[test]
fn query_windows() {
    assert_eq!(clamp_stats_hours(0), 24);
    assert_eq!(clamp_stats_hours(-5), 24);
    assert_eq!(clamp_stats_hours(1), 1);
    assert_eq!(clamp_stats_hours(5000), 2160);
    assert_eq!(online_window_start(1000), 820);
    assert_eq!(online_window_start(i64::MIN), i64::MIN);
    assert_eq!(prune_cutoff(1_000_000, 1), 1_000_000 - 86_400);
    assert_eq!(prune_cutoff(1_000_000, 0), 1_000_000 - 86_400);
    assert_eq!(prune_cutoff(0, 100_000), -3650 * 86_400);
}

#[test]
fn stats_queries() {
    let q = stats_query(Some("user"), Some("alice"), 1, 10_000);
    assert_eq!(
        q.sql,
        "SELECT id, date_time, resource, tag, direction, traffic FROM stats WHERE date_time >= ? AND resource = ? AND tag = ? ORDER BY date_time DESC, id DESC LIMIT ?"
    );
    assert_eq!(q.binds, vec!["user".to_string(), "alice".to_string()]);
    assert_eq!(q.since, 10_000 - 3_600);
    assert_eq!(q.limit, MAX_STATS_ROWS);
    let q = stats_query(Some(""), None, 0, 0);
    assert_eq!(
        q.sql,
        "SELECT id, date_time, resource, tag, direction, traffic FROM stats WHERE date_time >= ? ORDER BY date_time DESC, id DESC LIMIT ?"
    );
    assert!(q.binds.is_empty());
    assert_eq!(q.since, -24 * 3_600);
}

#[test]
fn collection_plans() {
    assert_eq!(collection_plan(100, 0, None), CollectionPlan::Reset);
    assert_eq!(
        collection_plan(1_000_000, 2, None),
        CollectionPlan::Collect { prune_before: 1_000_000 - 2 * 86_400, source: TrafficSource::ClientCounters }
    );
    let config = r#"{"experimental":{"v2ray_api":{"listen":"127.0.0.1:10085","stats":{"enabled":true}}}}"#;
    assert_eq!(
        collection_plan(1_000_000, 30, Some(config)),
        CollectionPlan::Collect {
            prune_before: 1_000_000 - 30 * 86_400,
            source: TrafficSource::RuntimeApi("127.0.0.1:10085".to_string())
        }
    );
    assert_eq!(
        collection_plan(1_000_000, 30, Some("{}")),
        CollectionPlan::Collect { prune_before: 1_000_000 - 30 * 86_400, source: TrafficSource::ClientCounters }
    );
}

#[test]
fn client_rows_become_counters() {
    let row = |name: &str, up, down, total_up, total_down| ClientTrafficRow {
        name: name.to_string(),
        up,
        down,
        total_up,
        total_down,
    };
    let counters = client_counters_from_rows(&vec![
        row("alice", 10, 20, 1, -5),
        row(" ", 1, 1, 1, 1),
        row("bob", i64::MAX, 0, i64::MAX, 0),
    ]);
    assert_eq!(
        counters.into_entries(),
        vec![
            ("user>>>alice>>>traffic>>>downlink".to_string(), 20),
            ("user>>>alice>>>traffic>>>uplink".to_string(), 11),
            ("user>>>bob>>>traffic>>>downlink".to_string(), 0),
            ("user>>>bob>>>traffic>>>uplink".to_string(), (i64::MAX as u64) * 2),
        ]
    );
    assert_eq!(non_negative_i64_to_u64(-1), 0);
    assert_eq!(non_negative_i64_to_u64(7), 7);
}

#[test]
fn default_settings_are_sorted_and_complete() {
    let settings = default_settings();
    assert_eq!(settings.len(), 25);
    for pair in settings.windows(2) {
        assert!(pair[0].0 < pair[1].0);
    }
    let map: HashMap<_, _> = settings.into_iter().collect();
    assert_eq!(map["subPort"], "2096");
    assert_eq!(map["webPort"], "80");
    assert_eq!(map["config"], DEFAULT_CONFIG_JSON);
    assert_eq!(map["version"], "3.0.1");
    assert_eq!(map["trafficAge"], "30");
}
