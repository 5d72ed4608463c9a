use std::collections::HashMap;

use domain_stats::boot::{resolve_instance_boot_time, ProcessTreeNode};
use domain_stats::counters::{counter_deltas, CounterMap};
use domain_stats::grpc::{decode_grpc_messages, encode_grpc_message};
use domain_stats::online::online_snapshot_from_rows;
use domain_stats::stats_api::decode_query_stats_response;
use domain_stats::wire::encode_varint;

#[test]
fn resolve_instance_boot_time_uses_oldest_ancestor_start() {
    let nodes = HashMap::from([
        (301_u32, ProcessTreeNode { start_time: 3000, parent: Some(201) }),
        (201_u32, ProcessTreeNode { start_time: 2000, parent: Some(101) }),
        (101_u32, ProcessTreeNode { start_time: 1000, parent: None }),
    ]);

    let boot_time = resolve_instance_boot_time(301, |pid| nodes.get(&pid).copied());

    assert_eq!(boot_time, Some(1000));
}

#[test]
fn resolve_instance_boot_time_keeps_last_known_when_parent_is_missing() {
    let nodes = HashMap::from([
        (301_u32, ProcessTreeNode { start_time: 3000, parent: Some(201) }),
        (201_u32, ProcessTreeNode { start_time: 2000, parent: Some(101) }),
    ]);

    let boot_time = resolve_instance_boot_time(301, |pid| nodes.get(&pid).copied());

    assert_eq!(boot_time, Some(2000));
}

#[test]
fn resolve_instance_boot_time_breaks_parent_cycles() {
    let nodes = HashMap::from([
        (301_u32, ProcessTreeNode { start_time: 3000, parent: Some(201) }),
        (201_u32, ProcessTreeNode { start_time: 2000, parent: Some(301) }),
    ]);

    let boot_time = resolve_instance_boot_time(301, |pid| nodes.get(&pid).copied());

    assert_eq!(boot_time, Some(2000));
}

#[test]
fn online_snapshot_uses_positive_recent_traffic_rows() {
    let snapshot = online_snapshot_from_rows(vec![
        ("user".to_string(), "alice".to_string(), 128),
        ("users".to_string(), "bob".to_string(), 1),
        ("inbound".to_string(), "vless-in".to_string(), 64),
        ("outbound".to_string(), "direct".to_string(), 0),
        ("unknown".to_string(), "ignored".to_string(), 1),
    ]);

    assert_eq!(snapshot.user, vec!["alice".to_string(), "bob".to_string()]);
    assert_eq!(snapshot.inbound, vec!["vless-in".to_string()]);
    assert_eq!(snapshot.outbound, Vec::<String>::new());
}

fn counter_map_of(pairs: &[(&str, u64)]) -> CounterMap {
    let mut map = CounterMap::new();
    for (name, value) in pairs {
        map.insert(name.to_string(), *value);
    }
    map
}

#[test]
fn counter_deltas_skip_first_sample_and_handle_resets() {
    let mut previous = CounterMap::new();
    let first = counter_map_of(&[
        ("user>>>alice>>>traffic>>>uplink", 100_u64),
        ("user>>>alice>>>traffic>>>downlink", 50_u64),
    ]);
    assert!(counter_deltas(&mut previous, &first).is_empty());

    let second = counter_map_of(&[
        ("user>>>alice>>>traffic>>>uplink", 175_u64),
        ("user>>>alice>>>traffic>>>downlink", 40_u64),
    ]);
    let deltas = counter_deltas(&mut previous, &second);

    assert_eq!(
        deltas,
        vec![
            ("user>>>alice>>>traffic>>>downlink".to_string(), 40),
            ("user>>>alice>>>traffic>>>uplink".to_string(), 75),
        ]
    );
}

#[test]
fn grpc_query_stats_response_decodes_v2ray_counters() {
    let mut stat = Vec::new();
    stat.push(0x0a);
    let name = "user>>>alice>>>traffic>>>uplink";
    encode_varint(name.len() as u64, &mut stat);
    stat.extend_from_slice(name.as_bytes());
    stat.push(0x10);
    encode_varint(321, &mut stat);

    let mut response = Vec::new();
    response.push(0x0a);
    encode_varint(stat.len() as u64, &mut response);
    response.extend_from_slice(&stat);
    let frame = encode_grpc_message(&response);
    let messages = decode_grpc_messages(&frame).expect("decode grpc frame");
    let counters = decode_query_stats_response(&messages[0]).expect("decode query stats");

    assert_eq!(counters.get(name), Some(&321));
}
