//! The legacy mirror's exclusivity and the merged stream's ordering.

use discv5_parallel::downgrade::{
    drain_updates, DiscoveryUpdate, MergedUpdateStream, V4Update, V5Event, V4Mirror,
};
use discv5_parallel::config::SocketAddress;
use discv5_parallel::records::{EnrRecord, IpV4, SocketV4};
use discv5_parallel::{filter_outcome_passes, FilterOutcome};

fn key(b: u8) -> Vec<u8> {
    vec![b; 64]
}

fn record(b: u8) -> EnrRecord {
    EnrRecord {
        seq: 1,
        ip4: Some(IpV4 { b0: 10, b1: 0, b2: 0, b3: b }),
        ip6: None,
        udp4: Some(30303),
        udp6: None,
        tcp4: Some(30304),
        tcp6: None,
        pk: key(b),
        kvs: Vec::new(),
    }
}

#[test]
fn mirror_rejects_keys_the_authoritative_table_holds() {
    let v5_keys = vec![key(1), key(2)];
    let mut mirror = V4Mirror::new();
    assert!(!mirror.try_insert(key(1), &v5_keys));
    assert!(mirror.try_insert(key(3), &v5_keys));
    assert!(!mirror.try_insert(key(3), &v5_keys));
    assert_eq!(mirror.entries.len(), 1);
}

#[test]
fn mirror_evicts_on_change_notification() {
    let mut mirror = V4Mirror::new();
    let empty: Vec<Vec<u8>> = Vec::new();
    assert!(mirror.try_insert(key(1), &empty));
    assert!(mirror.try_insert(key(2), &empty));
    assert!(mirror.try_insert(key(3), &empty));

    // The authoritative table learned two of the keys; the notification
    // poll evicts exactly those.
    let v5_keys = vec![key(2), key(1)];
    let removed = mirror.on_v5_changed(&v5_keys);
    assert_eq!(removed, vec![key(1), key(2)]);
    assert_eq!(mirror.entries, vec![key(3)]);
    for e in &mirror.entries {
        assert!(!v5_keys.contains(e));
    }
}

#[test]
fn merged_stream_notifies_before_every_bucket_mutation() {
    let mut stream = MergedUpdateStream::merge_discovery_streams();
    let updates = vec![
        DiscoveryUpdate::V5(V5Event::SessionEstablished(
            record(1),
            SocketAddress::V4(SocketV4 { ip: IpV4 { b0: 10, b1: 0, b2: 0, b3: 1 }, port: 1 }),
        )),
        DiscoveryUpdate::V5(V5Event::Discovered(record(2))),
        DiscoveryUpdate::V4(V4Update::Removed(key(3))),
        DiscoveryUpdate::V5(V5Event::NodeInserted { node_id: key(4), replaced: None }),
    ];
    let out = drain_updates(&mut stream, updates);
    assert_eq!(out.len(), 4);
    // The session and the insertion fire the notification within their own
    // step, before the consumer sees the update; the others never do.
    assert!(out[0].0);
    assert!(!out[1].0);
    assert!(!out[2].0);
    assert!(out[3].0);
    assert_eq!(stream.notifications_sent, 2);
    assert_eq!(stream.v5_mutations_yielded, 2);
}

#[test]
fn coordination_scenario_eviction_follows_session() {
    // A peer reaches the authoritative table; the merged stream fires the
    // change notification, and the mirror poll it prompts evicts the peer.
    let mut stream = MergedUpdateStream::merge_discovery_streams();
    let mut mirror = V4Mirror::new();
    let empty: Vec<Vec<u8>> = Vec::new();
    assert!(mirror.try_insert(key(2), &empty));

    let mut v5_keys: Vec<Vec<u8>> = Vec::new();
    let updates = vec![DiscoveryUpdate::V5(V5Event::NodeInserted {
        node_id: key(2),
        replaced: None,
    })];
    let out = drain_updates(&mut stream, updates);
    assert!(out[0].0);
    // The notification handler reads the post-mutation key set.
    v5_keys.push(key(2));
    let removed = mirror.on_v5_changed(&v5_keys);
    assert_eq!(removed, vec![key(2)]);
    assert!(mirror.entries.is_empty());
}

#[test]
fn filter_outcomes_map_to_lookup_predicate() {
    assert!(filter_outcome_passes(&FilterOutcome::Pass));
    assert!(!filter_outcome_passes(&FilterOutcome::Ignore {
        reason: "chain mismatch".to_string()
    }));
}
