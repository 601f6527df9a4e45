//! The local record's sequence rule, fork-id reads, reachability
//! conversion, and the assembled discovery handle.

use discv5_parallel::config::{DiscV5Config, ListenConfig};
use discv5_parallel::handle::{DefaultFilter, DiscV5, Error, IpAddress, IpMode};
use discv5_parallel::records::{parse_signed_record, EnrRecord, IpV4, IpV6, LocalRecord, SocketV4};
use discv5_parallel::rlp::{decode_forkid, encode_forkid, ForkId};

fn sample_record() -> EnrRecord {
    EnrRecord {
        seq: 1,
        ip4: Some(IpV4 { b0: 10, b1: 0, b2: 0, b3: 7 }),
        ip6: None,
        udp4: Some(30303),
        udp6: None,
        tcp4: Some(30304),
        tcp6: None,
        pk: vec![7u8; 64],
        kvs: Vec::new(),
    }
}

#[test]
fn local_record_mutation_bumps_sequence() {
    let mut rec = LocalRecord::new(
        Some(SocketV4 { ip: IpV4 { b0: 127, b1: 0, b2: 0, b3: 1 }, port: 9000 }),
        None,
        Some(30303),
        None,
    );
    assert_eq!(rec.seq, 1);
    rec.insert_kv(b"eth".to_vec(), vec![0xc1, 0x80]);
    assert_eq!(rec.seq, 2);
    rec.insert_kv(b"opstack".to_vec(), vec![0x84, 1, 2, 3, 4]);
    assert_eq!(rec.seq, 3);
    // Rebinding an existing key still moves the record forward.
    rec.insert_kv(b"eth".to_vec(), vec![0xc1, 0x01]);
    assert_eq!(rec.seq, 4);
    assert_eq!(rec.kvs.len(), 2);
}

#[test]
fn signed_record_text_round_trips_through_parse() {
    // A record built and signed by the record crate parses into the model
    // with the same sockets; parsing implies the signature verified.
    let mut key_bytes = [42u8; 32];
    let key = enr::CombinedKey::secp256k1_from_bytes(&mut key_bytes).unwrap();
    let enr = enr::Enr::builder()
        .ip4(core::net::Ipv4Addr::new(192, 168, 1, 5))
        .udp4(30301)
        .tcp4(30305)
        .build(&key)
        .unwrap();
    let text = enr.to_base64();
    let rec = parse_signed_record(text.as_bytes()).expect("parses");
    let udp4 = rec.udp4_socket().expect("udp4");
    assert_eq!((udp4.ip.b0, udp4.ip.b1, udp4.ip.b2, udp4.ip.b3), (192, 168, 1, 5));
    assert_eq!(udp4.port, 30301);
    assert_eq!(rec.tcp4, Some(30305));
    assert_eq!(rec.pk.len(), 64);

    // A corrupted text is rejected.
    let mut broken = text.clone();
    broken.push('!');
    assert!(parse_signed_record(broken.as_bytes()).is_none());
}

#[test]
fn fork_id_coding_round_trips() {
    let f = ForkId { h0: 0xb4, h1: 0x94, h2: 0x05, h3: 0x00, next: 0 };
    let enc = encode_forkid(&f);
    assert_eq!(enc, vec![0xc6, 0x84, 0xb4, 0x94, 0x05, 0x00, 0x80]);
    assert_eq!(decode_forkid(&enc), Some(f));

    let g = ForkId { h0: 1, h1: 2, h2: 3, h3: 4, next: 0x1234 };
    let enc2 = encode_forkid(&g);
    assert_eq!(decode_forkid(&enc2), Some(g));
    assert_eq!(enc2, vec![0xc8, 0x84, 1, 2, 3, 4, 0x82, 0x12, 0x34]);

    // Non-canonical integer codings are refused.
    assert_eq!(decode_forkid(&[0xc7, 0x84, 1, 2, 3, 4, 0x81, 0x05]), None);
}

fn handle_with_mode(mode: IpMode, allow_no_tcp: bool) -> DiscV5<DefaultFilter> {
    DiscV5 {
        local_pk: vec![9u8; 64],
        local: LocalRecord::new(
            Some(SocketV4 { ip: IpV4 { b0: 127, b1: 0, b2: 0, b3: 1 }, port: 9000 }),
            None,
            Some(30303),
            None,
        ),
        table: Vec::new(),
        banned_ids: Vec::new(),
        banned_ips: Vec::new(),
        ip_mode: mode,
        fork_id_key: b"eth".to_vec(),
        allow_no_tcp_discovered_nodes: allow_no_tcp,
        filter_discovered_peer: DefaultFilter,
    }
}

#[test]
fn get_fork_id_reads_and_decodes() {
    let handle = handle_with_mode(IpMode::Ip4, false);
    let f = ForkId { h0: 9, h1: 8, h2: 7, h3: 6, next: 100 };
    let mut rec = sample_record();
    rec.kvs.push((b"eth".to_vec(), encode_forkid(&f)));
    assert!(matches!(handle.get_fork_id(&rec), Ok(got) if got == f));

    let empty = sample_record();
    assert!(matches!(handle.get_fork_id(&empty), Err(Error::ForkIdMissing)));

    let mut broken = sample_record();
    broken.kvs.push((b"eth".to_vec(), vec![0x01, 0x02]));
    assert!(matches!(handle.get_fork_id(&broken), Err(Error::ForkIdDecodeError)));
}

#[test]
fn try_into_reachable_classifies_records() {
    let handle = handle_with_mode(IpMode::Ip4, false);

    // No discovery socket at all.
    let mut unreachable = sample_record();
    unreachable.ip4 = None;
    unreachable.udp4 = None;
    assert!(matches!(
        handle.try_into_reachable(unreachable),
        Err(Error::UnreachableDiscovery(_))
    ));

    // Wrong family for discovery.
    let mut wrong_family = sample_record();
    wrong_family.ip4 = None;
    wrong_family.udp4 = None;
    wrong_family.ip6 = Some(IpV6 { g0: 0xfe80, g1: 0, g2: 0, g3: 0, g4: 0, g5: 0, g6: 0, g7: 1 });
    wrong_family.udp6 = Some(30306);
    assert!(matches!(
        handle.try_into_reachable(wrong_family),
        Err(Error::IpVersionMismatchDiscovery(_, IpMode::Ip4))
    ));

    // No mempool port anywhere.
    let mut no_tcp = sample_record();
    no_tcp.tcp4 = None;
    assert!(matches!(handle.try_into_reachable(no_tcp), Err(Error::UnreachableMempool(_))));

    // The same record passes when such nodes are allowed, with a zero port.
    let lenient = handle_with_mode(IpMode::Ip4, true);
    let mut no_tcp2 = sample_record();
    no_tcp2.tcp4 = None;
    let nr = lenient.try_into_reachable(no_tcp2).expect("surfaced");
    assert_eq!(nr.tcp_port, 0);

    // A mempool port of the other family only.
    let mut tcp6_only = sample_record();
    tcp6_only.tcp4 = None;
    tcp6_only.tcp6 = Some(30307);
    assert!(matches!(
        handle.try_into_reachable(tcp6_only),
        Err(Error::IpVersionMismatchMempool(_, IpMode::Ip4))
    ));

    // The good case carries address, ports and key through.
    let nr = handle.try_into_reachable(sample_record()).expect("reachable");
    assert!(matches!(nr.address, IpAddress::V4(ip) if (ip.b0, ip.b1, ip.b2, ip.b3) == (10, 0, 0, 7)));
    assert_eq!(nr.udp_port, 30303);
    assert_eq!(nr.tcp_port, 30304);
    assert_eq!(nr.id, vec![7u8; 64]);
}

#[test]
fn start_assembles_handle_and_requests() {
    let config = DiscV5Config::builder()
        .discv5_config(ListenConfig::Ipv4 { ip: IpV4 { b0: 127, b1: 0, b2: 0, b3: 1 }, port: 9111 })
        .tcp_port(30345)
        .fork_id(ForkId { h0: 1, h1: 2, h2: 3, h3: 4, next: 77 })
        .add_boot_node(sample_record())
        .build();
    let (handle, requests, bc) = DiscV5::start(
        vec![3u8; 64],
        b"eth".to_vec(),
        config,
        DefaultFilter,
    )
    .expect("assembles");

    assert!(matches!(handle.ip_mode(), IpMode::Ip4));
    assert_eq!(handle.local.seq, 2);
    assert_eq!(handle.local.udp4.unwrap().port, 9111);
    assert_eq!(handle.local.tcp4, Some(30345));
    assert_eq!(handle.table.len(), 1);
    assert_eq!(handle.table[0], vec![7u8; 64]);
    assert!(requests.is_empty());
    assert!(matches!(bc.address, IpAddress::V4(ip) if ip.b0 == 127));
    assert_eq!(bc.udp_port, 9111);
    assert_eq!(bc.tcp_port, 30345);
    assert_eq!(bc.id, vec![3u8; 64]);

    // The assembled record carries the fork id under the configured key.
    let f = ForkId { h0: 1, h1: 2, h2: 3, h3: 4, next: 77 };
    let raw = discv5_parallel::records::kv_get(&handle.local.kvs, b"eth").expect("fork entry");
    assert_eq!(raw.as_slice(), encode_forkid(&f).as_slice());
}

#[test]
fn bans_and_table_updates() {
    let mut handle = handle_with_mode(IpMode::Ip4, false);
    assert!(handle.add_node(sample_record()).is_ok());
    assert!(handle.add_node(sample_record()).is_ok());
    assert_eq!(handle.table.len(), 1);

    handle.ban_peer_by_ip_and_node_id(
        vec![7u8; 64],
        IpAddress::V4(IpV4 { b0: 10, b1: 0, b2: 0, b3: 7 }),
    );
    assert_eq!(handle.banned_ids.len(), 1);
    assert_eq!(handle.banned_ips.len(), 1);
}

#[test]
fn non_utf8_keys_leave_the_record_untouched() {
    let mut handle = handle_with_mode(IpMode::Ip4, false);
    handle.update_local_enr(b"eth".to_vec(), vec![0xc1, 0x80]);
    assert_eq!(handle.local.seq, 2);

    // A key that is not valid UTF-8 is refused: no binding, no sequence bump.
    handle.update_local_enr(vec![0xff, 0xfe], vec![0x01]);
    assert_eq!(handle.local.seq, 2);
    assert_eq!(handle.local.kvs.len(), 1);
    assert!(discv5_parallel::records::kv_get(&handle.local.kvs, &[0xff, 0xfe]).is_none());
}
