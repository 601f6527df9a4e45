//! Boot-node parsing: signed records, legacy URIs, and the multiaddress
//! normalisation.

use std::str::FromStr;

use discv5_parallel::config::{BootNode, DiscV5Config};
use discv5_parallel::records::kv_get;

const OP_SEPOLIA_NODE_P2P_BOOTNODES: &str = "enr:-J64QBwRIWAco7lv6jImSOjPU_W266lHXzpAS5YOh7WmgTyBZkgLgOwo_mxKJq3wz2XRbsoBItbv1dCyjIoNq67mFguGAYrTxM42gmlkgnY0gmlwhBLSsHKHb3BzdGFja4S0lAUAiXNlY3AyNTZrMaEDmoWSi8hcsRpQf2eJsNUx-sqv6fH4btmo2HsAzZFAKnKDdGNwgiQGg3VkcIIkBg,enr:-J64QFa3qMsONLGphfjEkeYyF6Jkil_jCuJmm7_a42ckZeUQGLVzrzstZNb1dgBp1GGx9bzImq5VxJLP-BaptZThGiWGAYrTytOvgmlkgnY0gmlwhGsV-zeHb3BzdGFja4S0lAUAiXNlY3AyNTZrMaEDahfSECTIS_cXyZ8IyNf4leANlZnrsMEWTkEYxf4GMCmDdGNwgiQGg3VkcIIkBg";

const OP_GETH_BOOTNODES: &str = "enode://87a32fd13bd596b2ffca97020e31aef4ddcc1bbd4b95bb633d16c1329f654f34049ed240a36b449fda5e5225d70fe40bc667f53c304b71f8e68fc9d448690b51@3.231.138.188:30301,enode://ca21ea8f176adb2e229ce2d700830c844af0ea941a1d8152a9513b966fe525e809c3a6c73a2c18a12b74ed6ec4380edf91662778fe0b79f6a591236e49e176f9@184.72.129.189:30301,enode://acf4507a211ba7c1e52cdf4eef62cdc3c32e7c9c47998954f7ba024026f9a6b2150cd3f0b734d9c78e507ab70d59ba61dfe5c45e1078c7ad0775fb251d7735a2@3.220.145.177:30301,enode://8a5a5006159bf079d06a04e5eceab2a1ce6e0f721875b2a9c96905336219dbe14203d38f70f3754686a6324f786c2f9852d8c0dd3adac2d080f4db35efc678c5@3.231.11.52:30301,enode://cdadbe835308ad3557f9a1de8db411da1a260a98f8421d62da90e71da66e55e98aaa8e90aa7ce01b408a54e4bd2253d701218081ded3dbe5efbbc7b41d7cef79@54.198.153.150:30301";

const MULTI_ADDRESSES: &str = "/ip4/184.72.129.189/udp/30301/p2p/16Uiu2HAmSG2hdLwyQHQmG4bcJBgD64xnW63WMTLcrNq6KoZREfGb,/ip4/3.231.11.52/udp/30301/p2p/16Uiu2HAmMy4V8bi3XP7KDfSLQcLACSvTLroRRwEsTyFUKo8NCkkp,/ip4/54.198.153.150/udp/30301/p2p/16Uiu2HAmSVsb7MbRf1jg3Dvd6a3n5YNqKQwn1fqHCFgnbqCsFZKe,/ip4/3.220.145.177/udp/30301/p2p/16Uiu2HAm74pBDGdQ84XCZK27GRQbGFFwQ7RsSqsPwcGmCR3Cwn3B,/ip4/3.231.138.188/udp/30301/p2p/16Uiu2HAmMnTiJwgFtSVGV14ZNpwAvS1LUoF4pWWeNtURuV6C3zYB";

#[test]
fn parse_boot_nodes() {
    let config = DiscV5Config::builder()
        .add_serialized_boot_nodes(OP_SEPOLIA_NODE_P2P_BOOTNODES)
        .build();

    assert_eq!(config.bootstrap_nodes.len(), 2);

    for node in &config.bootstrap_nodes {
        let rec = match node {
            BootNode::Enr(rec) => rec,
            BootNode::Enode(_) => panic!("expected a signed record"),
        };
        let udp4 = rec.udp4_socket().expect("udp4 socket");
        let tcp4 = rec.tcp4.expect("tcp4 port");
        let socket_1 = (18, 210, 176, 114, 9222);
        let socket_2 = (107, 21, 251, 55, 9222);
        let got = (udp4.ip.b0, udp4.ip.b1, udp4.ip.b2, udp4.ip.b3, udp4.port);
        assert!(got == socket_1 || got == socket_2);
        assert_eq!(tcp4, udp4.port);

        let raw = kv_get(&rec.kvs, b"opstack").expect("opstack entry");
        assert_eq!(raw.as_slice(), &[0x84u8, 0xb4, 0x94, 0x05, 0x00]);
    }
}

#[test]
fn parse_enodes() {
    let config = DiscV5Config::builder().add_enode_boot_nodes(OP_GETH_BOOTNODES).build();

    assert_eq!(config.bootstrap_nodes.len(), 5);
    for expected in MULTI_ADDRESSES.split(',') {
        assert!(config.bootstrap_nodes.iter().any(|n| match n {
            BootNode::Enode(s) => s == expected,
            BootNode::Enr(_) => false,
        }));
    }
}

#[test]
fn produced_multiaddresses_parse_back() {
    let config = DiscV5Config::builder().add_enode_boot_nodes(OP_GETH_BOOTNODES).build();
    for node in &config.bootstrap_nodes {
        let text = match node {
            BootNode::Enode(s) => s,
            BootNode::Enr(_) => panic!("expected a legacy node"),
        };
        let parsed = multiaddr::Multiaddr::from_str(text).expect("valid multiaddress");
        assert_eq!(&parsed.to_string(), text);
    }
}

#[test]
fn malformed_items_do_not_affect_others() {
    let with_noise = format!(
        "not a record,{},enode://zzz@1.2.3.4:1,,   ,{}",
        OP_GETH_BOOTNODES.split(',').next().unwrap(),
        OP_GETH_BOOTNODES.split(',').nth(1).unwrap()
    );
    let noisy = DiscV5Config::builder().add_enode_boot_nodes(&with_noise).build();
    let clean_input = format!(
        "{},{}",
        OP_GETH_BOOTNODES.split(',').next().unwrap(),
        OP_GETH_BOOTNODES.split(',').nth(1).unwrap()
    );
    let clean = DiscV5Config::builder().add_enode_boot_nodes(&clean_input).build();
    assert_eq!(noisy.bootstrap_nodes.len(), 2);
    assert_eq!(clean.bootstrap_nodes.len(), 2);
    for (a, b) in noisy.bootstrap_nodes.iter().zip(clean.bootstrap_nodes.iter()) {
        match (a, b) {
            (BootNode::Enode(x), BootNode::Enode(y)) => assert_eq!(x, y),
            _ => panic!("expected legacy nodes"),
        }
    }
}

#[test]
fn duplicate_items_enter_once() {
    let first = OP_GETH_BOOTNODES.split(',').next().unwrap();
    let doubled = format!("{first},{first}");
    let config = DiscV5Config::builder().add_enode_boot_nodes(&doubled).build();
    assert_eq!(config.bootstrap_nodes.len(), 1);
}

#[test]
fn multiaddress_parse_is_deterministic_and_ends_with_peer_id() {
    let first = OP_GETH_BOOTNODES.split(',').next().unwrap();
    let once = DiscV5Config::builder().add_enode_boot_nodes(first).build();
    let twice = DiscV5Config::builder().add_enode_boot_nodes(first).build();
    let a = match &once.bootstrap_nodes[0] {
        BootNode::Enode(s) => s.clone(),
        _ => panic!(),
    };
    let b = match &twice.bootstrap_nodes[0] {
        BootNode::Enode(s) => s.clone(),
        _ => panic!(),
    };
    assert_eq!(a, b);

    // The trailing component is the canonical peer id of the key: compress
    // the uncompressed key, frame it, and write it in base-58.
    let hex_key = &first["enode://".len().."enode://".len() + 128];
    let mut raw = vec![4u8];
    for i in 0..64 {
        raw.push(u8::from_str_radix(&hex_key[2 * i..2 * i + 2], 16).unwrap());
    }
    let compressed = secp256k1::PublicKey::from_slice(&raw).unwrap().serialize();
    let mut mh = vec![0x00u8, 0x25, 0x08, 0x02, 0x12, 0x21];
    mh.extend_from_slice(&compressed);
    let peer_id = bs58::encode(&mh).into_string();
    let tail = a.rsplit('/').next().unwrap();
    assert_eq!(tail, peer_id);
}

#[test]
fn malformed_signed_records_are_dropped_alone() {
    let noisy = format!(
        "enr:!!notbase64!!, {} ,xyz,{}",
        OP_SEPOLIA_NODE_P2P_BOOTNODES.split(',').next().unwrap(),
        OP_SEPOLIA_NODE_P2P_BOOTNODES.split(',').nth(1).unwrap()
    );
    let config = DiscV5Config::builder().add_serialized_boot_nodes(&noisy).build();
    assert_eq!(config.bootstrap_nodes.len(), 2);
    for node in &config.bootstrap_nodes {
        assert!(matches!(node, BootNode::Enr(_)));
    }
}

#[test]
fn ipv6_enodes_normalise_to_ip6_multiaddresses() {
    let first = OP_GETH_BOOTNODES.split(',').next().unwrap();
    let hex_key = &first["enode://".len().."enode://".len() + 128];
    let peer_id = "16Uiu2HAmMnTiJwgFtSVGV14ZNpwAvS1LUoF4pWWeNtURuV6C3zYB";

    let cases = [
        ("[::1]", "::1"),
        ("[2001:db8:0:0:1:0:0:1]", "2001:db8::1:0:0:1"),
        ("[fe80::1:2]", "fe80::1:2"),
        ("[1:2:3:4:5:6:7:8]", "1:2:3:4:5:6:7:8"),
        ("[::]", "::"),
        ("[2001:DB8::A]", "2001:db8::a"),
    ];
    for (host, canonical) in cases {
        let uri = format!("enode://{hex_key}@{host}:30301");
        let config = DiscV5Config::builder().add_enode_boot_nodes(&uri).build();
        assert_eq!(config.bootstrap_nodes.len(), 1, "{host}");
        let text = match &config.bootstrap_nodes[0] {
            BootNode::Enode(s) => s.clone(),
            _ => panic!(),
        };
        assert_eq!(text, format!("/ip6/{canonical}/udp/30301/p2p/{peer_id}"));
        let parsed = multiaddr::Multiaddr::from_str(&text).expect("valid multiaddress");
        assert_eq!(parsed.to_string(), text);
    }
}

#[test]
fn malformed_ipv6_hosts_are_dropped() {
    let first = OP_GETH_BOOTNODES.split(',').next().unwrap();
    let hex_key = &first["enode://".len().."enode://".len() + 128];
    for host in ["[:::1]", "[1::2::3]", "[12345::]", "[1:2:3]", "[1:2:3:4:5:6:7:8:9]", "[]", "[g::1]", "[1:2:3:4:5:6:7::8]"] {
        let uri = format!("enode://{hex_key}@{host}:30301");
        let config = DiscV5Config::builder().add_enode_boot_nodes(&uri).build();
        assert_eq!(config.bootstrap_nodes.len(), 0, "{host}");
    }
}
