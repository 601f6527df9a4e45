//! The discovery handle: the local signed record, a model of the routing
//! table keyed by public key, ban lists, and the conversions a caller
//! needs: a record's reachable socket pair, and its advertised fork id.

use vstd::prelude::*;

use crate::bytes_util::{bytes_eq, bytes_to_vec};
use crate::config::{BootNode, BootNodeView, DiscV5Config, ListenConfig};
use crate::records::{kv_lookup, EnrRecord, IpV4, IpV6, LocalRecord, SocketV4, SocketV6};
use crate::rlp::{dec_forkid, enc_bytes, enc_forkid, encode_bytes, encode_forkid, ForkId};
use crate::FilterOutcome;

verus! {

/// Which address families the local node listens on, and which socket of a
/// discovered record counts as reachable.
#[derive(Clone, Copy, Debug, PartialEq, Eq, Structural)]
pub enum IpMode {
    /// IPv4 only.
    Ip4,
    /// IPv6 only.
    Ip6,
    /// Both; IPv6 is preferred for discovery contact, IPv4 for mempool.
    DualStack,
}

/// An address of either family.
#[derive(Clone, Copy, Debug, PartialEq, Eq, Structural)]
pub enum IpAddress {
    /// IPv4 address.
    V4(IpV4),
    /// IPv6 address.
    V6(IpV6),
}

/// The legacy node record: one reachable address, both ports, and the
/// node's public key.
#[derive(Clone, Debug)]
pub struct NodeRecord {
    /// The reachable address.
    pub address: IpAddress,
    /// Discovery port.
    pub udp_port: u16,
    /// Mempool port; zero records an absent port when the configuration
    /// allows such nodes through.
    pub tcp_port: u16,
    /// Uncompressed public key, 64 bytes.
    pub id: Vec<u8>,
}

/// Errors of the discovery subsystem.
#[derive(Clone, Debug)]
pub enum Error {
    /// The routing table refused the record.
    AddNodeToDiscv5Failed(String),
    /// The record carries no fork-id entry.
    ForkIdMissing,
    /// The fork-id entry does not decode.
    ForkIdDecodeError,
    /// The record advertises no discovery socket at all.
    UnreachableDiscovery(EnrRecord),
    /// The record advertises no mempool port at all.
    UnreachableMempool(EnrRecord),
    /// The record's discovery socket is of the wrong family.
    IpVersionMismatchDiscovery(EnrRecord, IpMode),
    /// The record's mempool port is of the wrong family.
    IpVersionMismatchMempool(EnrRecord, IpMode),
    /// The subsystem could not start.
    InitFailure(String),
    /// An error of the underlying node.
    Discv5Error(String),
    /// An error of the underlying node, as fixed text.
    Discv5ErrorStr(String),
}

impl IpMode {
    /// The discovery socket a record of this mode is contacted on: the
    /// matching family, IPv6 first when both families are local.
    pub open spec fn spec_contactable(self, udp4: Option<SocketV4>, udp6: Option<SocketV6>) -> Option<
        (IpAddress, u16),
    > {
        match self {
            IpMode::Ip4 => match udp4 {
                Option::Some(s) => Option::Some((IpAddress::V4(s.ip), s.port)),
                Option::None => Option::None,
            },
            IpMode::Ip6 => match udp6 {
                Option::Some(s) => Option::Some((IpAddress::V6(s.ip), s.port)),
                Option::None => Option::None,
            },
            IpMode::DualStack => match udp6 {
                Option::Some(s) => Option::Some((IpAddress::V6(s.ip), s.port)),
                Option::None => match udp4 {
                    Option::Some(s) => Option::Some((IpAddress::V4(s.ip), s.port)),
                    Option::None => Option::None,
                },
            },
        }
    }

    /// Picks the contactable discovery socket of a record.
    pub fn get_contactable_addr(self, enr: &EnrRecord) -> (r: Option<(IpAddress, u16)>)
        ensures
            r == self.spec_contactable(enr.spec_udp4_socket(), enr.spec_udp6_socket()),
    {
        let udp4 = enr.udp4_socket();
        let udp6 = enr.udp6_socket();
        match self {
            IpMode::Ip4 => match udp4 {
                Option::Some(s) => Some((IpAddress::V4(s.ip), s.port)),
                Option::None => None,
            },
            IpMode::Ip6 => match udp6 {
                Option::Some(s) => Some((IpAddress::V6(s.ip), s.port)),
                Option::None => None,
            },
            IpMode::DualStack => match udp6 {
                Option::Some(s) => Some((IpAddress::V6(s.ip), s.port)),
                Option::None => match udp4 {
                    Option::Some(s) => Some((IpAddress::V4(s.ip), s.port)),
                    Option::None => None,
                },
            },
        }
    }
}

/// A pluggable predicate over discovered records.
pub trait FilterDiscovered {
    /// Decides whether a discovered record is passed up to the application.
    fn filter_discovered_peer(&self, enr: &EnrRecord) -> FilterOutcome;
}

/// The filter that lets every record through.
#[derive(Clone, Copy, Debug, PartialEq, Eq, Structural)]
pub struct DefaultFilter;

impl FilterDiscovered for DefaultFilter {
    fn filter_discovered_peer(&self, _enr: &EnrRecord) -> FilterOutcome {
        FilterOutcome::Pass
    }
}

/// Whether a sequence of keys contains `k`.
pub open spec fn key_set_contains(keys: Seq<Seq<u8>>, k: Seq<u8>) -> bool {
    keys.contains(k)
}

/// Set insertion over a key sequence.
pub open spec fn key_insert(keys: Seq<Seq<u8>>, k: Seq<u8>) -> Seq<Seq<u8>> {
    if keys.contains(k) {
        keys
    } else {
        keys.push(k)
    }
}

/// Tests membership of a key in a key list.
pub fn key_list_contains(keys: &Vec<Vec<u8>>, k: &[u8]) -> (r: bool)
    ensures
        r == key_set_contains(keys.deep_view(), k@),
{
    let n = keys.len();
    let mut i: usize = 0;
    while i < n
        invariant
            n == keys.len(),
            i <= n,
            forall|j: int| 0 <= j < i ==> keys.deep_view()[j] != k@,
        decreases n - i,
    {
        proof {
            assert(keys.deep_view()[i as int] == keys[i as int]@);
        }
        if bytes_eq(keys[i].as_slice(), k) {
            proof {
                assert(keys.deep_view().contains(k@));
            }
            return true;
        }
        i += 1;
    }
    proof {
        assert(!keys.deep_view().contains(k@));
    }
    false
}

/// Inserts a key into a key list unless present.
pub fn key_list_insert(keys: &mut Vec<Vec<u8>>, k: Vec<u8>)
    ensures
        final(keys).deep_view() == key_insert(old(keys).deep_view(), k@),
{
    if !key_list_contains(keys, k.as_slice()) {
        keys.push(k);
        proof {
            assert(keys.deep_view() =~~= old(keys).deep_view().push(k@));
        }
    }
}

/// Relies on `str::from_utf8`: it accepts a byte string exactly when the
/// bytes are well-formed UTF-8, the property `valid_utf8` formalises.
#[verifier::external_body]
fn utf8_ok(b: &[u8]) -> (r: bool)
    ensures
        r == vstd::utf8::valid_utf8(b@),
{
    core::str::from_utf8(b).is_ok()
}

/// The discovery handle: local record, routing-table key set, ban lists.
pub struct DiscV5<T = DefaultFilter> {
    /// The node's own uncompressed public key, 64 bytes.
    pub local_pk: Vec<u8>,
    /// The local signed record.
    pub local: LocalRecord,
    /// Public keys of the records currently in the routing table.
    pub table: Vec<Vec<u8>>,
    /// Banned node keys.
    pub banned_ids: Vec<Vec<u8>>,
    /// Banned addresses.
    pub banned_ips: Vec<IpAddress>,
    /// Which address families the node listens on.
    pub ip_mode: IpMode,
    /// Key of the fork-id entry in records.
    pub fork_id_key: Vec<u8>,
    /// Allow discovered nodes without an advertised mempool port.
    pub allow_no_tcp_discovered_nodes: bool,
    /// The configured filter over discovered records.
    pub filter_discovered_peer: T,
}

impl<T> DiscV5<T> {
    /// The local record advertises the socket the mode calls for.
    pub open spec fn wf(&self) -> bool {
        &&& self.local.wf()
        &&& self.ip_mode.spec_contactable(self.local.udp4, self.local.udp6) is Some
        &&& self.local.seq < u64::MAX
    }

    /// Places a record's key into the routing-table key set.
    pub fn add_node(&mut self, node_record: EnrRecord) -> (r: Result<(), Error>)
        ensures
            r is Ok,
            final(self).table.deep_view() == key_insert(old(self).table.deep_view(), node_record.pk@),
            final(self).local == old(self).local,
            final(self).local_pk == old(self).local_pk,
            final(self).banned_ids == old(self).banned_ids,
            final(self).banned_ips == old(self).banned_ips,
            final(self).ip_mode == old(self).ip_mode,
            final(self).fork_id_key == old(self).fork_id_key,
            final(self).allow_no_tcp_discovered_nodes == old(self).allow_no_tcp_discovered_nodes,
    {
        key_list_insert(&mut self.table, node_record.pk);
        Ok(())
    }

    /// Places a record's key into the routing-table key set.
    pub fn add_node_to_routing_table(&mut self, node_record: EnrRecord) -> (r: Result<(), Error>)
        ensures
            r is Ok,
            final(self).table.deep_view() == key_insert(old(self).table.deep_view(), node_record.pk@),
            final(self).local == old(self).local,
            final(self).local_pk == old(self).local_pk,
            final(self).banned_ids == old(self).banned_ids,
            final(self).banned_ips == old(self).banned_ips,
            final(self).ip_mode == old(self).ip_mode,
            final(self).fork_id_key == old(self).fork_id_key,
            final(self).allow_no_tcp_discovered_nodes == old(self).allow_no_tcp_discovered_nodes,
    {
        self.add_node(node_record)
    }

    /// Rebinds one entry of the local record when the key is well-formed
    /// text; a key that is not valid UTF-8 is refused and the record is
    /// left exactly as it was (the failure is only reported). On a
    /// mutation the sequence number strictly increases, so every reader
    /// can order it after the old state.
    pub fn update_local_enr(&mut self, key: Vec<u8>, rlp: Vec<u8>)
        requires
            old(self).wf(),
        ensures
            !vstd::utf8::valid_utf8(key@) ==> *final(self) == *old(self),
            vstd::utf8::valid_utf8(key@) ==> {
                &&& final(self).local.seq == old(self).local.seq + 1
                &&& kv_lookup(final(self).local.kvs.deep_view(), key@) == Option::Some(rlp@)
                &&& forall|k: Seq<u8>|
                    k != key@ ==> kv_lookup(final(self).local.kvs.deep_view(), k) == kv_lookup(
                        old(self).local.kvs.deep_view(),
                        k,
                    )
            },
            final(self).local.wf(),
            final(self).local.udp4 == old(self).local.udp4,
            final(self).local.udp6 == old(self).local.udp6,
            final(self).local.tcp4 == old(self).local.tcp4,
            final(self).local.tcp6 == old(self).local.tcp6,
            final(self).table == old(self).table,
            final(self).local_pk == old(self).local_pk,
            final(self).banned_ids == old(self).banned_ids,
            final(self).banned_ips == old(self).banned_ips,
            final(self).ip_mode == old(self).ip_mode,
            final(self).fork_id_key == old(self).fork_id_key,
            final(self).allow_no_tcp_discovered_nodes == old(self).allow_no_tcp_discovered_nodes,
    {
        if !utf8_ok(key.as_slice()) {
            return;
        }
        self.local.insert_kv(key, rlp);
    }

    /// Rebinds one entry of the local record from an already-encoded
    /// value; a key that is not valid UTF-8 is refused, as above.
    pub fn set_eip868_in_local_enr(&mut self, key: Vec<u8>, rlp: Vec<u8>)
        requires
            old(self).wf(),
        ensures
            !vstd::utf8::valid_utf8(key@) ==> *final(self) == *old(self),
            vstd::utf8::valid_utf8(key@) ==> {
                &&& final(self).local.seq == old(self).local.seq + 1
                &&& kv_lookup(final(self).local.kvs.deep_view(), key@) == Option::Some(rlp@)
                &&& forall|k: Seq<u8>|
                    k != key@ ==> kv_lookup(final(self).local.kvs.deep_view(), k) == kv_lookup(
                        old(self).local.kvs.deep_view(),
                        k,
                    )
            },
            final(self).local.wf(),
            final(self).local.udp4 == old(self).local.udp4,
            final(self).local.udp6 == old(self).local.udp6,
            final(self).table == old(self).table,
            final(self).ip_mode == old(self).ip_mode,
    {
        self.update_local_enr(key, rlp)
    }

    /// Encodes a raw byte value and rebinds one entry of the local
    /// record; a key that is not valid UTF-8 is refused, as above.
    pub fn encode_and_set_eip868_in_local_enr(&mut self, key: Vec<u8>, value: &[u8])
        requires
            old(self).wf(),
            value@.len() <= u64::MAX,
        ensures
            !vstd::utf8::valid_utf8(key@) ==> *final(self) == *old(self),
            vstd::utf8::valid_utf8(key@) ==> {
                &&& final(self).local.seq == old(self).local.seq + 1
                &&& kv_lookup(final(self).local.kvs.deep_view(), key@) == Option::Some(
                    enc_bytes(value@),
                )
                &&& forall|k: Seq<u8>|
                    k != key@ ==> kv_lookup(final(self).local.kvs.deep_view(), k) == kv_lookup(
                        old(self).local.kvs.deep_view(),
                        k,
                    )
            },
            final(self).local.wf(),
            final(self).table == old(self).table,
            final(self).ip_mode == old(self).ip_mode,
    {
        let rlp = encode_bytes(value);
        self.set_eip868_in_local_enr(key, rlp);
    }

    /// Bans a node by key and address: both lists gain the entry.
    pub fn ban_peer_by_ip_and_node_id(&mut self, peer_id: Vec<u8>, ip: IpAddress)
        ensures
            final(self).banned_ids.deep_view() == key_insert(
                old(self).banned_ids.deep_view(),
                peer_id@,
            ),
            final(self).banned_ips@ == old(self).banned_ips@.push(ip),
            final(self).table == old(self).table,
            final(self).local == old(self).local,
    {
        key_list_insert(&mut self.banned_ids, peer_id);
        self.banned_ips.push(ip);
    }

    /// Bans an address.
    pub fn ban_peer_by_ip(&mut self, ip: IpAddress)
        ensures
            final(self).banned_ips@ == old(self).banned_ips@.push(ip),
            final(self).banned_ids == old(self).banned_ids,
            final(self).table == old(self).table,
            final(self).local == old(self).local,
    {
        self.banned_ips.push(ip);
    }

    /// The local record in its legacy form: the contactable socket, the
    /// advertised mempool port, and the node's key.
    pub fn node_record(&self) -> (r: NodeRecord)
        requires
            self.wf(),
        ensures
            Option::Some((r.address, r.udp_port)) == self.ip_mode.spec_contactable(
                self.local.udp4,
                self.local.udp6,
            ),
            r.tcp_port == (match self.ip_mode {
                IpMode::Ip4 | IpMode::DualStack => match self.local.tcp4 {
                    Option::Some(p) => p,
                    Option::None => 0u16,
                },
                IpMode::Ip6 => match self.local.tcp6 {
                    Option::Some(p) => p,
                    Option::None => 0u16,
                },
            }),
            r.id@ == self.local_pk@,
    {
        let (address, udp_port) = match self.ip_mode.get_contactable_addr(&self.local_as_record()) {
            Option::Some(s) => s,
            Option::None => {
                proof {
                    assert(false);
                }
                (IpAddress::V4(IpV4 { b0: 0, b1: 0, b2: 0, b3: 0 }), 0u16)
            },
        };
        let tcp_port = match self.ip_mode {
            IpMode::Ip4 | IpMode::DualStack => match self.local.tcp4 {
                Option::Some(p) => p,
                Option::None => 0,
            },
            IpMode::Ip6 => match self.local.tcp6 {
                Option::Some(p) => p,
                Option::None => 0,
            },
        };
        NodeRecord { address, udp_port, tcp_port, id: bytes_to_vec(self.local_pk.as_slice()) }
    }

    /// The local record seen as a discovered record, for socket selection.
    fn local_as_record(&self) -> (r: EnrRecord)
        ensures
            r.spec_udp4_socket() == self.local.udp4,
            r.spec_udp6_socket() == self.local.udp6,
            r.tcp4 == self.local.tcp4,
            r.tcp6 == self.local.tcp6,
    {
        let (ip4, udp4) = match self.local.udp4 {
            Option::Some(s) => (Some(s.ip), Some(s.port)),
            Option::None => (None, None),
        };
        let (ip6, udp6) = match self.local.udp6 {
            Option::Some(s) => (Some(s.ip), Some(s.port)),
            Option::None => (None, None),
        };
        EnrRecord {
            seq: self.local.seq,
            ip4,
            ip6,
            udp4,
            udp6,
            tcp4: self.local.tcp4,
            tcp6: self.local.tcp6,
            pk: bytes_to_vec(self.local_pk.as_slice()),
            kvs: Vec::new(),
        }
    }

    /// The mode the node listens with.
    pub fn ip_mode(&self) -> (r: IpMode)
        ensures
            r == self.ip_mode,
    {
        self.ip_mode
    }

    /// The key under which records carry their fork id.
    pub fn fork_id_key(&self) -> (r: &Vec<u8>)
        ensures
            r@ == self.fork_id_key@,
    {
        &self.fork_id_key
    }

    /// Reads and decodes a record's fork id: missing entry and undecodable
    /// entry are told apart, and a decoded value is exactly the entry's
    /// canonical coding.
    pub fn get_fork_id(&self, enr: &EnrRecord) -> (r: Result<ForkId, Error>)
        ensures
            match kv_lookup(enr.kvs.deep_view(), self.fork_id_key@) {
                Option::None => r == Result::<ForkId, Error>::Err(Error::ForkIdMissing),
                Option::Some(raw) => match dec_forkid(raw) {
                    Option::Some(f) => r == Result::<ForkId, Error>::Ok(f),
                    Option::None => r == Result::<ForkId, Error>::Err(Error::ForkIdDecodeError),
                },
            },
    {
        let raw = match crate::records::kv_get(&enr.kvs, self.fork_id_key.as_slice()) {
            Option::Some(v) => v,
            Option::None => {
                return Err(Error::ForkIdMissing);
            },
        };
        match crate::rlp::decode_forkid(raw.as_slice()) {
            Option::Some(f) => Ok(f),
            Option::None => Err(Error::ForkIdDecodeError),
        }
    }

    /// Converts a discovered record to its legacy form with respect to the
    /// local mode: no discovery socket at all is unreachable; a socket of
    /// the wrong family is a version mismatch; an absent mempool port is
    /// unreachable unless such nodes are allowed through, in which case a
    /// zero port records the absence.
    pub fn try_into_reachable(&self, enr: EnrRecord) -> (r: Result<NodeRecord, Error>)
        ensures
            enr.spec_udp4_socket() is None && enr.spec_udp6_socket() is None ==> r == Result::<
                NodeRecord,
                Error,
            >::Err(Error::UnreachableDiscovery(enr)),
            (enr.spec_udp4_socket() is Some || enr.spec_udp6_socket() is Some)
                && self.ip_mode.spec_contactable(
                enr.spec_udp4_socket(),
                enr.spec_udp6_socket(),
            ) is None ==> r == Result::<NodeRecord, Error>::Err(
                Error::IpVersionMismatchDiscovery(enr, self.ip_mode),
            ),
            self.ip_mode.spec_contactable(enr.spec_udp4_socket(), enr.spec_udp6_socket())
                matches Some(sock) ==> {
                let wanted_tcp = match self.ip_mode {
                    IpMode::Ip4 | IpMode::DualStack => enr.tcp4,
                    IpMode::Ip6 => enr.tcp6,
                };
                match wanted_tcp {
                    Option::Some(p) => r matches Result::Ok(nr) && nr.address == sock.0
                        && nr.udp_port == sock.1 && nr.tcp_port == p && nr.id@ == enr.pk@,
                    Option::None => {
                        if enr.tcp4 is None && enr.tcp6 is None {
                            if self.allow_no_tcp_discovered_nodes {
                                r matches Result::Ok(nr) && nr.address == sock.0 && nr.udp_port
                                    == sock.1 && nr.tcp_port == 0 && nr.id@ == enr.pk@
                            } else {
                                r == Result::<NodeRecord, Error>::Err(
                                    Error::UnreachableMempool(enr),
                                )
                            }
                        } else {
                            r == Result::<NodeRecord, Error>::Err(
                                Error::IpVersionMismatchMempool(enr, self.ip_mode),
                            )
                        }
                    },
                }
            },
    {
        let no4 = matches!(enr.udp4_socket(), Option::None);
        let no6 = matches!(enr.udp6_socket(), Option::None);
        if no4 && no6 {
            return Err(Error::UnreachableDiscovery(enr));
        }
        let (address, udp_port) = match self.ip_mode.get_contactable_addr(&enr) {
            Option::Some(s) => s,
            Option::None => {
                return Err(Error::IpVersionMismatchDiscovery(enr, self.ip_mode));
            },
        };
        let wanted_tcp = match self.ip_mode {
            IpMode::Ip4 | IpMode::DualStack => enr.tcp4,
            IpMode::Ip6 => enr.tcp6,
        };
        let tcp_port = match wanted_tcp {
            Option::Some(p) => p,
            Option::None => {
                if matches!(enr.tcp4, Option::None) && matches!(enr.tcp6, Option::None) {
                    if self.allow_no_tcp_discovered_nodes {
                        0
                    } else {
                        return Err(Error::UnreachableMempool(enr));
                    }
                } else {
                    return Err(Error::IpVersionMismatchMempool(enr, self.ip_mode));
                }
            },
        };
        let id = bytes_to_vec(enr.pk.as_slice());
        Ok(NodeRecord { address, udp_port, tcp_port, id })
    }
}

impl<T: FilterDiscovered> DiscV5<T> {
    /// Applies the configured filter to a discovered record.
    pub fn filter_discovered_peer(&self, enr: &EnrRecord) -> FilterOutcome {
        self.filter_discovered_peer.filter_discovered_peer(enr)
    }
}

/// The mode a listen configuration implies.
pub open spec fn mode_of(listen: ListenConfig) -> IpMode {
    match listen {
        ListenConfig::Ipv4 { .. } => IpMode::Ip4,
        ListenConfig::Ipv6 { .. } => IpMode::Ip6,
        ListenConfig::DualStack { .. } => IpMode::DualStack,
    }
}

/// The sockets the local record advertises for a listen configuration: the
/// discovery sockets as configured, the mempool port on the matching
/// family, IPv4 when both families are local.
pub open spec fn local_sockets_of(listen: ListenConfig, tcp_port: u16) -> (
    Option<SocketV4>,
    Option<SocketV6>,
    Option<u16>,
    Option<u16>,
) {
    match listen {
        ListenConfig::Ipv4 { ip, port } => (
            Option::Some(SocketV4 { ip, port }),
            Option::None,
            Option::Some(tcp_port),
            Option::None,
        ),
        ListenConfig::Ipv6 { ip, port } => (
            Option::None,
            Option::Some(SocketV6 { ip, port }),
            Option::None,
            Option::Some(tcp_port),
        ),
        ListenConfig::DualStack { ipv4, ipv4_port, ipv6, ipv6_port } => (
            Option::Some(SocketV4 { ip: ipv4, port: ipv4_port }),
            Option::Some(SocketV6 { ip: ipv6, port: ipv6_port }),
            Option::Some(tcp_port),
            Option::None,
        ),
    }
}

/// The byte form of a text key.
pub open spec fn key_bytes_of(s: Seq<char>) -> Seq<u8> {
    vstd::utf8::encode_utf8(s)
}

/// No extra entry uses the key `k`.
pub open spec fn no_entry_keyed(entries: Seq<(String, Vec<u8>)>, k: Seq<u8>) -> bool {
    forall|i: int| 0 <= i < entries.len() ==> key_bytes_of(entries[i].0@) != k
}

/// No later entry re-binds the key of entry `i`.
pub open spec fn entry_key_unique_after(entries: Seq<(String, Vec<u8>)>, i: int) -> bool {
    forall|j: int|
        i < j < entries.len() ==> key_bytes_of(entries[j].0@) != key_bytes_of(entries[i].0@)
}

/// The routing-table key set after ingesting the boot nodes: the key of
/// each signed record, without duplicates.
pub open spec fn boot_table(nodes: Seq<BootNodeView>) -> Seq<Seq<u8>>
    decreases nodes.len(),
{
    if nodes.len() == 0 {
        Seq::empty()
    } else {
        let rest = boot_table(nodes.drop_last());
        match nodes.last() {
            BootNodeView::Enr(r) => key_insert(rest, r.pk),
            BootNodeView::Enode(_) => rest,
        }
    }
}

/// The record requests the boot phase issues: one per legacy boot node,
/// in order.
pub open spec fn boot_requests(nodes: Seq<BootNodeView>) -> Seq<Seq<char>>
    decreases nodes.len(),
{
    if nodes.len() == 0 {
        Seq::empty()
    } else {
        let rest = boot_requests(nodes.drop_last());
        match nodes.last() {
            BootNodeView::Enode(m) => rest.push(m),
            BootNodeView::Enr(_) => rest,
        }
    }
}

impl<T: FilterDiscovered> DiscV5<T> {
    /// Assembles the discovery handle from a configuration: builds the
    /// local record with the configured sockets, fork id and extra entries,
    /// seeds the routing-table key set with the signed boot nodes, and
    /// returns the record requests the caller is to issue for the legacy
    /// boot nodes, together with the local record in its legacy form.
    pub fn start(local_pk: Vec<u8>, fork_key: Vec<u8>, config: DiscV5Config, filter: T) -> (r:
        Result<(Self, Vec<String>, NodeRecord), Error>)
        requires
            config.other_enr_data@.len() + 3 <= u64::MAX,
            forall|i: int|
                0 <= i < config.other_enr_data@.len() ==> config.other_enr_data@[i].1@.len()
                    <= u64::MAX,
        ensures
            r is Ok,
            r matches Ok(t) ==> {
                &&& t.0.ip_mode == mode_of(config.discv5_listen)
                &&& (t.0.local.udp4, t.0.local.udp6, t.0.local.tcp4, t.0.local.tcp6)
                    == local_sockets_of(config.discv5_listen, config.tcp_port)
                &&& t.0.local_pk == local_pk
                &&& t.0.fork_id_key == fork_key
                &&& t.0.allow_no_tcp_discovered_nodes == config.allow_no_tcp_discovered_nodes
                &&& t.0.wf()
                &&& t.0.local.seq == 1 + (if config.fork_id is Some {
                    1int
                } else {
                    0int
                }) + config.other_enr_data@.len()
                &&& (config.fork_id matches Some(f) ==> (no_entry_keyed(
                    config.other_enr_data@,
                    fork_key@,
                ) ==> kv_lookup(t.0.local.kvs.deep_view(), fork_key@) == Option::Some(
                    enc_forkid(f),
                )))
                &&& (forall|i: int|
                    0 <= i < config.other_enr_data@.len() && entry_key_unique_after(
                        config.other_enr_data@,
                        i,
                    ) ==> kv_lookup(
                        t.0.local.kvs.deep_view(),
                        key_bytes_of(config.other_enr_data@[i].0@),
                    ) == Option::Some(enc_bytes(config.other_enr_data@[i].1@)))
                &&& t.0.table.deep_view() == boot_table(config.bootstrap_nodes.deep_view())
                &&& t.1.deep_view() == boot_requests(config.bootstrap_nodes.deep_view())
                &&& Option::Some((t.2.address, t.2.udp_port)) == t.0.ip_mode.spec_contactable(
                    t.0.local.udp4,
                    t.0.local.udp6,
                )
                &&& t.2.id@ == local_pk@
            },
    {
        let ghost entries = config.other_enr_data@;
        let ghost boots = config.bootstrap_nodes.deep_view();
        let (ip_mode, mut local) = match config.discv5_listen {
            ListenConfig::Ipv4 { ip, port } => (
                IpMode::Ip4,
                LocalRecord::new(
                    Some(SocketV4 { ip, port }),
                    None,
                    Some(config.tcp_port),
                    None,
                ),
            ),
            ListenConfig::Ipv6 { ip, port } => (
                IpMode::Ip6,
                LocalRecord::new(
                    None,
                    Some(SocketV6 { ip, port }),
                    None,
                    Some(config.tcp_port),
                ),
            ),
            ListenConfig::DualStack { ipv4, ipv4_port, ipv6, ipv6_port } => (
                IpMode::DualStack,
                LocalRecord::new(
                    Some(SocketV4 { ip: ipv4, port: ipv4_port }),
                    Some(SocketV6 { ip: ipv6, port: ipv6_port }),
                    Some(config.tcp_port),
                    None,
                ),
            ),
        };
        match config.fork_id {
            Option::Some(f) => {
                local.insert_kv(bytes_to_vec(fork_key.as_slice()), encode_forkid(&f));
            },
            Option::None => {},
        }
        let ghost base_seq = local.seq as int;
        let ghost kvs0 = local.kvs.deep_view();
        let ghost sockets0 = (local.udp4, local.udp6, local.tcp4, local.tcp6);
        let mut extra = config.other_enr_data;
        let ghost mut done: int = 0;
        proof {
            assert(extra@ =~= entries.subrange(0, entries.len() as int));
        }
        while extra.len() > 0
            invariant
                0 <= done <= entries.len(),
                entries.len() + 3 <= u64::MAX,
                forall|i: int| 0 <= i < entries.len() ==> entries[i].1@.len() <= u64::MAX,
                extra@ == entries.subrange(done, entries.len() as int),
                local.wf(),
                local.seq == base_seq + done,
                1 <= base_seq <= 2,
                (local.udp4, local.udp6, local.tcp4, local.tcp6) == sockets0,
                sockets0 == local_sockets_of(config.discv5_listen, config.tcp_port),
                ip_mode == mode_of(config.discv5_listen),
                forall|i: int|
                    0 <= i < done && (forall|j: int|
                        i < j < done ==> key_bytes_of(entries[j].0@) != key_bytes_of(
                            entries[i].0@,
                        )) ==> kv_lookup(local.kvs.deep_view(), key_bytes_of(entries[i].0@))
                        == Option::Some(enc_bytes(entries[i].1@)),
                forall|k: Seq<u8>|
                    (forall|i: int| 0 <= i < done ==> key_bytes_of(entries[i].0@) != k)
                        ==> kv_lookup(local.kvs.deep_view(), k) == kv_lookup(kvs0, k),
            decreases extra.len(),
        {
            let ghost extra0 = extra@;
            let (key, val) = extra.remove(0);
            proof {
                assert((key, val) == entries[done]);
                assert(extra@ =~= entries.subrange(done + 1, entries.len() as int));
            }
            let key_b = key.as_str().as_bytes_vec();
            let rlp = crate::rlp::encode_bytes(val.as_slice());
            let ghost kvs_before = local.kvs.deep_view();
            local.insert_kv(key_b, rlp);
            proof {
                done = done + 1;
                assert forall|i: int|
                    0 <= i < done && (forall|j: int|
                        i < j < done ==> key_bytes_of(entries[j].0@) != key_bytes_of(
                            entries[i].0@,
                        )) implies kv_lookup(local.kvs.deep_view(), key_bytes_of(entries[i].0@))
                    == Option::Some(enc_bytes(entries[i].1@)) by {
                    if i == done - 1 {
                    } else {
                        assert(key_bytes_of(entries[done - 1].0@) != key_bytes_of(entries[i].0@));
                    }
                }
            }
        }
        proof {
            assert(entries.subrange(done, entries.len() as int).len() == 0);
            assert(done == entries.len());
        }
        let mut table: Vec<Vec<u8>> = Vec::new();
        let mut requests: Vec<String> = Vec::new();
        let mut boot = config.bootstrap_nodes;
        let ghost mut bdone: int = 0;
        proof {
            assert(boot.deep_view() =~= boots.subrange(0, boots.len() as int));
            assert(table.deep_view() =~= Seq::<Seq<u8>>::empty());
            assert(requests.deep_view() =~= Seq::<Seq<char>>::empty());
            assert(boots.subrange(0, 0) =~= Seq::<BootNodeView>::empty());
        }
        while boot.len() > 0
            invariant
                0 <= bdone <= boots.len(),
                boot.deep_view() == boots.subrange(bdone, boots.len() as int),
                table.deep_view() == boot_table(boots.subrange(0, bdone)),
                requests.deep_view() == boot_requests(boots.subrange(0, bdone)),
            decreases boot.len(),
        {
            let ghost boot_dv0 = boot.deep_view();
            let ghost boot_s0 = boot@;
            let node = boot.remove(0);
            proof {
                assert(boot_dv0[0] == boot_s0[0].deep_view());
                assert(node@ == boot_dv0[0]);
                assert(boot_dv0 == boots.subrange(bdone, boots.len() as int));
                assert(boot_s0.len() > 0);
                assert(boot_dv0.len() == boot_s0.len());
                assert(bdone < boots.len());
                assert(boots.subrange(bdone, boots.len() as int)[0] == boots[bdone]);
                assert(node@ == boots[bdone]);
                assert(boot@ =~= boot_s0.subrange(1, boot_s0.len() as int));
                assert forall|j: int| 0 <= j < boot@.len() implies boot.deep_view()[j] == boot_dv0[j
                    + 1] by {
                    assert(boot.deep_view()[j] == boot@[j].deep_view());
                    assert(boot_dv0[j + 1] == boot_s0[j + 1].deep_view());
                }
                assert(boot.deep_view() =~= boots.subrange(bdone + 1, boots.len() as int));
                assert(boots.subrange(0, bdone + 1).drop_last() =~= boots.subrange(0, bdone));
                assert(boots.subrange(0, bdone + 1).last() == boots[bdone]);
            }
            match node {
                BootNode::Enr(rec) => {
                    key_list_insert(&mut table, rec.pk);
                },
                BootNode::Enode(m) => {
                    requests.push(m);
                    proof {
                        assert(requests.deep_view() =~~= boot_requests(
                            boots.subrange(0, bdone),
                        ).push(m@));
                    }
                },
            }
            proof {
                bdone = bdone + 1;
            }
        }
        proof {
            assert(boot.deep_view().len() == boot@.len());
            assert(boots.subrange(bdone, boots.len() as int).len() == 0);
            assert(bdone == boots.len());
            assert(boots.subrange(0, bdone) =~= boots);
        }
        let handle = DiscV5 {
            local_pk,
            local,
            table,
            banned_ids: Vec::new(),
            banned_ips: Vec::new(),
            ip_mode,
            fork_id_key: fork_key,
            allow_no_tcp_discovered_nodes: config.allow_no_tcp_discovered_nodes,
            filter_discovered_peer: filter,
        };
        proof {
            assert(handle.ip_mode.spec_contactable(handle.local.udp4, handle.local.udp6) is Some);
            assert(handle.wf());
        }
        let bc_record = handle.node_record();
        Ok((handle, requests, bc_record))
    }
}

} // verus!
