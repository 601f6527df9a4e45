//! Discovery configuration: listen sockets, boot nodes, local-record
//! extras, and the builder that collects them.
//!
//! Boot nodes arrive as comma-separated text in two formats: signed
//! records, and legacy URIs that are normalised to multiaddresses. Parsing
//! is a filter: each item stands alone, and a malformed item changes
//! nothing but its own absence from the boot set.

use vstd::prelude::*;
use vstd::string::StringSliceAdditionalSpecFns;

use crate::bytes_util::{split_bytes, split_on, trim_bytes, trim_of};
use crate::enode::{enode_item_multiaddr, enode_multiaddr};
use crate::records::{enr_parse_of, enr_record_eq, parse_signed_record, EnrRecord, EnrRecordView,
    IpV4, IpV6, SocketV4, SocketV6};
use crate::rlp::ForkId;

verus! {

/// Default advertised mempool port.
pub const DEFAULT_DISCOVERY_PORT: u16 = 30303;

/// Default interval in seconds between self-lookup queries.
pub const DEFAULT_SECONDS_SELF_LOOKUP_INTERVAL: u64 = 60;

/// A boot node: either a signed record, or a legacy URI already
/// normalised to its multiaddress text.
#[derive(Clone, Debug)]
pub enum BootNode {
    /// An unsigned node, kept as multiaddress text.
    Enode(String),
    /// A signed node record.
    Enr(EnrRecord),
}

/// Spec view of a boot node.
pub enum BootNodeView {
    /// Multiaddress text.
    Enode(Seq<char>),
    /// Signed record view.
    Enr(EnrRecordView),
}

impl View for BootNode {
    type V = BootNodeView;

    open spec fn view(&self) -> BootNodeView {
        match self {
            BootNode::Enode(s) => BootNodeView::Enode(s@),
            BootNode::Enr(r) => BootNodeView::Enr(r@),
        }
    }
}

impl DeepView for BootNode {
    type V = BootNodeView;

    open spec fn deep_view(&self) -> BootNodeView {
        self.view()
    }
}

/// Compares two boot nodes for equality of their views.
pub fn boot_node_eq(a: &BootNode, b: &BootNode) -> (r: bool)
    ensures
        r == (a@ == b@),
{
    match (a, b) {
        (BootNode::Enode(x), BootNode::Enode(y)) => <String as PartialEq>::eq(x, y),
        (BootNode::Enr(x), BootNode::Enr(y)) => enr_record_eq(x, y),
        _ => false,
    }
}

/// Set insertion: the sequence unchanged when the node is already there,
/// else the node appended.
pub open spec fn boot_insert(s: Seq<BootNodeView>, x: BootNodeView) -> Seq<BootNodeView> {
    if s.contains(x) {
        s
    } else {
        s.push(x)
    }
}

/// Inserts a boot node unless an equal one is already present.
fn insert_boot_node(nodes: &mut Vec<BootNode>, node: BootNode)
    ensures
        final(nodes).deep_view() == boot_insert(old(nodes).deep_view(), node@),
{
    let n = nodes.len();
    let mut i: usize = 0;
    while i < n
        invariant
            n == nodes.len(),
            *nodes == *old(nodes),
            i <= n,
            forall|j: int| 0 <= j < i ==> nodes.deep_view()[j] != node@,
        decreases n - i,
    {
        proof {
            assert(nodes.deep_view()[i as int] == nodes[i as int]@);
        }
        if boot_node_eq(&nodes[i], &node) {
            proof {
                assert(old(nodes).deep_view().contains(node@));
            }
            return;
        }
        i += 1;
    }
    proof {
        assert(!old(nodes).deep_view().contains(node@));
    }
    nodes.push(node);
    proof {
        assert(nodes.deep_view() =~= old(nodes).deep_view().push(node@));
    }
}

/// The boot set after inserting already-parsed records in order.
pub open spec fn boot_set_from_records(
    init: Seq<BootNodeView>,
    nodes: Seq<EnrRecordView>,
) -> Seq<BootNodeView>
    decreases nodes.len(),
{
    if nodes.len() == 0 {
        init
    } else {
        boot_insert(
            boot_set_from_records(init, nodes.drop_last()),
            BootNodeView::Enr(nodes.last()),
        )
    }
}

/// The boot set after ingesting signed-record items in order: each item is
/// trimmed and parsed on its own; the ones that parse are inserted, the
/// rest leave the set untouched.
pub open spec fn signed_boot_set(init: Seq<BootNodeView>, items: Seq<Seq<u8>>) -> Seq<BootNodeView>
    decreases items.len(),
{
    if items.len() == 0 {
        init
    } else {
        let rest = signed_boot_set(init, items.drop_last());
        match enr_parse_of(trim_of(items.last())) {
            Option::Some(rec) => boot_insert(rest, BootNodeView::Enr(rec)),
            Option::None => rest,
        }
    }
}

/// The boot set after ingesting legacy-URI items in order: the items whose
/// URI parses and whose key compresses are inserted as multiaddress text.
pub open spec fn enode_boot_set(init: Seq<BootNodeView>, items: Seq<Seq<u8>>) -> Seq<BootNodeView>
    decreases items.len(),
{
    if items.len() == 0 {
        init
    } else {
        let rest = enode_boot_set(init, items.drop_last());
        match enode_multiaddr(items.last()) {
            Option::Some(m) => boot_insert(rest, BootNodeView::Enode(m)),
            Option::None => rest,
        }
    }
}

/// A malformed item changes nothing: inserting one anywhere in a
/// signed-record list leaves the boot set exactly as without it.
pub proof fn lemma_boot_parse_robust(
    init: Seq<BootNodeView>,
    items: Seq<Seq<u8>>,
    bad: Seq<u8>,
    j: int,
)
    requires
        0 <= j <= items.len(),
        enr_parse_of(trim_of(bad)) is None,
    ensures
        signed_boot_set(init, items.insert(j, bad)) == signed_boot_set(init, items),
    decreases items.len(),
{
    let ins = items.insert(j, bad);
    if j == items.len() {
        assert(ins.last() == bad);
        assert(ins.drop_last() =~= items);
    } else {
        assert(ins.last() == items.last());
        assert(ins.drop_last() =~= items.drop_last().insert(j, bad));
        lemma_boot_parse_robust(init, items.drop_last(), bad, j);
    }
}

/// The discovery listen sockets.
#[derive(Clone, Copy, Debug, PartialEq, Eq, Structural)]
pub enum ListenConfig {
    /// One IPv4 socket.
    Ipv4 {
        /// Address.
        ip: IpV4,
        /// Port.
        port: u16,
    },
    /// One IPv6 socket.
    Ipv6 {
        /// Address.
        ip: IpV6,
        /// Port.
        port: u16,
    },
    /// Both, on separate ports.
    DualStack {
        /// IPv4 address.
        ipv4: IpV4,
        /// IPv4 port.
        ipv4_port: u16,
        /// IPv6 address.
        ipv6: IpV6,
        /// IPv6 port.
        ipv6_port: u16,
    },
}

/// A socket of either family.
#[derive(Clone, Copy, Debug, PartialEq, Eq, Structural)]
pub enum SocketAddress {
    /// IPv4 socket.
    V4(SocketV4),
    /// IPv6 socket.
    V6(SocketV6),
}

/// Builds a [`DiscV5Config`].
#[derive(Clone, Debug)]
pub struct DiscV5ConfigBuilder {
    /// Listen sockets for the discovery node.
    pub discv5_listen: Option<ListenConfig>,
    /// Nodes to boot from, kept without duplicates.
    pub bootstrap_nodes: Vec<BootNode>,
    /// Fork identifier to set in the local node record.
    pub fork_id: Option<ForkId>,
    /// Mempool port to advertise.
    pub tcp_port: Option<u16>,
    /// Additional key/value entries for the local node record.
    pub other_enr_data: Vec<(String, Vec<u8>)>,
    /// Allow discovered nodes without an advertised mempool port.
    pub allow_no_tcp_discovered_nodes: bool,
    /// Interval in seconds between self-lookup queries.
    pub self_lookup_interval: Option<u64>,
}

/// Configuration of the discovery node.
#[derive(Clone, Debug)]
pub struct DiscV5Config {
    /// Listen sockets for the discovery node.
    pub discv5_listen: ListenConfig,
    /// Nodes to boot from, kept without duplicates.
    pub bootstrap_nodes: Vec<BootNode>,
    /// Fork identifier to set in the local node record.
    pub fork_id: Option<ForkId>,
    /// Mempool port to advertise.
    pub tcp_port: u16,
    /// Additional key/value entries for the local node record.
    pub other_enr_data: Vec<(String, Vec<u8>)>,
    /// Allow discovered nodes without an advertised mempool port.
    pub allow_no_tcp_discovered_nodes: bool,
    /// Interval in seconds between self-lookup queries.
    pub self_lookup_interval: u64,
}

impl DiscV5ConfigBuilder {
    /// A builder with nothing set.
    pub fn new() -> (r: Self)
        ensures
            r.discv5_listen is None,
            r.bootstrap_nodes.deep_view() == Seq::<BootNodeView>::empty(),
            r.fork_id is None,
            r.tcp_port is None,
            r.other_enr_data@.len() == 0,
            !r.allow_no_tcp_discovered_nodes,
            r.self_lookup_interval is None,
    {
        let r = DiscV5ConfigBuilder {
            discv5_listen: None,
            bootstrap_nodes: Vec::new(),
            fork_id: None,
            tcp_port: None,
            other_enr_data: Vec::new(),
            allow_no_tcp_discovered_nodes: false,
            self_lookup_interval: None,
        };
        proof {
            assert(r.bootstrap_nodes.deep_view() =~= Seq::<BootNodeView>::empty());
        }
        r
    }

    /// A builder with every field taken from an existing configuration.
    pub fn new_from(discv5_config: DiscV5Config) -> (r: Self)
        ensures
            r.discv5_listen == Some(discv5_config.discv5_listen),
            r.bootstrap_nodes == discv5_config.bootstrap_nodes,
            r.fork_id == discv5_config.fork_id,
            r.tcp_port == Some(discv5_config.tcp_port),
            r.other_enr_data == discv5_config.other_enr_data,
            r.allow_no_tcp_discovered_nodes == discv5_config.allow_no_tcp_discovered_nodes,
            r.self_lookup_interval == Some(discv5_config.self_lookup_interval),
    {
        let DiscV5Config {
            discv5_listen,
            bootstrap_nodes,
            fork_id,
            tcp_port,
            other_enr_data,
            allow_no_tcp_discovered_nodes,
            self_lookup_interval,
        } = discv5_config;
        DiscV5ConfigBuilder {
            discv5_listen: Some(discv5_listen),
            bootstrap_nodes,
            fork_id,
            tcp_port: Some(tcp_port),
            other_enr_data,
            allow_no_tcp_discovered_nodes,
            self_lookup_interval: Some(self_lookup_interval),
        }
    }

    /// Sets the listen sockets.
    pub fn discv5_config(self, discv5_listen: ListenConfig) -> (r: Self)
        ensures
            r == (DiscV5ConfigBuilder { discv5_listen: Some(discv5_listen), ..self }),
    {
        DiscV5ConfigBuilder { discv5_listen: Some(discv5_listen), ..self }
    }

    /// Adds one signed boot node.
    pub fn add_boot_node(self, node: EnrRecord) -> (r: Self)
        ensures
            r.bootstrap_nodes.deep_view() == boot_insert(
                self.bootstrap_nodes.deep_view(),
                BootNodeView::Enr(node@),
            ),
            r.discv5_listen == self.discv5_listen,
            r.fork_id == self.fork_id,
            r.tcp_port == self.tcp_port,
            r.other_enr_data == self.other_enr_data,
            r.allow_no_tcp_discovered_nodes == self.allow_no_tcp_discovered_nodes,
            r.self_lookup_interval == self.self_lookup_interval,
    {
        let mut this = self;
        insert_boot_node(&mut this.bootstrap_nodes, BootNode::Enr(node));
        this
    }

    /// Adds several signed boot nodes in order.
    pub fn add_boot_nodes(self, nodes: Vec<EnrRecord>) -> (r: Self)
        ensures
            r.bootstrap_nodes.deep_view() == boot_set_from_records(
                self.bootstrap_nodes.deep_view(),
                nodes.deep_view(),
            ),
            r.discv5_listen == self.discv5_listen,
            r.fork_id == self.fork_id,
            r.tcp_port == self.tcp_port,
            r.other_enr_data == self.other_enr_data,
            r.allow_no_tcp_discovered_nodes == self.allow_no_tcp_discovered_nodes,
            r.self_lookup_interval == self.self_lookup_interval,
    {
        let ghost orig = nodes.deep_view();
        let mut this = self;
        let mut rem = nodes;
        let ghost mut done: int = 0;
        proof {
            assert(rem.deep_view() =~= orig.subrange(0, orig.len() as int));
            assert(orig.subrange(0, 0) =~= Seq::<EnrRecordView>::empty());
        }
        while rem.len() > 0
            invariant
                0 <= done <= orig.len(),
                rem.deep_view() == orig.subrange(done, orig.len() as int),
                this.bootstrap_nodes.deep_view() == boot_set_from_records(
                    self.bootstrap_nodes.deep_view(),
                    orig.subrange(0, done),
                ),
                this.discv5_listen == self.discv5_listen,
                this.fork_id == self.fork_id,
                this.tcp_port == self.tcp_port,
                this.other_enr_data == self.other_enr_data,
                this.allow_no_tcp_discovered_nodes == self.allow_no_tcp_discovered_nodes,
                this.self_lookup_interval == self.self_lookup_interval,
            decreases rem.len(),
        {
            let ghost rem_dv0 = rem.deep_view();
            let ghost rem_s0 = rem@;
            let node = rem.remove(0);
            proof {
                assert(rem_dv0 == orig.subrange(done, orig.len() as int));
                assert(rem_dv0[0] == rem_s0[0].deep_view());
                assert(node@ == rem_dv0[0]);
                assert(rem_s0.len() > 0);
                assert(rem_dv0.len() == rem_s0.len());
                assert(done < orig.len());
                assert(orig.subrange(done, orig.len() as int)[0] == orig[done]);
                assert(node@ == orig[done]);
                assert(rem@ =~= rem_s0.subrange(1, rem_s0.len() as int));
                assert forall|j: int| 0 <= j < rem@.len() implies rem.deep_view()[j] == rem_dv0[j
                    + 1] by {
                    assert(rem.deep_view()[j] == rem@[j].deep_view());
                    assert(rem_dv0[j + 1] == rem_s0[j + 1].deep_view());
                }
                assert(rem.deep_view() =~= orig.subrange(done + 1, orig.len() as int));
                assert(orig.subrange(0, done + 1).drop_last() =~= orig.subrange(0, done));
                assert(orig.subrange(0, done + 1).last() == orig[done]);
            }
            insert_boot_node(&mut this.bootstrap_nodes, BootNode::Enr(node));
            proof {
                done = done + 1;
            }
        }
        proof {
            assert(orig.subrange(0, done) =~= orig);
        }
        this
    }

    /// Parses a comma-separated list of signed records and adds every item
    /// that parses; malformed items are dropped and affect nothing else.
    pub fn add_serialized_boot_nodes(self, enrs: &str) -> (r: Self)
        ensures
            r.bootstrap_nodes.deep_view() == signed_boot_set(
                self.bootstrap_nodes.deep_view(),
                split_on(enrs.spec_bytes(), 0x2c),
            ),
            r.discv5_listen == self.discv5_listen,
            r.fork_id == self.fork_id,
            r.tcp_port == self.tcp_port,
            r.other_enr_data == self.other_enr_data,
            r.allow_no_tcp_discovered_nodes == self.allow_no_tcp_discovered_nodes,
            r.self_lookup_interval == self.self_lookup_interval,
    {
        let mut this = self;
        let bytes = enrs.as_bytes_vec();
        let items = split_bytes(bytes.as_slice(), 0x2c);
        let ghost all = split_on(enrs.spec_bytes(), 0x2c);
        let n = items.len();
        let mut i: usize = 0;
        proof {
            assert(all.subrange(0, 0) =~= Seq::<Seq<u8>>::empty());
        }
        while i < n
            invariant
                n == items.len(),
                i <= n,
                items.deep_view() == all,
                this.bootstrap_nodes.deep_view() == signed_boot_set(
                    self.bootstrap_nodes.deep_view(),
                    all.subrange(0, i as int),
                ),
                this.discv5_listen == self.discv5_listen,
                this.fork_id == self.fork_id,
                this.tcp_port == self.tcp_port,
                this.other_enr_data == self.other_enr_data,
                this.allow_no_tcp_discovered_nodes == self.allow_no_tcp_discovered_nodes,
                this.self_lookup_interval == self.self_lookup_interval,
            decreases n - i,
        {
            proof {
                assert(items.deep_view()[i as int] == items[i as int]@);
                assert(all.subrange(0, i + 1).drop_last() =~= all.subrange(0, i as int));
                assert(all.subrange(0, i + 1).last() == all[i as int]);
            }
            let trimmed = trim_bytes(items[i].as_slice());
            match parse_signed_record(trimmed.as_slice()) {
                Option::Some(rec) => {
                    insert_boot_node(&mut this.bootstrap_nodes, BootNode::Enr(rec));
                },
                Option::None => {},
            }
            i += 1;
        }
        proof {
            assert(all.subrange(0, n as int) =~= all);
        }
        this
    }

    /// Parses a comma-separated list of legacy URIs and adds each one that
    /// parses, normalised to its multiaddress text.
    pub fn add_enode_boot_nodes(self, enodes: &str) -> (r: Self)
        ensures
            r.bootstrap_nodes.deep_view() == enode_boot_set(
                self.bootstrap_nodes.deep_view(),
                split_on(enodes.spec_bytes(), 0x2c),
            ),
            r.discv5_listen == self.discv5_listen,
            r.fork_id == self.fork_id,
            r.tcp_port == self.tcp_port,
            r.other_enr_data == self.other_enr_data,
            r.allow_no_tcp_discovered_nodes == self.allow_no_tcp_discovered_nodes,
            r.self_lookup_interval == self.self_lookup_interval,
    {
        let mut this = self;
        let bytes = enodes.as_bytes_vec();
        let items = split_bytes(bytes.as_slice(), 0x2c);
        let ghost all = split_on(enodes.spec_bytes(), 0x2c);
        let n = items.len();
        let mut i: usize = 0;
        proof {
            assert(all.subrange(0, 0) =~= Seq::<Seq<u8>>::empty());
        }
        while i < n
            invariant
                n == items.len(),
                i <= n,
                items.deep_view() == all,
                this.bootstrap_nodes.deep_view() == enode_boot_set(
                    self.bootstrap_nodes.deep_view(),
                    all.subrange(0, i as int),
                ),
                this.discv5_listen == self.discv5_listen,
                this.fork_id == self.fork_id,
                this.tcp_port == self.tcp_port,
                this.other_enr_data == self.other_enr_data,
                this.allow_no_tcp_discovered_nodes == self.allow_no_tcp_discovered_nodes,
                this.self_lookup_interval == self.self_lookup_interval,
            decreases n - i,
        {
            proof {
                assert(items.deep_view()[i as int] == items[i as int]@);
                assert(all.subrange(0, i + 1).drop_last() =~= all.subrange(0, i as int));
                assert(all.subrange(0, i + 1).last() == all[i as int]);
            }
            match enode_item_multiaddr(items[i].as_slice()) {
                Option::Some(m) => {
                    insert_boot_node(&mut this.bootstrap_nodes, BootNode::Enode(m));
                },
                Option::None => {},
            }
            i += 1;
        }
        proof {
            assert(all.subrange(0, n as int) =~= all);
        }
        this
    }

    /// Sets the fork identifier for the local node record.
    pub fn fork_id(self, fork_id: ForkId) -> (r: Self)
        ensures
            r == (DiscV5ConfigBuilder { fork_id: Some(fork_id), ..self }),
    {
        DiscV5ConfigBuilder { fork_id: Some(fork_id), ..self }
    }

    /// Sets the mempool port to advertise.
    pub fn tcp_port(self, port: u16) -> (r: Self)
        ensures
            r == (DiscV5ConfigBuilder { tcp_port: Some(port), ..self }),
    {
        DiscV5ConfigBuilder { tcp_port: Some(port), ..self }
    }

    /// Adds one extra key/value entry for the local node record.
    pub fn add_enr_kv_pair(self, kv_pair: (String, Vec<u8>)) -> (r: Self)
        ensures
            r.other_enr_data@ == self.other_enr_data@.push(kv_pair),
            r.discv5_listen == self.discv5_listen,
            r.bootstrap_nodes == self.bootstrap_nodes,
            r.fork_id == self.fork_id,
            r.tcp_port == self.tcp_port,
            r.allow_no_tcp_discovered_nodes == self.allow_no_tcp_discovered_nodes,
            r.self_lookup_interval == self.self_lookup_interval,
    {
        let mut this = self;
        this.other_enr_data.push(kv_pair);
        this
    }

    /// Lets discovered nodes without an advertised mempool port through.
    pub fn allow_no_tcp_discovered_nodes(self) -> (r: Self)
        ensures
            r == (DiscV5ConfigBuilder { allow_no_tcp_discovered_nodes: true, ..self }),
    {
        DiscV5ConfigBuilder { allow_no_tcp_discovered_nodes: true, ..self }
    }

    /// Finishes the configuration, filling defaults: an all-zero IPv4
    /// listen socket, the default mempool port and lookup interval.
    pub fn build(self) -> (r: DiscV5Config)
        ensures
            r.discv5_listen == (match self.discv5_listen {
                Option::Some(l) => l,
                Option::None => ListenConfig::Ipv4 {
                    ip: IpV4 { b0: 0, b1: 0, b2: 0, b3: 0 },
                    port: 9000,
                },
            }),
            r.bootstrap_nodes == self.bootstrap_nodes,
            r.fork_id == self.fork_id,
            r.tcp_port == (match self.tcp_port {
                Option::Some(p) => p,
                Option::None => DEFAULT_DISCOVERY_PORT,
            }),
            r.other_enr_data == self.other_enr_data,
            r.allow_no_tcp_discovered_nodes == self.allow_no_tcp_discovered_nodes,
            r.self_lookup_interval == (match self.self_lookup_interval {
                Option::Some(v) => v,
                Option::None => DEFAULT_SECONDS_SELF_LOOKUP_INTERVAL,
            }),
    {
        let DiscV5ConfigBuilder {
            discv5_listen,
            bootstrap_nodes,
            fork_id,
            tcp_port,
            other_enr_data,
            allow_no_tcp_discovered_nodes,
            self_lookup_interval,
        } = self;
        let discv5_listen = match discv5_listen {
            Option::Some(l) => l,
            Option::None => ListenConfig::Ipv4 { ip: IpV4 { b0: 0, b1: 0, b2: 0, b3: 0 }, port: 9000 },
        };
        let tcp_port = match tcp_port {
            Option::Some(p) => p,
            Option::None => DEFAULT_DISCOVERY_PORT,
        };
        let self_lookup_interval = match self_lookup_interval {
            Option::Some(v) => v,
            Option::None => DEFAULT_SECONDS_SELF_LOOKUP_INTERVAL,
        };
        DiscV5Config {
            discv5_listen,
            bootstrap_nodes,
            fork_id,
            tcp_port,
            other_enr_data,
            allow_no_tcp_discovered_nodes,
            self_lookup_interval,
        }
    }
}

impl DiscV5Config {
    /// A fresh builder.
    pub fn builder() -> (r: DiscV5ConfigBuilder)
        ensures
            r.discv5_listen is None,
            r.bootstrap_nodes.deep_view() == Seq::<BootNodeView>::empty(),
            r.fork_id is None,
            r.tcp_port is None,
            r.other_enr_data@.len() == 0,
            !r.allow_no_tcp_discovered_nodes,
            r.self_lookup_interval is None,
    {
        DiscV5ConfigBuilder::new()
    }

    /// The discovery socket; the IPv6 one when both families are listening.
    pub fn socket(&self) -> (r: SocketAddress)
        ensures
            r == (match self.discv5_listen {
                ListenConfig::Ipv4 { ip, port } => SocketAddress::V4(SocketV4 { ip, port }),
                ListenConfig::Ipv6 { ip, port } => SocketAddress::V6(SocketV6 { ip, port }),
                ListenConfig::DualStack { ipv6, ipv6_port, .. } => SocketAddress::V6(
                    SocketV6 { ip: ipv6, port: ipv6_port },
                ),
            }),
    {
        match self.discv5_listen {
            ListenConfig::Ipv4 { ip, port } => SocketAddress::V4(SocketV4 { ip, port }),
            ListenConfig::Ipv6 { ip, port } => SocketAddress::V6(SocketV6 { ip, port }),
            ListenConfig::DualStack { ipv6, ipv6_port, .. } => SocketAddress::V6(
                SocketV6 { ip: ipv6, port: ipv6_port },
            ),
        }
    }
}

} // verus!
