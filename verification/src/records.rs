//! Node records: the model of a parsed signed record, and the local
//! record whose key/value entries the node advertises.
//!
//! A signed record arrives as base64 text. Parsing and signature checking
//! belong to the record crate; what this module keeps is the decoded view
//! the coordinator reads: sequence number, sockets, public key and the raw
//! key/value entries. The local record is this node's own: every mutation
//! of its entries bumps the sequence number, so peers can order updates.

use vstd::prelude::*;

use crate::bytes_util::bytes_eq;

verus! {

/// An IPv4 address as four octets.
#[derive(Clone, Copy, Debug, PartialEq, Eq, Structural)]
pub struct IpV4 {
    /// First octet.
    pub b0: u8,
    /// Second octet.
    pub b1: u8,
    /// Third octet.
    pub b2: u8,
    /// Fourth octet.
    pub b3: u8,
}

/// An IPv6 address as eight 16-bit groups.
#[derive(Clone, Copy, Debug, PartialEq, Eq, Structural)]
pub struct IpV6 {
    /// Groups, most significant first.
    pub g0: u16,
    /// Second group.
    pub g1: u16,
    /// Third group.
    pub g2: u16,
    /// Fourth group.
    pub g3: u16,
    /// Fifth group.
    pub g4: u16,
    /// Sixth group.
    pub g5: u16,
    /// Seventh group.
    pub g6: u16,
    /// Eighth group.
    pub g7: u16,
}

/// An IPv4 socket address.
#[derive(Clone, Copy, Debug, PartialEq, Eq, Structural)]
pub struct SocketV4 {
    /// Address.
    pub ip: IpV4,
    /// Port.
    pub port: u16,
}

/// An IPv6 socket address.
#[derive(Clone, Copy, Debug, PartialEq, Eq, Structural)]
pub struct SocketV6 {
    /// Address.
    pub ip: IpV6,
    /// Port.
    pub port: u16,
}

/// The decoded view of a signed node record: the entries the coordinator
/// reads, each under its own key in the record.
#[derive(Clone, Debug)]
pub struct EnrRecord {
    /// Sequence number of the record.
    pub seq: u64,
    /// Advertised IPv4 address.
    pub ip4: Option<IpV4>,
    /// Advertised IPv6 address.
    pub ip6: Option<IpV6>,
    /// Discovery port over IPv4.
    pub udp4: Option<u16>,
    /// Discovery port over IPv6.
    pub udp6: Option<u16>,
    /// Mempool port over IPv4.
    pub tcp4: Option<u16>,
    /// Mempool port over IPv6.
    pub tcp6: Option<u16>,
    /// The signing key: 64 uncompressed bytes for a secp256k1 record,
    /// 32 raw bytes for an ed25519 record.
    pub pk: Vec<u8>,
    /// Raw key/value entries, keys in sorted order, values as raw
    /// length-prefixed bytes.
    pub kvs: Vec<(Vec<u8>, Vec<u8>)>,
}

/// Spec view of a record: the same fields with byte sequences.
pub struct EnrRecordView {
    /// Sequence number.
    pub seq: u64,
    /// Advertised IPv4 address.
    pub ip4: Option<IpV4>,
    /// Advertised IPv6 address.
    pub ip6: Option<IpV6>,
    /// Discovery port over IPv4.
    pub udp4: Option<u16>,
    /// Discovery port over IPv6.
    pub udp6: Option<u16>,
    /// Mempool port over IPv4.
    pub tcp4: Option<u16>,
    /// Mempool port over IPv6.
    pub tcp6: Option<u16>,
    /// Signing key bytes.
    pub pk: Seq<u8>,
    /// Raw key/value entries.
    pub kvs: Seq<(Seq<u8>, Seq<u8>)>,
}

impl View for EnrRecord {
    type V = EnrRecordView;

    open spec fn view(&self) -> EnrRecordView {
        EnrRecordView {
            seq: self.seq,
            ip4: self.ip4,
            ip6: self.ip6,
            udp4: self.udp4,
            udp6: self.udp6,
            tcp4: self.tcp4,
            tcp6: self.tcp6,
            pk: self.pk@,
            kvs: self.kvs.deep_view(),
        }
    }
}

impl DeepView for EnrRecord {
    type V = EnrRecordView;

    open spec fn deep_view(&self) -> EnrRecordView {
        self.view()
    }
}

impl EnrRecord {
    /// The advertised IPv4 discovery socket, when both entries are set.
    pub open spec fn spec_udp4_socket(&self) -> Option<SocketV4> {
        match (self.ip4, self.udp4) {
            (Option::Some(ip), Option::Some(port)) => Option::Some(SocketV4 { ip, port }),
            _ => Option::None,
        }
    }

    /// The advertised IPv6 discovery socket, when both entries are set.
    pub open spec fn spec_udp6_socket(&self) -> Option<SocketV6> {
        match (self.ip6, self.udp6) {
            (Option::Some(ip), Option::Some(port)) => Option::Some(SocketV6 { ip, port }),
            _ => Option::None,
        }
    }

    /// Reads the advertised IPv4 discovery socket.
    pub fn udp4_socket(&self) -> (r: Option<SocketV4>)
        ensures
            r == self.spec_udp4_socket(),
    {
        match (self.ip4, self.udp4) {
            (Option::Some(ip), Option::Some(port)) => Some(SocketV4 { ip, port }),
            _ => None,
        }
    }

    /// Reads the advertised IPv6 discovery socket.
    pub fn udp6_socket(&self) -> (r: Option<SocketV6>)
        ensures
            r == self.spec_udp6_socket(),
    {
        match (self.ip6, self.udp6) {
            (Option::Some(ip), Option::Some(port)) => Some(SocketV6 { ip, port }),
            _ => None,
        }
    }
}

/// Compares two record views for equality, field by field.
pub fn enr_record_eq(a: &EnrRecord, b: &EnrRecord) -> (r: bool)
    ensures
        r == (a@ == b@),
{
    if a.seq != b.seq {
        return false;
    }
    if !(a.ip4 == b.ip4 && a.ip6 == b.ip6) {
        return false;
    }
    if !(a.udp4 == b.udp4 && a.udp6 == b.udp6 && a.tcp4 == b.tcp4 && a.tcp6 == b.tcp6) {
        return false;
    }
    if !bytes_eq(a.pk.as_slice(), b.pk.as_slice()) {
        return false;
    }
    let n = a.kvs.len();
    if n != b.kvs.len() {
        assert(a@.kvs.len() != b@.kvs.len());
        return false;
    }
    let mut i: usize = 0;
    while i < n
        invariant
            n == a.kvs.len() == b.kvs.len(),
            i <= n,
            forall|j: int| 0 <= j < i ==> a.kvs.deep_view()[j] == b.kvs.deep_view()[j],
        decreases n - i,
    {
        proof {
            assert(a.kvs.deep_view()[i as int] == (a.kvs[i as int].0@, a.kvs[i as int].1@));
            assert(b.kvs.deep_view()[i as int] == (b.kvs[i as int].0@, b.kvs[i as int].1@));
        }
        if !bytes_eq(a.kvs[i].0.as_slice(), b.kvs[i].0.as_slice()) {
            return false;
        }
        if !bytes_eq(a.kvs[i].1.as_slice(), b.kvs[i].1.as_slice()) {
            return false;
        }
        i += 1;
    }
    proof {
        assert(a@.kvs =~= b@.kvs);
    }
    true
}

/// What parsing a signed record text yields; a function of the text alone.
pub uninterp spec fn enr_parse_of(s: Seq<u8>) -> Option<EnrRecordView>;

/// Relies on the record crate's text decoding (`FromStr` of the
/// combined-key record type) and its `seq`, `udp4`, `udp6`, `tcp4` and
/// `tcp6` accessors: a record decodes exactly when the bytes are the text
/// of a valid signed record, and the ports are fixed entries of it.
#[verifier::external_body]
fn parse_enr_scalars(s: &[u8]) -> (r: Option<(u64, Option<u16>, Option<u16>, Option<u16>, Option<
    u16,
>)>)
    ensures
        match r {
            Option::Some(t) => enr_parse_of(s@) matches Some(v) && v.seq == t.0 && v.udp4 == t.1
                && v.udp6 == t.2 && v.tcp4 == t.3 && v.tcp6 == t.4,
            Option::None => enr_parse_of(s@) is None,
        },
{
    let e: enr::Enr<enr::CombinedKey> = core::str::from_utf8(s).ok()?.parse().ok()?;
    Some((e.seq(), e.udp4(), e.udp6(), e.tcp4(), e.tcp6()))
}

/// Relies on the record crate's text decoding and its `ip4` and `ip6`
/// accessors: the advertised addresses are fixed entries of the record.
#[verifier::external_body]
fn parse_enr_ips(s: &[u8]) -> (r: Option<(Option<[u8; 4]>, Option<[u16; 8]>)>)
    ensures
        match r {
            Option::Some(t) => enr_parse_of(s@) matches Some(v) && v.ip4 == ip4_of_octets(t.0)
                && v.ip6 == ip6_of_groups(t.1),
            Option::None => enr_parse_of(s@) is None,
        },
{
    let e: enr::Enr<enr::CombinedKey> = core::str::from_utf8(s).ok()?.parse().ok()?;
    Some((e.ip4().map(|i| i.octets()), e.ip6().map(|i| i.segments())))
}

/// Relies on the record crate's text decoding and `EnrPublicKey`'s
/// uncompressed encoding: the signing key is a fixed part of the record.
#[verifier::external_body]
fn parse_enr_key(s: &[u8]) -> (r: Option<Vec<u8>>)
    ensures
        match r {
            Option::Some(pk) => enr_parse_of(s@) matches Some(v) && v.pk == pk@,
            Option::None => enr_parse_of(s@) is None,
        },
{
    let e: enr::Enr<enr::CombinedKey> = core::str::from_utf8(s).ok()?.parse().ok()?;
    Some(enr::EnrPublicKey::encode_uncompressed(&e.public_key()))
}

/// Relies on the record crate's text decoding and its content iterator:
/// the key/value entries, keys sorted, values as raw coded bytes.
#[verifier::external_body]
fn parse_enr_kvs(s: &[u8]) -> (r: Option<Vec<(Vec<u8>, Vec<u8>)>>)
    ensures
        match r {
            Option::Some(kvs) => enr_parse_of(s@) matches Some(v) && v.kvs == kvs.deep_view(),
            Option::None => enr_parse_of(s@) is None,
        },
{
    let e: enr::Enr<enr::CombinedKey> = core::str::from_utf8(s).ok()?.parse().ok()?;
    Some(e.iter().map(|(k, v)| (k.clone(), v.to_vec())).collect())
}

/// The model address of four octets.
pub open spec fn ip4_of_octets(o: Option<[u8; 4]>) -> Option<IpV4> {
    match o {
        Option::Some(a) => Option::Some(IpV4 { b0: a[0], b1: a[1], b2: a[2], b3: a[3] }),
        Option::None => Option::None,
    }
}

/// The model address of eight groups.
pub open spec fn ip6_of_groups(g: Option<[u16; 8]>) -> Option<IpV6> {
    match g {
        Option::Some(a) => Option::Some(
            IpV6 {
                g0: a[0],
                g1: a[1],
                g2: a[2],
                g3: a[3],
                g4: a[4],
                g5: a[5],
                g6: a[6],
                g7: a[7],
            },
        ),
        Option::None => Option::None,
    }
}

/// Parses one signed-record text into its decoded view.
pub fn parse_signed_record(s: &[u8]) -> (r: Option<EnrRecord>)
    ensures
        match r {
            Option::Some(rec) => enr_parse_of(s@) == Option::Some(rec@),
            Option::None => enr_parse_of(s@) is None,
        },
{
    let scalars = match parse_enr_scalars(s) {
        Option::Some(t) => t,
        Option::None => {
            return None;
        },
    };
    let ips = match parse_enr_ips(s) {
        Option::Some(t) => t,
        Option::None => {
            proof {
                assert(false);
            }
            return None;
        },
    };
    let pk = match parse_enr_key(s) {
        Option::Some(t) => t,
        Option::None => {
            proof {
                assert(false);
            }
            return None;
        },
    };
    let kvs = match parse_enr_kvs(s) {
        Option::Some(t) => t,
        Option::None => {
            proof {
                assert(false);
            }
            return None;
        },
    };
    let ip4 = match ips.0 {
        Option::Some(a) => Some(IpV4 { b0: a[0], b1: a[1], b2: a[2], b3: a[3] }),
        Option::None => None,
    };
    let ip6 = match ips.1 {
        Option::Some(a) => Some(
            IpV6 {
                g0: a[0],
                g1: a[1],
                g2: a[2],
                g3: a[3],
                g4: a[4],
                g5: a[5],
                g6: a[6],
                g7: a[7],
            },
        ),
        Option::None => None,
    };
    let rec = EnrRecord {
        seq: scalars.0,
        ip4,
        ip6,
        udp4: scalars.1,
        udp6: scalars.2,
        tcp4: scalars.3,
        tcp6: scalars.4,
        pk,
        kvs,
    };
    proof {
        let v = enr_parse_of(s@).unwrap();
        assert(rec@.kvs =~~= v.kvs);
        assert(rec@ == v);
    }
    Some(rec)
}

/// First value bound to `key` in a key/value sequence.
pub open spec fn kv_lookup(kvs: Seq<(Seq<u8>, Seq<u8>)>, key: Seq<u8>) -> Option<Seq<u8>>
    decreases kvs.len(),
{
    if kvs.len() == 0 {
        None
    } else if kvs[0].0 == key {
        Some(kvs[0].1)
    } else {
        kv_lookup(kvs.drop_first(), key)
    }
}

/// Looks `key` up among raw key/value entries.
pub fn kv_get<'a>(kvs: &'a Vec<(Vec<u8>, Vec<u8>)>, key: &[u8]) -> (r: Option<&'a Vec<u8>>)
    ensures
        match r {
            Option::Some(v) => kv_lookup(kvs.deep_view(), key@) == Option::Some(v@),
            Option::None => kv_lookup(kvs.deep_view(), key@) is None,
        },
{
    let n = kvs.len();
    let mut i: usize = 0;
    proof {
        assert(kvs.deep_view().skip(0) =~= kvs.deep_view());
    }
    while i < n
        invariant
            n == kvs.len(),
            i <= n,
            kv_lookup(kvs.deep_view(), key@) == kv_lookup(kvs.deep_view().skip(i as int), key@),
        decreases n - i,
    {
        proof {
            assert(kvs.deep_view().skip(i as int)[0] == (kvs[i as int].0@, kvs[i as int].1@));
        }
        if bytes_eq(kvs[i].0.as_slice(), key) {
            return Some(&kvs[i].1);
        }
        proof {
            assert(kvs.deep_view().skip(i as int).drop_first() =~= kvs.deep_view().skip(i + 1));
        }
        i += 1;
    }
    proof {
        assert(kvs.deep_view().skip(n as int) =~= Seq::<(Seq<u8>, Seq<u8>)>::empty());
    }
    None
}

/// The local node record: advertised sockets and key/value entries,
/// re-signed with a fresh sequence number on every mutation.
#[derive(Clone, Debug)]
pub struct LocalRecord {
    /// Current sequence number; strictly increases with each mutation.
    pub seq: u64,
    /// Advertised IPv4 discovery socket.
    pub udp4: Option<SocketV4>,
    /// Advertised IPv6 discovery socket.
    pub udp6: Option<SocketV6>,
    /// Advertised IPv4 mempool port.
    pub tcp4: Option<u16>,
    /// Advertised IPv6 mempool port.
    pub tcp6: Option<u16>,
    /// Key/value entries, values as raw length-prefixed bytes.
    pub kvs: Vec<(Vec<u8>, Vec<u8>)>,
}

impl LocalRecord {
    /// Distinct keys: no key occurs twice.
    pub open spec fn wf(&self) -> bool {
        forall|i: int, j: int|
            0 <= i < j < self.kvs.len() ==> self.kvs.deep_view()[i].0 != self.kvs.deep_view()[j].0
    }

    /// A fresh record at sequence number one, with no entries.
    pub fn new(
        udp4: Option<SocketV4>,
        udp6: Option<SocketV6>,
        tcp4: Option<u16>,
        tcp6: Option<u16>,
    ) -> (r: Self)
        ensures
            r.wf(),
            r.seq == 1,
            r.udp4 == udp4,
            r.udp6 == udp6,
            r.tcp4 == tcp4,
            r.tcp6 == tcp6,
            r.kvs.deep_view() == Seq::<(Seq<u8>, Seq<u8>)>::empty(),
    {
        let r = LocalRecord { seq: 1, udp4, udp6, tcp4, tcp6, kvs: Vec::new() };
        proof {
            assert(r.kvs.deep_view() =~= Seq::<(Seq<u8>, Seq<u8>)>::empty());
        }
        r
    }

    /// Binds `key` to the raw value `raw`, replacing any previous binding,
    /// and bumps the sequence number: the record's readers see a strictly
    /// newer version after every mutation.
    pub fn insert_kv(&mut self, key: Vec<u8>, raw: Vec<u8>)
        requires
            old(self).wf(),
            old(self).seq < u64::MAX,
        ensures
            final(self).wf(),
            final(self).seq == old(self).seq + 1,
            kv_lookup(final(self).kvs.deep_view(), key@) == Option::Some(raw@),
            forall|k: Seq<u8>|
                k != key@ ==> kv_lookup(final(self).kvs.deep_view(), k) == kv_lookup(
                    old(self).kvs.deep_view(),
                    k,
                ),
            final(self).udp4 == old(self).udp4,
            final(self).udp6 == old(self).udp6,
            final(self).tcp4 == old(self).tcp4,
            final(self).tcp6 == old(self).tcp6,
    {
        let n = self.kvs.len();
        let mut i: usize = 0;
        while i < n
            invariant
                n == self.kvs.len(),
                i <= n,
                self == old(self),
                self.seq < u64::MAX,
                old(self).wf(),
                forall|j: int| 0 <= j < i ==> self.kvs.deep_view()[j].0 != key@,
            decreases n - i,
        {
            proof {
                assert(self.kvs.deep_view()[i as int].0 == self.kvs[i as int].0@);
            }
            if bytes_eq(self.kvs[i].0.as_slice(), key.as_slice()) {
                self.kvs.set(i, (key, raw));
                self.seq = self.seq + 1;
                proof {
                    assert(self.kvs.deep_view()[i as int] == (key@, raw@));
                    assert forall|j: int|
                        0 <= j < old(self).kvs.deep_view().len() && j != i implies self.kvs.deep_view()[j]
                        == old(self).kvs.deep_view()[j] by {
                        assert(self.kvs@[j] == old(self).kvs@[j]);
                    }
                    lemma_kv_update(old(self).kvs.deep_view(), self.kvs.deep_view(), i as int, key@, raw@);
                }
                return;
            }
            i += 1;
        }
        self.kvs.push((key, raw));
        self.seq = self.seq + 1;
        proof {
            assert(self.kvs.deep_view() =~~= old(self).kvs.deep_view().push((key@, raw@)));
            lemma_kv_append(old(self).kvs.deep_view(), key@, raw@);
        }
    }
}

/// Replacing the entry at the position holding `key` rebinds exactly `key`.
proof fn lemma_kv_update(
    olds: Seq<(Seq<u8>, Seq<u8>)>,
    news: Seq<(Seq<u8>, Seq<u8>)>,
    at: int,
    key: Seq<u8>,
    raw: Seq<u8>,
)
    requires
        0 <= at < olds.len(),
        news.len() == olds.len(),
        olds[at].0 == key,
        news[at] == (key, raw),
        forall|j: int| 0 <= j < olds.len() && j != at ==> news[j] == olds[j],
        forall|j: int| 0 <= j < at ==> olds[j].0 != key,
        forall|i: int, j: int| 0 <= i < j < olds.len() ==> olds[i].0 != olds[j].0,
    ensures
        kv_lookup(news, key) == Option::Some(raw),
        forall|k: Seq<u8>| k != key ==> kv_lookup(news, k) == kv_lookup(olds, k),
        forall|i: int, j: int| 0 <= i < j < news.len() ==> news[i].0 != news[j].0,
    decreases olds.len(),
{
    assert forall|j: int| 0 <= j < news.len() implies news[j].0 == olds[j].0 by {
        if j != at {
            assert(news[j] == olds[j]);
        }
    }
    if at == 0 {
        assert(news[0] == (key, raw));
        assert forall|k: Seq<u8>| k != key implies kv_lookup(news, k) == kv_lookup(olds, k) by {
            assert(news.drop_first() =~= olds.drop_first());
        }
    } else {
        assert(news.drop_first().len() == olds.drop_first().len());
        assert(olds.drop_first()[at - 1].0 == key);
        assert(news.drop_first()[at - 1] == (key, raw));
        assert forall|j: int|
            0 <= j < olds.drop_first().len() && j != at - 1 implies news.drop_first()[j]
            == olds.drop_first()[j] by {
            assert(news[j + 1] == olds[j + 1]);
        }
        lemma_kv_update(olds.drop_first(), news.drop_first(), at - 1, key, raw);
        assert(news[0] == olds[0]);
        assert(olds[0].0 != key);
        assert(kv_lookup(news, key) == Option::Some(raw));
        assert forall|k: Seq<u8>| k != key implies kv_lookup(news, k) == kv_lookup(olds, k) by {
            assert(kv_lookup(news, k) == if news[0].0 == k {
                Option::Some(news[0].1)
            } else {
                kv_lookup(news.drop_first(), k)
            });
            assert(kv_lookup(olds, k) == if olds[0].0 == k {
                Option::Some(olds[0].1)
            } else {
                kv_lookup(olds.drop_first(), k)
            });
        }
    }
}

/// Appending a binding for an absent key binds exactly that key.
proof fn lemma_kv_append(olds: Seq<(Seq<u8>, Seq<u8>)>, key: Seq<u8>, raw: Seq<u8>)
    requires
        forall|j: int| 0 <= j < olds.len() ==> olds[j].0 != key,
    ensures
        kv_lookup(olds.push((key, raw)), key) == Option::Some(raw),
        forall|k: Seq<u8>| k != key ==> kv_lookup(olds.push((key, raw)), k) == kv_lookup(olds, k),
    decreases olds.len(),
{
    let news = olds.push((key, raw));
    if olds.len() == 0 {
        assert(news[0] == (key, raw));
        assert forall|k: Seq<u8>| k != key implies kv_lookup(news, k) == kv_lookup(olds, k) by {
            assert(news.drop_first() =~= Seq::<(Seq<u8>, Seq<u8>)>::empty());
            assert(kv_lookup(news, k) == kv_lookup(news.drop_first(), k));
            assert(kv_lookup(news.drop_first(), k) is None);
            assert(kv_lookup(olds, k) is None);
        }
    } else {
        lemma_kv_append(olds.drop_first(), key, raw);
        assert(news.drop_first() =~= olds.drop_first().push((key, raw)));
        assert(news[0] == olds[0]);
        assert(kv_lookup(news, key) == kv_lookup(news.drop_first(), key));
        assert forall|k: Seq<u8>| k != key implies kv_lookup(news, k) == kv_lookup(olds, k) by {
            assert(kv_lookup(news, k) == if news[0].0 == k {
                Option::Some(news[0].1)
            } else {
                kv_lookup(news.drop_first(), k)
            });
            assert(kv_lookup(olds, k) == if olds[0].0 == k {
                Option::Some(olds[0].1)
            } else {
                kv_lookup(olds.drop_first(), k)
            });
        }
    }
}

} // verus!
