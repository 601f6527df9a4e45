//! Running the legacy discovery beside the authoritative one: the legacy
//! table is a mirror that keeps only peers absent from the authoritative
//! routing table, and both update streams are merged into one.
//!
//! The mirror learns of authoritative-table changes through a change
//! notification. The merged stream fires that notification before it
//! yields the triggering event to its consumer, so a mirror poll that runs
//! in response observes the post-mutation key set.

use vstd::prelude::*;

use crate::config::{DiscV5Config, SocketAddress};
use crate::handle::{
    boot_requests, boot_table, entry_key_unique_after, key_insert, key_list_contains,
    key_list_insert, local_sockets_of, mode_of, no_entry_keyed, DiscV5, Error, FilterDiscovered,
    NodeRecord,
};
use crate::records::{kv_lookup, EnrRecord};
use crate::rlp::{enc_bytes, enc_forkid};

verus! {

/// An event of the authoritative discovery protocol.
pub enum V5Event {
    /// A session with the peer was established on the given socket.
    SessionEstablished(EnrRecord, SocketAddress),
    /// The peer entered the routing table, possibly displacing another.
    NodeInserted {
        /// Key of the inserted peer.
        node_id: Vec<u8>,
        /// Key of the displaced peer, if one left.
        replaced: Option<Vec<u8>>,
    },
    /// The peer left the routing table.
    NodeRemoved(Vec<u8>),
    /// A record was discovered during a query.
    Discovered(EnrRecord),
}

/// An update of the legacy discovery protocol.
pub enum V4Update {
    /// The peer entered the legacy table.
    Added(NodeRecord),
    /// The peer left the legacy table.
    Removed(Vec<u8>),
    /// A record was discovered during a query.
    Discovered(NodeRecord),
}

/// One update of the merged stream.
pub enum DiscoveryUpdate {
    /// From the authoritative protocol.
    V5(V5Event),
    /// From the legacy protocol.
    V4(V4Update),
}

/// Whether an event implies a routing-table mutation.
pub open spec fn spec_mutates_buckets(e: &V5Event) -> bool {
    match e {
        V5Event::SessionEstablished(..) => true,
        V5Event::NodeInserted { .. } => true,
        V5Event::NodeRemoved(..) => true,
        V5Event::Discovered(..) => false,
    }
}

/// Tells whether an event implies a routing-table mutation.
pub fn mutates_buckets(e: &V5Event) -> (r: bool)
    ensures
        r == spec_mutates_buckets(e),
{
    match e {
        V5Event::SessionEstablished(..) => true,
        V5Event::NodeInserted { .. } => true,
        V5Event::NodeRemoved(..) => true,
        V5Event::Discovered(..) => false,
    }
}

/// No key of `entries` occurs in `v5`.
pub open spec fn keys_disjoint(entries: Seq<Seq<u8>>, v5: Seq<Seq<u8>>) -> bool {
    forall|i: int| 0 <= i < entries.len() ==> !v5.contains(entries[i])
}

/// The entries whose key is not in `v5`, in order.
pub open spec fn keep_absent(entries: Seq<Seq<u8>>, v5: Seq<Seq<u8>>) -> Seq<Seq<u8>>
    decreases entries.len(),
{
    if entries.len() == 0 {
        Seq::empty()
    } else {
        let rest = keep_absent(entries.drop_last(), v5);
        if v5.contains(entries.last()) {
            rest
        } else {
            rest.push(entries.last())
        }
    }
}

/// The entries whose key is in `v5`, in order.
pub open spec fn take_present(entries: Seq<Seq<u8>>, v5: Seq<Seq<u8>>) -> Seq<Seq<u8>>
    decreases entries.len(),
{
    if entries.len() == 0 {
        Seq::empty()
    } else {
        let rest = take_present(entries.drop_last(), v5);
        if v5.contains(entries.last()) {
            rest.push(entries.last())
        } else {
            rest
        }
    }
}

/// What survives the eviction never meets the authoritative key set.
pub proof fn lemma_keep_absent_disjoint(entries: Seq<Seq<u8>>, v5: Seq<Seq<u8>>)
    ensures
        keys_disjoint(keep_absent(entries, v5), v5),
    decreases entries.len(),
{
    if entries.len() > 0 {
        lemma_keep_absent_disjoint(entries.drop_last(), v5);
        let rest = keep_absent(entries.drop_last(), v5);
        if !v5.contains(entries.last()) {
            assert forall|i: int|
                0 <= i < rest.push(entries.last()).len() implies !v5.contains(
                rest.push(entries.last())[i],
            ) by {
                if i < rest.len() {
                    assert(rest.push(entries.last())[i] == rest[i]);
                }
            }
        }
    }
}

/// The legacy mirror: the set of peer keys the legacy table holds. It
/// never holds a key that the authoritative table holds, up to one change
/// notification of delay.
pub struct V4Mirror {
    /// Keys currently in the legacy table.
    pub entries: Vec<Vec<u8>>,
}

impl V4Mirror {
    /// An empty mirror.
    pub fn new() -> (r: Self)
        ensures
            r.entries.deep_view() == Seq::<Seq<u8>>::empty(),
    {
        let r = V4Mirror { entries: Vec::new() };
        proof {
            assert(r.entries.deep_view() =~= Seq::<Seq<u8>>::empty());
        }
        r
    }

    /// Admits a candidate unless the authoritative table already knows its
    /// key; returns whether the mirror grew. Exclusivity is preserved.
    pub fn try_insert(&mut self, id: Vec<u8>, v5_keys: &Vec<Vec<u8>>) -> (r: bool)
        ensures
            final(self).entries.deep_view() == (if v5_keys.deep_view().contains(id@) {
                old(self).entries.deep_view()
            } else {
                key_insert(old(self).entries.deep_view(), id@)
            }),
            r == (!v5_keys.deep_view().contains(id@) && !old(self).entries.deep_view().contains(
                id@,
            )),
            keys_disjoint(old(self).entries.deep_view(), v5_keys.deep_view()) ==> keys_disjoint(
                final(self).entries.deep_view(),
                v5_keys.deep_view(),
            ),
    {
        if key_list_contains(v5_keys, id.as_slice()) {
            return false;
        }
        let grew = !key_list_contains(&self.entries, id.as_slice());
        key_list_insert(&mut self.entries, id);
        proof {
            if keys_disjoint(old(self).entries.deep_view(), v5_keys.deep_view()) {
                let news = self.entries.deep_view();
                let olds = old(self).entries.deep_view();
                assert forall|i: int| 0 <= i < news.len() implies !v5_keys.deep_view().contains(
                    news[i],
                ) by {
                    if i < olds.len() {
                        assert(news[i] == olds[i]);
                    }
                }
            }
        }
        grew
    }

    /// Evicts every key the authoritative table now holds and returns the
    /// evicted keys in order: afterwards the mirror holds no key that the
    /// authoritative table holds.
    pub fn on_v5_changed(&mut self, v5_keys: &Vec<Vec<u8>>) -> (removed: Vec<Vec<u8>>)
        ensures
            final(self).entries.deep_view() == keep_absent(
                old(self).entries.deep_view(),
                v5_keys.deep_view(),
            ),
            removed.deep_view() == take_present(old(self).entries.deep_view(), v5_keys.deep_view()),
            keys_disjoint(final(self).entries.deep_view(), v5_keys.deep_view()),
    {
        let ghost olds = self.entries.deep_view();
        let mut kept: Vec<Vec<u8>> = Vec::new();
        let mut removed: Vec<Vec<u8>> = Vec::new();
        let n = self.entries.len();
        let mut i: usize = 0;
        proof {
            assert(kept.deep_view() =~= Seq::<Seq<u8>>::empty());
            assert(removed.deep_view() =~= Seq::<Seq<u8>>::empty());
            assert(olds.subrange(0, 0) =~= Seq::<Seq<u8>>::empty());
        }
        while i < n
            invariant
                i <= n,
                n == self.entries.len(),
                self == old(self),
                olds == self.entries.deep_view(),
                kept.deep_view() == keep_absent(olds.subrange(0, i as int), v5_keys.deep_view()),
                removed.deep_view() == take_present(
                    olds.subrange(0, i as int),
                    v5_keys.deep_view(),
                ),
            decreases n - i,
        {
            let id = crate::bytes_util::bytes_to_vec(self.entries[i].as_slice());
            proof {
                assert(olds[i as int] == self.entries[i as int]@);
                assert(id@ == olds[i as int]);
                assert(olds.subrange(0, i + 1).drop_last() =~= olds.subrange(0, i as int));
                assert(olds.subrange(0, i + 1).last() == olds[i as int]);
            }
            if key_list_contains(v5_keys, id.as_slice()) {
                removed.push(id);
                proof {
                    assert(removed.deep_view() =~~= take_present(
                        olds.subrange(0, i as int),
                        v5_keys.deep_view(),
                    ).push(olds[i as int]));
                }
            } else {
                kept.push(id);
                proof {
                    assert(kept.deep_view() =~~= keep_absent(
                        olds.subrange(0, i as int),
                        v5_keys.deep_view(),
                    ).push(olds[i as int]));
                }
            }
            i += 1;
        }
        proof {
            assert(olds.subrange(0, n as int) =~= olds);
            lemma_keep_absent_disjoint(olds, v5_keys.deep_view());
        }
        self.entries = kept;
        removed
    }
}

/// The merged update stream: it interleaves both protocols' updates and
/// fires the change notification for every authoritative event that
/// mutates the routing table. The notification of a step is fired before
/// the step's update is yielded, so a mirror poll prompted by it observes
/// the post-mutation state; the counters say that no yielded mutation ever
/// outruns its notification.
pub struct MergedUpdateStream {
    /// Change notifications fired so far.
    pub notifications_sent: u64,
    /// Yielded authoritative events that mutate the routing table.
    pub v5_mutations_yielded: u64,
}

impl MergedUpdateStream {
    /// Every yielded mutation was preceded by its notification.
    pub open spec fn wf(&self) -> bool {
        self.notifications_sent == self.v5_mutations_yielded
    }

    /// A fresh merged stream: nothing yielded, nothing notified.
    pub fn merge_discovery_streams() -> (r: Self)
        ensures
            r.wf(),
            r.notifications_sent == 0,
    {
        MergedUpdateStream { notifications_sent: 0, v5_mutations_yielded: 0 }
    }

    /// Passes one raw update through: when the update is an authoritative
    /// event that mutates the routing table, the change notification is
    /// fired first (the returned flag), then the update is yielded
    /// unchanged. At every return the notification count has kept up with
    /// the yielded mutations.
    pub fn merge_step(&mut self, raw: DiscoveryUpdate) -> (r: (bool, DiscoveryUpdate))
        requires
            old(self).wf(),
            old(self).notifications_sent < u64::MAX,
        ensures
            final(self).wf(),
            r.1 == raw,
            r.0 == (raw matches DiscoveryUpdate::V5(e) && spec_mutates_buckets(&e)),
            r.0 ==> final(self).notifications_sent == old(self).notifications_sent + 1,
            !r.0 ==> final(self).notifications_sent == old(self).notifications_sent,
    {
        let fired = match &raw {
            DiscoveryUpdate::V5(e) => mutates_buckets(e),
            DiscoveryUpdate::V4(_) => false,
        };
        if fired {
            self.notifications_sent = self.notifications_sent + 1;
            self.v5_mutations_yielded = self.v5_mutations_yielded + 1;
        }
        (fired, raw)
    }
}

/// How many updates of a batch are authoritative events that mutate the
/// routing table.
pub open spec fn count_mutations(updates: Seq<DiscoveryUpdate>) -> int
    decreases updates.len(),
{
    if updates.len() == 0 {
        0
    } else {
        count_mutations(updates.drop_last()) + (match updates.last() {
            DiscoveryUpdate::V5(e) => if spec_mutates_buckets(&e) {
                1int
            } else {
                0int
            },
            DiscoveryUpdate::V4(_) => 0int,
        })
    }
}

/// Drains a batch of raw updates through the merged stream: every update
/// comes out unchanged and in order, and for every yielded authoritative
/// event that mutates the routing table the change notification was fired
/// within the same step, before the yield. The notification count grows by
/// exactly the number of such events.
pub fn drain_updates(stream: &mut MergedUpdateStream, updates: Vec<DiscoveryUpdate>) -> (out: Vec<
    (bool, DiscoveryUpdate),
>)
    requires
        old(stream).wf(),
        old(stream).notifications_sent + updates@.len() <= u64::MAX,
    ensures
        final(stream).wf(),
        out@.len() == updates@.len(),
        forall|i: int| 0 <= i < out@.len() ==> (#[trigger] out@[i]).1 == updates@[i],
        forall|i: int|
            0 <= i < out@.len() ==> (#[trigger] out@[i]).0 == (updates@[i] matches
                DiscoveryUpdate::V5(e) && spec_mutates_buckets(&e)),
        final(stream).notifications_sent == old(stream).notifications_sent + count_mutations(
            updates@,
        ),
{
    let ghost orig = updates@;
    let mut out: Vec<(bool, DiscoveryUpdate)> = Vec::new();
    let mut rest = updates;
    let ghost mut done: int = 0;
    proof {
        assert(rest@ =~= orig.subrange(0, orig.len() as int));
        assert(orig.subrange(0, 0) =~= Seq::<DiscoveryUpdate>::empty());
        lemma_count_mutations_bound(orig);
    }
    while rest.len() > 0
        invariant
            0 <= done <= orig.len(),
            rest@ == orig.subrange(done, orig.len() as int),
            out@.len() == done,
            forall|i: int| 0 <= i < done ==> (#[trigger] out@[i]).1 == orig[i],
            forall|i: int|
                0 <= i < done ==> (#[trigger] out@[i]).0 == (orig[i] matches
                    DiscoveryUpdate::V5(e) && spec_mutates_buckets(&e)),
            stream.wf(),
            stream.notifications_sent == old(stream).notifications_sent + count_mutations(
                orig.subrange(0, done),
            ),
            old(stream).notifications_sent + orig.len() <= u64::MAX,
            0 <= count_mutations(orig.subrange(0, done)) <= done,
        decreases rest.len(),
    {
        let ghost rest_s0 = rest@;
        let raw = rest.remove(0);
        proof {
            assert(raw == orig[done]);
            assert(rest@ =~= orig.subrange(done + 1, orig.len() as int));
            assert(orig.subrange(0, done + 1).drop_last() =~= orig.subrange(0, done));
            assert(orig.subrange(0, done + 1).last() == orig[done]);
            lemma_count_mutations_bound(orig.subrange(0, done + 1));
        }
        let step = stream.merge_step(raw);
        out.push(step);
        proof {
            done = done + 1;
        }
    }
    proof {
        assert(done == orig.len());
        assert(orig.subrange(0, done) =~= orig);
    }
    out
}

/// Runs the authoritative discovery beside the legacy one: assembles the
/// discovery handle, an empty legacy mirror that will only ever admit
/// peers the authoritative table does not hold, and the merged stream
/// that interleaves both protocols' updates; the caller's runtime issues
/// the returned record requests and feeds raw updates through the stream.
pub fn start_discv5_with_v4_downgrade<T: FilterDiscovered>(
    local_pk: Vec<u8>,
    fork_key: Vec<u8>,
    config: DiscV5Config,
    filter: T,
) -> (r: Result<(DiscV5<T>, V4Mirror, MergedUpdateStream, Vec<String>, NodeRecord), Error>)
    requires
        config.other_enr_data@.len() + 3 <= u64::MAX,
        forall|i: int|
            0 <= i < config.other_enr_data@.len() ==> config.other_enr_data@[i].1@.len()
                <= u64::MAX,
    ensures
        r is Ok,
        r matches Ok(t) ==> {
            &&& t.0.ip_mode == mode_of(config.discv5_listen)
            &&& (t.0.local.udp4, t.0.local.udp6, t.0.local.tcp4, t.0.local.tcp6)
                == local_sockets_of(config.discv5_listen, config.tcp_port)
            &&& t.0.local_pk == local_pk
            &&& t.0.fork_id_key == fork_key
            &&& t.0.allow_no_tcp_discovered_nodes == config.allow_no_tcp_discovered_nodes
            &&& t.0.wf()
            &&& t.0.local.seq == 1 + (if config.fork_id is Some {
                1int
            } else {
                0int
            }) + config.other_enr_data@.len()
            &&& (config.fork_id matches Some(f) ==> (no_entry_keyed(
                config.other_enr_data@,
                fork_key@,
            ) ==> kv_lookup(t.0.local.kvs.deep_view(), fork_key@) == Option::Some(
                enc_forkid(f),
            )))
            &&& (forall|i: int|
                0 <= i < config.other_enr_data@.len() && entry_key_unique_after(
                    config.other_enr_data@,
                    i,
                ) ==> kv_lookup(
                    t.0.local.kvs.deep_view(),
                    crate::handle::key_bytes_of(config.other_enr_data@[i].0@),
                ) == Option::Some(enc_bytes(config.other_enr_data@[i].1@)))
            &&& t.0.table.deep_view() == boot_table(config.bootstrap_nodes.deep_view())
            &&& t.3.deep_view() == boot_requests(config.bootstrap_nodes.deep_view())
            &&& Option::Some((t.4.address, t.4.udp_port)) == t.0.ip_mode.spec_contactable(
                t.0.local.udp4,
                t.0.local.udp6,
            )
            &&& t.4.id@ == local_pk@
            &&& t.1.entries.deep_view() == Seq::<Seq<u8>>::empty()
            &&& t.2.wf()
            &&& t.2.notifications_sent == 0
        },
{
    let (handle, requests, bc_record) = match DiscV5::start(local_pk, fork_key, config, filter) {
        Result::Ok(v) => v,
        Result::Err(e) => {
            proof {
                assert(false);
            }
            return Err(e);
        },
    };
    let mirror = V4Mirror::new();
    let stream = MergedUpdateStream::merge_discovery_streams();
    Ok((handle, mirror, stream, requests, bc_record))
}

/// A batch never holds more mutations than updates.
pub proof fn lemma_count_mutations_bound(updates: Seq<DiscoveryUpdate>)
    ensures
        0 <= count_mutations(updates) <= updates.len(),
    decreases updates.len(),
{
    if updates.len() > 0 {
        lemma_count_mutations_bound(updates.drop_last());
    }
}

} // verus!
