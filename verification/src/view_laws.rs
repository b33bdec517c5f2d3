//! Laws of the values that the contracts speak of: each holds all that the data it
//! stands for holds, in the same place and order.

use vstd::prelude::*;

use crate::assoc::{Key, KeyMap, KeySet};
use crate::auth::{SignedMessage, ValidSignatures};
use crate::behaviour::{BlossomSubBehaviour, PendingIwant};
use crate::blossomsub::BlossomSubRouter;
use crate::bytes::views;
use crate::error::{outcome, ErrorView, QuilError};
use crate::global_engine::{Credit, ShardPath, ShardWork};
use crate::global_steps::FilterPlan;
use crate::gossip::{ByteList, CompositeMeshEntry};
use crate::lifecycle::{ReasonView, ShutdownReason, Supervisor};
use crate::message_cache::{CachedMessage, MessageCache};
use crate::multiaddr::text_views;
use crate::node_plan::{option_text, option_views};
use crate::records::{GlobalValue, GlobalValueView, Record};
use crate::shard_info::{AppShards, PeerReach};
use crate::signer_registry::{SignerEntry, SignerRegistry};
use crate::state::{Change, HypergraphState};
use crate::token_ops::{TokenConfig, TransactionOutput};
use crate::wire::{BlossomSubEvent, Charge, ChargeView, EventView, OutRpc, OutView, WireMessage};

verus! {

/// A list of byte strings or texts is seen item by item.
pub proof fn law_lists_are_seen_whole(
    bs: Seq<Vec<u8>>,
    ts: Seq<String>,
    os: Seq<Option<Vec<u8>>>,
    i: int,
)
    ensures
        views(bs).len() == bs.len(),
        0 <= i < bs.len() ==> views(bs)[i] == bs[i]@,
        text_views(ts).len() == ts.len(),
        0 <= i < ts.len() ==> text_views(ts)[i] == ts[i]@,
        option_views(os).len() == os.len(),
        0 <= i < os.len() && os[i] is None ==> option_views(os)[i] is None,
        0 <= i < os.len() && os[i] is Some ==> option_views(os)[i] == Some(os[i]->Some_0@),
{
}

/// A text that may be missing is seen where it is there.
pub proof fn law_missing_texts_are_missing(t: String)
    ensures
        option_text(None) is None,
        option_text(Some(t)) == Some(t@),
{
}

/// A set is seen item by item, and a map entry by entry.
pub proof fn law_collections_are_seen_whole<K: Key, V: View>(s: KeySet<K>, m: KeyMap<K, V>, i: int)
    ensures
        s@.len() == s.items@.len(),
        0 <= i < s.items@.len() ==> s@[i] == s.items@[i]@,
        m@.len() == m.entries@.len(),
        0 <= i < m.entries@.len() ==> m@[i].0 == m.entries@[i].0@ && m@[i].1 == m.entries@[i].1@,
{
}

/// A message is seen with all that it carries.
pub proof fn law_messages_are_seen_whole(m: WireMessage, c: CachedMessage)
    ensures
        m@.from == m.from@,
        m@.data == m.data@,
        m@.seqno == m.seqno@,
        m@.bitmask == m.bitmask@,
        m@.signature == m.signature@,
        m@.key == m.key@,
        c@.bitmask == c.bitmask@,
        c@.data == c.data@,
        c@.from == c.from,
{
}

/// A packet to a peer is seen with all that it carries, item by item.
pub proof fn law_packets_are_seen_whole(
    bs: Vec<Vec<u8>>,
    ms: Vec<WireMessage>,
    b: Vec<u8>,
    backoff: u64,
    i: int,
)
    ensures
        OutRpc::Subscribe(bs)@ matches OutView::Subscribe(x) && x.len() == bs@.len() && (0 <= i
            < x.len() ==> x[i] == bs@[i]@),
        OutRpc::Publish(ms)@ matches OutView::Publish(x) && x.len() == ms@.len() && (0 <= i
            < x.len() ==> x[i] == ms@[i]@),
        OutRpc::Iwant(bs)@ matches OutView::Iwant(x) && x.len() == bs@.len() && (0 <= i < x.len()
            ==> x[i] == bs@[i]@),
        ({
            let v = (OutRpc::Ihave { bitmask: b, ids: bs })@;
            &&& v is Ihave
            &&& v->Ihave_bitmask == b@
            &&& v->ids.len() == bs@.len()
            &&& 0 <= i < bs@.len() ==> v->ids[i] == bs@[i]@
        }),
        OutRpc::Graft(b)@ == OutView::Graft(b@),
        (OutRpc::Prune { bitmask: b, backoff })@ == (OutView::Prune { bitmask: b@, backoff }),
{
}

/// An event is seen with all that it tells, and so is a charge.
pub proof fn law_events_are_seen_whole(
    peer: u64,
    connection: Option<u64>,
    b: Vec<u8>,
    m: WireMessage,
    rpc: OutRpc,
    subs: Vec<Vec<u8>>,
    n: usize,
    i: int,
)
    ensures
        (BlossomSubEvent::Message { propagation_source: peer, message_id: b, message: m })@ == (
        EventView::Message { propagation_source: peer, message_id: b@, message: m@ }),
        (BlossomSubEvent::Subscribed { peer_id: peer, bitmask: b })@ == (EventView::Subscribed {
            peer_id: peer,
            bitmask: b@,
        }),
        (BlossomSubEvent::Unsubscribed { peer_id: peer, bitmask: b })@ == (EventView::Unsubscribed {
            peer_id: peer,
            bitmask: b@,
        }),
        (BlossomSubEvent::Send { peer_id: peer, connection, rpc })@ == (EventView::Send {
            peer_id: peer,
            connection,
            rpc: rpc@,
        }),
        ({
            let v = (BlossomSubEvent::NeedPeers { subscriptions: subs, connected: n })@;
            &&& v is NeedPeers
            &&& v->connected == n
            &&& v->subscriptions.len() == subs@.len()
            &&& 0 <= i < subs@.len() ==> v->subscriptions[i] == subs@[i]@
        }),
        (Charge::Penalty { peer_id: peer })@ == (ChargeView::Penalty { peer_id: peer }),
        (Charge::Invalid { peer_id: peer, bitmask: b })@ == (ChargeView::Invalid {
            peer_id: peer,
            bitmask: b@,
        }),
{
}

/// The cache is seen with all its windows and messages.
pub proof fn law_cache_is_seen_whole(c: MessageCache, i: int, k: int)
    ensures
        c@.windows.len() == c.windows@.len(),
        0 <= i < c.windows@.len() ==> c@.windows[i].len() == c.windows@[i]@.len(),
        0 <= i < c.windows@.len() && 0 <= k < c.windows@[i]@.len() ==> c@.windows[i][k]
            == c.windows@[i]@[k]@,
        c@.messages == c.messages@,
        c@.history_length == c.history_length,
        c@.history_gossip == c.history_gossip,
{
}

/// A composite mesh is seen with its slices and both kinds of peers, and a wanted
/// message with all that is noted of it.
pub proof fn law_entries_are_seen_whole(e: CompositeMeshEntry, l: ByteList, p: PendingIwant, i: int)
    ensures
        e@.bitmask == e.bitmask@,
        e@.slices.len() == e.slices@.len(),
        0 <= i < e.slices@.len() ==> e@.slices[i] == e.slices@[i]@,
        e@.same == e.same@,
        e@.broker == e.broker@,
        l@.len() == l.items@.len(),
        0 <= i < l.items@.len() ==> l@[i] == l.items@[i]@,
        p@.asked == p.asked,
        p@.sent_at == p.sent_at,
        p@.other_advertisers == p.other_advertisers@,
        p@.bitmask == p.bitmask@,
{
}

/// The behaviour is seen with every part of its state.
pub proof fn law_behaviour_is_seen_whole(b: BlossomSubBehaviour, i: int)
    ensures
        b@.params == b.params,
        b@.subscriptions == b.subscriptions@,
        b@.peer_subscriptions == b.peer_subscriptions@,
        b@.connected_peers == b.connected_peers@,
        b@.mesh == b.mesh@,
        b@.events.len() == b.events@.len(),
        0 <= i < b.events@.len() ==> b@.events[i] == b.events@[i]@,
        b@.charges.len() == b.charges@.len(),
        0 <= i < b.charges@.len() ==> b@.charges[i] == b.charges@[i]@,
        b@.seen_messages == b.seen_messages@,
        b@.mcache == b.mcache@,
        b@.last_heartbeat == b.last_heartbeat,
        b.greeting is None ==> b@.greeting is None,
        b.greeting is Some ==> b@.greeting is Some && b@.greeting->Some_0.len()
            == b.greeting->Some_0@.len() && (0 <= i < b.greeting->Some_0@.len()
            ==> b@.greeting->Some_0[i] == b.greeting->Some_0@[i]@),
        b@.local_peer_id == b.local_peer_id@,
        b@.seqno_counter == b.seqno_counter,
        b@.blacklisted_peers == b.blacklisted_peers@,
        b@.fanout == b.fanout@,
        b@.fanout_last_pub == b.fanout_last_pub@,
        b@.backoffs == b.backoffs@,
        b@.outbound_peers == b.outbound_peers@,
        b@.heartbeat_ticks == b.heartbeat_ticks,
        b@.direct_peers == b.direct_peers@,
        b@.composites == b.composites@,
        b@.slice_to_composite == b.slice_to_composite@,
        b@.pending_iwants == b.pending_iwants@,
{
}

/// The router is seen with every part of its state.
pub proof fn law_router_is_seen_whole(r: BlossomSubRouter)
    ensures
        r@.peers == r.peers@,
        r@.peer_subscriptions == r.peer_subscriptions@,
        r@.direct == r.direct@,
        r@.mesh == r.mesh@,
        r@.fanout == r.fanout@,
        r@.composites == r.composites@,
        r@.slice_to_composite == r.slice_to_composite@,
        r@.last_pub == r.last_pub@,
        r@.backoff == r.backoff@,
        r@.outbound == r.outbound@,
        r@.mcache == r.mcache@,
{
}

/// An error is seen with its kind and its text, and a result as it is.
pub proof fn law_errors_are_seen_whole<T>(t: String, e: QuilError, v: T)
    ensures
        QuilError::InvalidArgument(t)@ == ErrorView::InvalidArgument(t@),
        QuilError::Internal(t)@ == ErrorView::Internal(t@),
        QuilError::Crypto(t)@ == ErrorView::Crypto(t@),
        QuilError::NotFound(t)@ == ErrorView::NotFound(t@),
        QuilError::P2p(t)@ == ErrorView::P2p(t@),
        outcome(Ok::<T, QuilError>(v)) == Ok::<T, ErrorView>(v),
        outcome(Err::<T, QuilError>(e)) == Err::<T, ErrorView>(e@),
{
}

/// A change of the state is seen with its place, its frame and its value, and the state
/// change by change.
pub proof fn law_state_is_seen_whole<T: View>(c: Change<T>, s: HypergraphState<T>, i: int)
    ensures
        c@.place.domain == c.domain@,
        c@.place.address == c.address@,
        c@.place.layer == c.layer,
        c@.frame_number == c.frame_number,
        c.value is None ==> c@.value is None,
        c.value is Some ==> c@.value == Some(c.value->Some_0@),
        s@.len() == s.changes@.len(),
        0 <= i < s.changes@.len() ==> s@[i] == s.changes@[i]@,
{
}

/// What a place of the global state holds is seen as it is.
pub proof fn law_values_are_seen_whole(r: Record, l: Vec<Vec<u8>>, i: int)
    ensures
        r@ == r.fields@,
        GlobalValue::Empty@ is Empty,
        GlobalValue::Fields(r)@ == GlobalValueView::Fields(r@),
        GlobalValue::Links(l)@ matches GlobalValueView::Links(x) && x.len() == l@.len() && (0 <= i
            < l@.len() ==> x[i] == l@[i]@),
{
}

/// What the global operations work on is seen with all its parts.
pub proof fn law_plans_are_seen_whole(c: Credit, p: FilterPlan, v: Vec<ShardPath>, i: int)
    ensures
        c@.participants == c.participants@,
        c@.state_size == c.state_size,
        c@.shard_count == c.shard_count,
        c@.world_size == c.world_size,
        p@.prover_address == p.prover_address@,
        p@.allocation_address == p.allocation_address@,
        p@.prover == p.prover@,
        p@.allocation == p.allocation@,
        ShardWork::Nothing@ is Nothing,
        ShardWork::Put(v)@ matches crate::global_engine::ShardWorkView::Put(x) && x.len()
            == v@.len() && (0 <= i < v@.len() ==> x[i].shard_key == v@[i].shard_key@ && x[i].path
            == v@[i].path@),
        ShardWork::Remove(v)@ matches crate::global_engine::ShardWorkView::Remove(x) && x.len()
            == v@.len() && (0 <= i < v@.len() ==> x[i].shard_key == v@[i].shard_key@ && x[i].path
            == v@[i].path@),
{
}

/// A signature, an output and a configuration are seen with all their parts.
pub proof fn law_token_parts_are_seen_whole(
    m: SignedMessage,
    v: ValidSignatures,
    o: TransactionOutput,
    c: TokenConfig,
    i: int,
)
    ensures
        m@.key == m.key@,
        m@.message == m.message@,
        m@.signature == m.signature@,
        v@.len() == v.items@.len(),
        0 <= i < v.items@.len() ==> v@[i] == v.items@[i]@,
        o@.frame_number == o.frame_number@,
        o@.commitment == o.commitment@,
        o@.recipient == o.recipient@,
        c@.behavior == c.behavior,
        c@.supply == c.supply@,
{
}

/// A binding of two keys is seen with all that was announced, and the registry under
/// both keys.
pub proof fn law_bindings_are_seen_whole(e: SignerEntry, r: SignerRegistry)
    ensures
        e@.ed448_pubkey == e.ed448_pubkey@,
        e@.bls_pubkey == e.bls_pubkey@,
        e@.identity_to_prover_sig == e.identity_to_prover_sig@,
        e@.prover_to_identity_sig == e.prover_to_identity_sig@,
        e@.last_updated_ms == e.last_updated_ms,
        r@.by_identity == r.by_identity@,
        r@.by_prover == r.by_prover@,
{
}

/// What a peer tells of a shard, and how it can be reached, is seen part by part.
pub proof fn law_peers_words_are_seen_whole(a: AppShards, p: PeerReach, i: int)
    ensures
        a@.len() == a.infos@.len(),
        0 <= i < a.infos@.len() ==> a@[i].prefix == a.infos@[i].prefix@ && a@[i].size
            == a.infos@[i].size@ && a@[i].data_shards == a.infos@[i].data_shards,
        p@.len() == p.reachability@.len(),
        0 <= i < p.reachability@.len() ==> p@[i] == p.reachability@[i]@,
{
}

/// The supervisor is seen with its tasks, and a reason to stop with its texts.
pub proof fn law_tasks_are_seen_whole(s: Supervisor, n: String, e: String)
    ensures
        s@.names == s.names@,
        s@.startup == s.startup@,
        ShutdownReason::CtrlC@ is CtrlC,
        ShutdownReason::TaskExited(n)@ == ReasonView::TaskExited(n@),
        ShutdownReason::TaskError(n, e)@ == ReasonView::TaskError(n@, e@),
        ShutdownReason::JoinError(n, e)@ == ReasonView::JoinError(n@, e@),
{
}

} // verus!
