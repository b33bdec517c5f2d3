//! The gossip behaviour: what the router does with the packets of its peers.
//!
//! Packets, scores and the time come from the network layer around it. What the
//! router wants done is queued as events, and what it holds against a peer as
//! charges.

use vstd::prelude::*;

use crate::assoc::{value_of, value_or, with_value, without_item, without_key, KeyMap, KeySet};
use crate::bytes::{copy_bytes, views};
use crate::gossip::{
    Backoffs, BackoffsView, ByteList, CompositeMeshEntry, CompositeView, PeerSubscriptions,
    SubsView,
};
use crate::message_cache::{CacheView, CachedView, MessageCache};
use crate::wire::{
    charge_views, event_views, BlossomSubEvent, Charge, ChargeView, EventView, Incoming, OutRpc,
    OutView, SubOpts, ValidationResult, WireMessage, WireView,
};

verus! {

/// How many bitmasks a peer may subscribe to.
pub const MAX_SUBSCRIPTIONS_PER_PEER: usize = 256;

/// How many other advertisers are remembered for a wanted message.
pub const MAX_OTHER_ADVERTISERS: usize = 8;

/// How many messages may be wanted at a time.
pub const MAX_PENDING_IWANTS: usize = 5000;

/// The mesh and gossip parameters. Times are in one unit throughout.
#[derive(Clone, Copy, Debug)]
pub struct BlossomsubParams {
    pub d: usize,
    pub d_lo: usize,
    pub d_hi: usize,
    pub d_score: usize,
    pub d_lazy: usize,
    pub prune_backoff: u64,
    pub fanout_ttl: u64,
    pub iwant_followup_time: u64,
    pub heartbeat_interval: u64,
    pub history_length: usize,
    pub history_gossip: usize,
    /// The score from which a peer is gossiped with.
    pub gossip_threshold: i64,
    /// The median score below which better peers are grafted.
    pub opportunistic_graft_threshold: i64,
}

/// A message that was asked for and has not come yet.
pub struct PendingIwant {
    /// The peer that was asked.
    pub asked: u64,
    pub sent_at: u64,
    /// Other peers that announced the message.
    pub other_advertisers: KeySet<u64>,
    pub bitmask: Vec<u8>,
}

/// The mathematical value of a [`PendingIwant`].
pub struct PendingView {
    pub asked: u64,
    pub sent_at: u64,
    pub other_advertisers: Seq<u64>,
    pub bitmask: Seq<u8>,
}

impl View for PendingIwant {
    type V = PendingView;

    open spec fn view(&self) -> PendingView {
        PendingView {
            asked: self.asked,
            sent_at: self.sent_at,
            other_advertisers: self.other_advertisers@,
            bitmask: self.bitmask@,
        }
    }
}

/// Whether a peer of a composite mesh subscribes to all of its slices.
#[derive(Clone, Copy, Debug, PartialEq, Eq, Structural)]
pub enum PeerClass {
    Same,
    Broker,
}

/// The gossip behaviour.
pub struct BlossomSubBehaviour {
    pub params: BlossomsubParams,
    pub subscriptions: KeySet<Vec<u8>>,
    pub peer_subscriptions: PeerSubscriptions,
    /// The connections to each connected peer, oldest first.
    pub connected_peers: KeyMap<u64, KeySet<u64>>,
    pub mesh: KeyMap<Vec<u8>, KeySet<u64>>,
    pub events: Vec<BlossomSubEvent>,
    pub charges: Vec<Charge>,
    pub seen_messages: KeySet<Vec<u8>>,
    pub mcache: MessageCache,
    pub last_heartbeat: u64,
    /// The subscriptions that a new connection is greeted with.
    pub greeting: Option<Vec<Vec<u8>>>,
    /// The own peer identifier's bytes, where messages are signed.
    pub local_peer_id: Vec<u8>,
    pub seqno_counter: u64,
    pub blacklisted_peers: KeySet<u64>,
    pub fanout: KeyMap<Vec<u8>, KeySet<u64>>,
    pub fanout_last_pub: KeyMap<Vec<u8>, u64>,
    pub backoffs: Backoffs,
    pub outbound_peers: KeyMap<Vec<u8>, KeySet<u64>>,
    pub heartbeat_ticks: u64,
    pub direct_peers: KeySet<u64>,
    pub composites: KeyMap<Vec<u8>, CompositeMeshEntry>,
    pub slice_to_composite: KeyMap<Vec<u8>, ByteList>,
    pub pending_iwants: KeyMap<Vec<u8>, PendingIwant>,
}

/// The mathematical value of a [`BlossomSubBehaviour`].
#[verifier::ext_equal]
pub struct BehaviourView {
    pub params: BlossomsubParams,
    pub subscriptions: Seq<Seq<u8>>,
    pub peer_subscriptions: SubsView,
    pub connected_peers: Seq<(u64, Seq<u64>)>,
    pub mesh: Seq<(Seq<u8>, Seq<u64>)>,
    pub events: Seq<EventView>,
    pub charges: Seq<ChargeView>,
    pub seen_messages: Seq<Seq<u8>>,
    pub mcache: CacheView,
    pub last_heartbeat: u64,
    pub greeting: Option<Seq<Seq<u8>>>,
    pub local_peer_id: Seq<u8>,
    pub seqno_counter: u64,
    pub blacklisted_peers: Seq<u64>,
    pub fanout: Seq<(Seq<u8>, Seq<u64>)>,
    pub fanout_last_pub: Seq<(Seq<u8>, u64)>,
    pub backoffs: BackoffsView,
    pub outbound_peers: Seq<(Seq<u8>, Seq<u64>)>,
    pub heartbeat_ticks: u64,
    pub direct_peers: Seq<u64>,
    pub composites: Seq<(Seq<u8>, CompositeView)>,
    pub slice_to_composite: Seq<(Seq<u8>, Seq<Seq<u8>>)>,
    pub pending_iwants: Seq<(Seq<u8>, PendingView)>,
}

impl View for BlossomSubBehaviour {
    type V = BehaviourView;

    open spec fn view(&self) -> BehaviourView {
        BehaviourView {
            params: self.params,
            subscriptions: self.subscriptions@,
            peer_subscriptions: self.peer_subscriptions@,
            connected_peers: self.connected_peers@,
            mesh: self.mesh@,
            events: event_views(self.events@),
            charges: charge_views(self.charges@),
            seen_messages: self.seen_messages@,
            mcache: self.mcache@,
            last_heartbeat: self.last_heartbeat,
            greeting: match self.greeting {
                Some(g) => Some(views(g@)),
                None => None,
            },
            local_peer_id: self.local_peer_id@,
            seqno_counter: self.seqno_counter,
            blacklisted_peers: self.blacklisted_peers@,
            fanout: self.fanout@,
            fanout_last_pub: self.fanout_last_pub@,
            backoffs: self.backoffs@,
            outbound_peers: self.outbound_peers@,
            heartbeat_ticks: self.heartbeat_ticks,
            direct_peers: self.direct_peers@,
            composites: self.composites@,
            slice_to_composite: self.slice_to_composite@,
            pending_iwants: self.pending_iwants@,
        }
    }
}

impl BehaviourView {
    /// The same state with one more event.
    pub open spec fn emit(self, e: EventView) -> BehaviourView {
        BehaviourView { events: self.events.push(e), ..self }
    }

    /// The same state with one more charge.
    pub open spec fn charge(self, c: ChargeView) -> BehaviourView {
        BehaviourView { charges: self.charges.push(c), ..self }
    }
}

/// The connection that a packet to the peer goes over: its oldest.
pub open spec fn connection_of(connected: Seq<(u64, Seq<u64>)>, peer: u64) -> Option<u64> {
    match value_of(connected, peer) {
        Some(cs) => if cs.len() > 0 {
            Some(cs[0])
        } else {
            None
        },
        None => None,
    }
}

/// A change of a peer's subscriptions. One more than the cap is refused, and the
/// peer is charged.
pub open spec fn after_subscription(v: BehaviourView, peer: u64, subscribe: bool, bitmask: Seq<u8>) -> BehaviourView {
    let subs = value_or(v.peer_subscriptions, peer, Seq::empty());
    let known = BehaviourView {
        peer_subscriptions: with_value(v.peer_subscriptions, peer, subs),
        ..v
    };
    if subscribe {
        if subs.contains(bitmask) {
            known
        } else if subs.len() >= MAX_SUBSCRIPTIONS_PER_PEER {
            known.charge(ChargeView::Penalty { peer_id: peer })
        } else {
            BehaviourView {
                peer_subscriptions: with_value(v.peer_subscriptions, peer, subs.push(bitmask)),
                ..v
            }.emit(EventView::Subscribed { peer_id: peer, bitmask })
        }
    } else if subs.contains(bitmask) {
        BehaviourView {
            peer_subscriptions: with_value(
                v.peer_subscriptions,
                peer,
                without_item(subs, bitmask),
            ),
            ..v
        }.emit(EventView::Unsubscribed { peer_id: peer, bitmask })
    } else {
        known
    }
}

/// The changes of a peer's subscriptions, in order.
pub open spec fn after_subscriptions(v: BehaviourView, peer: u64, subs: Seq<SubOpts>) -> BehaviourView
    decreases subs.len(),
{
    if subs.len() == 0 {
        v
    } else {
        after_subscription(
            after_subscriptions(v, peer, subs.drop_last()),
            peer,
            subs.last().subscribe,
            subs.last().bitmask@,
        )
    }
}

/// The peers of a mesh to whom a message of `source` is forwarded: all others
/// that are connected.
pub open spec fn forward_targets(
    connected: Seq<(u64, Seq<u64>)>,
    mesh: Seq<u64>,
    source: u64,
) -> Seq<u64> {
    mesh.filter(is_target(connected, source))
}

/// Is a peer another than the source, and connected?
pub open spec fn is_target(connected: Seq<(u64, Seq<u64>)>, source: u64) -> spec_fn(u64) -> bool {
    |p: u64| p != source && connection_of(connected, p) is Some
}

/// A packet to each of the peers, over any connection.
pub open spec fn sends(peers: Seq<u64>, rpc: OutView) -> Seq<EventView> {
    Seq::new(
        peers.len(),
        |i: int| EventView::Send { peer_id: peers[i], connection: None, rpc },
    )
}

/// A published message. One that was seen before is passed over. Otherwise it is
/// no longer waited for; unless its validator objects it is delivered where the
/// node subscribes to it, and forwarded over its mesh.
pub open spec fn after_publish(
    v: BehaviourView,
    peer: u64,
    id: Seq<u8>,
    verdict: Option<ValidationResult>,
    m: WireView,
) -> BehaviourView {
    if v.seen_messages.contains(id) {
        v
    } else {
        let noted = BehaviourView {
            seen_messages: v.seen_messages.push(id),
            pending_iwants: without_key(v.pending_iwants, id),
            ..v
        };
        match verdict {
            Some(ValidationResult::Reject) => noted.charge(
                ChargeView::Invalid { peer_id: peer, bitmask: m.bitmask },
            ),
            Some(ValidationResult::Ignore) => noted,
            _ => {
                let delivered = if v.subscriptions.contains(m.bitmask) {
                    BehaviourView {
                        mcache: noted.mcache.put(
                            id,
                            CachedView { bitmask: m.bitmask, data: m.data, from: peer },
                        ),
                        ..noted
                    }.emit(
                        EventView::Message { propagation_source: peer, message_id: id, message: m },
                    )
                } else {
                    noted
                };
                match value_of(v.mesh, m.bitmask) {
                    Some(mesh) => BehaviourView {
                        events: delivered.events + sends(
                            forward_targets(v.connected_peers, mesh, peer),
                            OutView::Publish(seq![m]),
                        ),
                        ..delivered
                    },
                    None => delivered,
                }
            },
        }
    }
}

/// The published messages of a packet, in order.
pub open spec fn after_publishes(v: BehaviourView, peer: u64, ms: Seq<Incoming>) -> BehaviourView
    decreases ms.len(),
{
    if ms.len() == 0 {
        v
    } else {
        after_publish(
            after_publishes(v, peer, ms.drop_last()),
            peer,
            ms.last().id@,
            ms.last().verdict,
            ms.last().message@,
        )
    }
}

impl BlossomSubBehaviour {
    /// What always holds: the message cache has a current window.
    pub open spec fn wf(&self) -> bool {
        self@.mcache.wf()
    }

    /// Queues an event.
    pub fn emit(&mut self, e: BlossomSubEvent)
        ensures
            final(self)@ == old(self)@.emit(e@),
            final(self).params == old(self).params,
            old(self).wf() ==> final(self).wf(),
    {
        self.events.push(e);
        assert(event_views(self.events@) =~= event_views(old(self).events@).push(e@));
    }

    /// Notes a charge.
    pub fn charge(&mut self, c: Charge)
        ensures
            final(self)@ == old(self)@.charge(c@),
            final(self).params == old(self).params,
            old(self).wf() ==> final(self).wf(),
    {
        self.charges.push(c);
        assert(charge_views(self.charges@) =~= charge_views(old(self).charges@).push(c@));
    }

    /// The oldest connection to a peer.
    pub fn first_connection(&self, peer: u64) -> (r: Option<u64>)
        ensures
            r == connection_of(self@.connected_peers, peer),
    {
        match self.connected_peers.get(&peer) {
            Some(cs) => if cs.items.len() > 0 {
                assert(cs@[0] == cs.items@[0]);
                Some(cs.items[0])
            } else {
                None
            },
            None => None,
        }
    }

    fn handle_subscription(&mut self, peer: u64, sub: &SubOpts)
        ensures
            final(self)@ == after_subscription(old(self)@, peer, sub.subscribe, sub.bitmask@),
    {
        let subs = self.peer_subscriptions.or_blank(&peer);
        if sub.subscribe {
            let known = subs.contains(&sub.bitmask);
            if !known && subs.len() >= MAX_SUBSCRIPTIONS_PER_PEER {
                self.charge(Charge::Penalty { peer_id: peer });
                return;
            }
            if subs.insert(copy_bytes(sub.bitmask.as_slice())) {
                self.emit(
                    BlossomSubEvent::Subscribed {
                        peer_id: peer,
                        bitmask: copy_bytes(sub.bitmask.as_slice()),
                    },
                );
            }
        } else if subs.contains(&sub.bitmask) {
            subs.remove(&sub.bitmask);
            self.emit(
                BlossomSubEvent::Unsubscribed {
                    peer_id: peer,
                    bitmask: copy_bytes(sub.bitmask.as_slice()),
                },
            );
        }
    }

    /// Takes in the changes of a peer's subscriptions.
    pub fn handle_subscriptions(&mut self, peer: u64, subs: &Vec<SubOpts>)
        ensures
            final(self)@ == after_subscriptions(old(self)@, peer, subs@),
            final(self).params == old(self).params,
            old(self).wf() ==> final(self).wf(),
    {
        let mut i: usize = 0;
        assert(subs@.take(0) =~= Seq::<SubOpts>::empty());
        while i < subs.len()
            invariant
                i <= subs@.len(),
                self@ == after_subscriptions(old(self)@, peer, subs@.take(i as int)),
                self@.params == old(self)@.params,
                self@.mcache == old(self)@.mcache,
            decreases subs@.len() - i,
        {
            proof {
                assert(subs@.take(i + 1).drop_last() =~= subs@.take(i as int));
                assert(subs@.take(i + 1).last() == subs@[i as int]);
            }
            self.handle_subscription(peer, &subs[i]);
            i += 1;
        }
        assert(subs@.take(i as int) =~= subs@);
    }

    /// The peers of a mesh to whom a message is forwarded.
    fn find_targets(&self, mesh: &KeySet<u64>, source: u64) -> (r: Vec<u64>)
        ensures
            r@ == forward_targets(self@.connected_peers, mesh@, source),
    {
        let ghost p = is_target(self@.connected_peers, source);
        let ghost s = mesh@;
        let mut out: Vec<u64> = Vec::new();
        let mut i: usize = 0;
        reveal(Seq::filter);
        assert(out@ =~= s.take(0).filter(p));
        while i < mesh.items.len()
            invariant
                i <= mesh.items@.len(),
                s == mesh@,
                p == is_target(self@.connected_peers, source),
                out@ == s.take(i as int).filter(p),
            decreases mesh.items@.len() - i,
        {
            proof {
                assert(s.take(i + 1).drop_last() =~= s.take(i as int));
                assert(s.take(i + 1).last() == s[i as int]);
                reveal(Seq::filter);
            }
            let x: u64 = mesh.items[i];
            if x != source && self.first_connection(x).is_some() {
                out.push(x);
            }
            i += 1;
        }
        assert(s.take(i as int) =~= s);
        out
    }

    /// Sends a message to each of the peers.
    pub(crate) fn forward(&mut self, targets: &Vec<u64>, m: &WireMessage)
        ensures
            final(self)@ == (BehaviourView {
                events: old(self)@.events + sends(targets@, OutView::Publish(seq![m@])),
                ..old(self)@
            }),
    {
        let ghost all = sends(targets@, OutView::Publish(seq![m@]));
        let mut i: usize = 0;
        assert(self@.events + all.take(0) =~= self@.events);
        while i < targets.len()
            invariant
                i <= targets@.len(),
                all == sends(targets@, OutView::Publish(seq![m@])),
                self@ == (BehaviourView {
                    events: old(self)@.events + all.take(i as int),
                    ..old(self)@
                }),
            decreases targets@.len() - i,
        {
            let mut ms: Vec<WireMessage> = Vec::new();
            ms.push(m.dup());
            assert(crate::wire::wire_views(ms@) =~= seq![m@]);
            self.emit(
                BlossomSubEvent::Send {
                    peer_id: targets[i],
                    connection: None,
                    rpc: OutRpc::Publish(ms),
                },
            );
            assert(self@.events =~= old(self)@.events + all.take(i + 1));
            i += 1;
        }
        assert(all.take(i as int) =~= all);
    }

    fn handle_message(&mut self, peer: u64, m: &Incoming)
        requires
            old(self).wf(),
        ensures
            final(self)@ == after_publish(old(self)@, peer, m.id@, m.verdict, m.message@),
            final(self).wf(),
    {
        if !self.seen_messages.insert(copy_bytes(m.id.as_slice())) {
            return;
        }
        self.pending_iwants.remove(&m.id);
        match m.verdict {
            Some(ValidationResult::Reject) => {
                self.charge(
                    Charge::Invalid {
                        peer_id: peer,
                        bitmask: copy_bytes(m.message.bitmask.as_slice()),
                    },
                );
                return;
            },
            Some(ValidationResult::Ignore) => {
                return;
            },
            _ => {},
        }
        let targets = match self.mesh.get(&m.message.bitmask) {
            Some(mesh) => Some(self.find_targets(mesh, peer)),
            None => None,
        };
        if self.subscriptions.contains(&m.message.bitmask) {
            self.mcache.put(
                copy_bytes(m.id.as_slice()),
                copy_bytes(m.message.bitmask.as_slice()),
                copy_bytes(m.message.data.as_slice()),
                peer,
            );
            self.emit(
                BlossomSubEvent::Message {
                    propagation_source: peer,
                    message_id: copy_bytes(m.id.as_slice()),
                    message: m.message.dup(),
                },
            );
        }
        if let Some(ts) = targets {
            self.forward(&ts, &m.message);
        }
    }

    /// Takes in the messages of a packet.
    pub fn handle_publishes(&mut self, peer: u64, ms: &Vec<Incoming>)
        requires
            old(self).wf(),
        ensures
            final(self)@ == after_publishes(old(self)@, peer, ms@),
            final(self).wf(),
            final(self).params == old(self).params,
    {
        let mut i: usize = 0;
        assert(ms@.take(0) =~= Seq::<Incoming>::empty());
        while i < ms.len()
            invariant
                i <= ms@.len(),
                self.wf(),
                self@ == after_publishes(old(self)@, peer, ms@.take(i as int)),
                self@.params == old(self)@.params,
            decreases ms@.len() - i,
        {
            proof {
                assert(ms@.take(i + 1).drop_last() =~= ms@.take(i as int));
                assert(ms@.take(i + 1).last() == ms@[i as int]);
            }
            self.handle_message(peer, &ms[i]);
            i += 1;
        }
        assert(ms@.take(i as int) =~= ms@);
    }
}

} // verus!
