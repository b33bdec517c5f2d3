//! The gossip behaviour's own subscriptions, its messages, and the connections of
//! its peers.

use vstd::prelude::*;

use crate::assoc::{
    has_key, value_of, value_or, with_item, with_value, without_item, without_key, KeyMap, KeySet,
};
use crate::behaviour::{
    sends, BehaviourView, BlossomSubBehaviour, BlossomsubParams, PendingView,
};
use crate::blossomsub::{index_slices, indexed};
use crate::bytes::{append_bytes, be_bytes_u64, be_seq, copy_all, copy_bytes, views};
use crate::codec::{hex_encode, hex_text};
use crate::control::rebuilt;
use crate::gossip::{build_composite, composite_of, BackoffRule, ByteList};
use crate::message_cache::{CacheView, CachedView, MessageCache};
use crate::text::concat2;
use crate::wire::{
    charge_views, event_views, BlossomSubEvent, EventView, OutRpc, OutView, WireMessage, WireView,
};

verus! {

/// The state after a composite mesh was set up for a bitmask of several slices;
/// nothing where there is one already.
pub open spec fn with_composite(v: BehaviourView, bitmask: Seq<u8>, slices: Seq<Seq<u8>>) -> BehaviourView {
    if has_key(v.composites, bitmask) {
        v
    } else {
        rebuilt(
            BehaviourView {
                slice_to_composite: indexed(v.slice_to_composite, slices, bitmask),
                composites: with_value(
                    v.composites,
                    bitmask,
                    composite_of(
                        v.peer_subscriptions,
                        v.backoffs,
                        BackoffRule::AnyEntry,
                        bitmask,
                        slices,
                        v.params.d as nat,
                    ),
                ),
                ..v
            },
            bitmask,
        )
    }
}

/// The reverse index without a composite, for each of its slices. A slice that
/// belongs to no composite any more is taken out.
pub open spec fn unindexed(
    index: Seq<(Seq<u8>, Seq<Seq<u8>>)>,
    slices: Seq<Seq<u8>>,
    bitmask: Seq<u8>,
) -> Seq<(Seq<u8>, Seq<Seq<u8>>)>
    decreases slices.len(),
{
    if slices.len() == 0 {
        index
    } else {
        let before = unindexed(index, slices.drop_last(), bitmask);
        match value_of(before, slices.last()) {
            Some(keys) => {
                let left = without_item(keys, bitmask);
                if left.len() == 0 {
                    without_key(before, slices.last())
                } else {
                    with_value(before, slices.last(), left)
                }
            },
            None => before,
        }
    }
}

/// The state after the slices of a composite that is gone were looked through: the
/// mesh of a slice that belongs to no composite any more goes, and the first
/// composite of any other is rebuilt.
pub open spec fn released(v: BehaviourView, slices: Seq<Seq<u8>>) -> BehaviourView
    decreases slices.len(),
{
    if slices.len() == 0 {
        v
    } else {
        let u = released(v, slices.drop_last());
        match value_of(u.slice_to_composite, slices.last()) {
            None => BehaviourView { mesh: without_key(u.mesh, slices.last()), ..u },
            Some(keys) => if keys.len() > 0 {
                rebuilt(u, keys[0])
            } else {
                u
            },
        }
    }
}

/// The state after a composite mesh was taken down.
pub open spec fn without_composite(v: BehaviourView, bitmask: Seq<u8>) -> BehaviourView {
    match value_of(v.composites, bitmask) {
        None => v,
        Some(c) => released(
            BehaviourView {
                composites: without_key(v.composites, bitmask),
                slice_to_composite: unindexed(v.slice_to_composite, c.slices, bitmask),
                ..v
            },
            c.slices,
        ),
    }
}

/// The subscriptions that new connections are greeted with, brought up to date.
pub open spec fn greeted(v: BehaviourView) -> BehaviourView {
    BehaviourView {
        greeting: if v.subscriptions.len() == 0 {
            None
        } else {
            Some(v.subscriptions)
        },
        ..v
    }
}

/// Has a peer a connection?
pub open spec fn has_connection() -> spec_fn((u64, Seq<u64>)) -> bool {
    |e: (u64, Seq<u64>)| e.1.len() > 0
}

/// The connected peers, in order.
pub open spec fn connected_list(connected: Seq<(u64, Seq<u64>)>) -> Seq<u64> {
    crate::gossip::keys_of(connected.filter(has_connection()))
}

/// The state after subscribing to a bitmask with the given slices: the composite
/// mesh is set up where there are several, and all connected peers are told.
pub open spec fn subscribed(v: BehaviourView, bitmask: Seq<u8>, slices: Seq<Seq<u8>>) -> BehaviourView {
    if v.subscriptions.contains(bitmask) {
        v
    } else {
        let noted = greeted(
            BehaviourView { subscriptions: v.subscriptions.push(bitmask), ..v },
        );
        let meshed = if slices.len() > 1 {
            with_composite(noted, bitmask, slices)
        } else {
            noted
        };
        BehaviourView {
            events: meshed.events + sends(
                connected_list(v.connected_peers),
                OutView::Subscribe(noted.subscriptions),
            ),
            ..meshed
        }
    }
}

/// The state after unsubscribing from a bitmask.
pub open spec fn unsubscribed(v: BehaviourView, bitmask: Seq<u8>) -> BehaviourView {
    if !v.subscriptions.contains(bitmask) {
        v
    } else {
        greeted(
            without_composite(
                BehaviourView {
                    subscriptions: without_item(v.subscriptions, bitmask),
                    mesh: without_key(v.mesh, bitmask),
                    ..v
                },
                bitmask,
            ),
        )
    }
}

/// A message as it is made for publishing, before it is signed.
pub open spec fn unsigned(v: BehaviourView, bitmask: Seq<u8>, data: Seq<u8>) -> WireView {
    WireView {
        from: v.local_peer_id,
        data,
        seqno: be_seq(v.seqno_counter as nat, 8),
        bitmask,
        signature: Seq::empty(),
        key: Seq::empty(),
    }
}

/// A message with its signature and the signer's key, where there are any.
pub open spec fn signed(m: WireView, signature: Option<(Vec<u8>, Vec<u8>)>) -> WireView {
    match signature {
        Some(s) => WireView { signature: s.0@, key: s.1@, ..m },
        None => m,
    }
}

/// The state after publishing to a bitmask that is subscribed to. A message that
/// was seen is not published again; otherwise it is cached and sent to the mesh.
pub open spec fn published(
    v: BehaviourView,
    bitmask: Seq<u8>,
    data: Seq<u8>,
    id: Seq<u8>,
    signature: Option<(Vec<u8>, Vec<u8>)>,
    source: u64,
) -> BehaviourView {
    if v.seen_messages.contains(id) {
        v
    } else {
        BehaviourView {
            seen_messages: v.seen_messages.push(id),
            seqno_counter: if v.seqno_counter == u64::MAX {
                0
            } else {
                (v.seqno_counter + 1) as u64
            },
            mcache: v.mcache.put(id, CachedView { bitmask, data, from: source }),
            events: v.events + sends(
                value_or(v.mesh, bitmask, Seq::empty()),
                OutView::Publish(seq![signed(unsigned(v, bitmask, data), signature)]),
            ),
            ..v
        }
    }
}

/// A wanted message after a peer is gone. Where the peer was the one asked, the
/// wait is over.
pub open spec fn iwant_after_close(e: PendingView, peer: u64, expired: u64) -> PendingView {
    if e.asked == peer {
        PendingView { sent_at: expired, ..e }
    } else {
        PendingView { other_advertisers: without_item(e.other_advertisers, peer), ..e }
    }
}

/// Is a message still to be had after a peer is gone? Not where the peer was the
/// only one to have announced it.
pub open spec fn iwant_stays(peer: u64) -> spec_fn((Seq<u8>, PendingView)) -> bool {
    |e: (Seq<u8>, PendingView)| !(e.1.asked == peer && e.1.other_advertisers.len() == 0)
}

/// The wanted messages after a peer is gone.
pub open spec fn iwants_after_close(s: Seq<(Seq<u8>, PendingView)>, peer: u64, expired: u64) -> Seq<
    (Seq<u8>, PendingView),
> {
    Seq::new(s.len(), |i: int| (s[i].0, iwant_after_close(s[i].1, peer, expired))).filter(
        iwant_stays(peer),
    )
}

/// The meshes without a peer.
pub open spec fn meshes_without(mesh: Seq<(Seq<u8>, Seq<u64>)>, peer: u64) -> Seq<
    (Seq<u8>, Seq<u64>),
> {
    Seq::new(mesh.len(), |i: int| (mesh[i].0, without_item(mesh[i].1, peer)))
}

/// The state after a connection was closed. With its last connection a peer leaves
/// every mesh, and what it announced is to be had from others or not at all.
pub open spec fn disconnected(v: BehaviourView, peer: u64, connection: u64, now: u64) -> BehaviourView {
    match value_of(v.connected_peers, peer) {
        None => v,
        Some(cs) => {
            let left = without_item(cs, connection);
            if left.len() > 0 {
                BehaviourView {
                    connected_peers: with_value(v.connected_peers, peer, left),
                    ..v
                }
            } else {
                BehaviourView {
                    connected_peers: without_key(
                        with_value(v.connected_peers, peer, left),
                        peer,
                    ),
                    peer_subscriptions: without_key(v.peer_subscriptions, peer),
                    mesh: meshes_without(v.mesh, peer),
                    pending_iwants: iwants_after_close(
                        v.pending_iwants,
                        peer,
                        (now - v.params.iwant_followup_time) as u64,
                    ),
                    ..v
                }
            }
        },
    }
}

/// How many places there are in all the meshes together.
pub open spec fn mesh_total(mesh: Seq<(Seq<u8>, Seq<u64>)>) -> nat
    decreases mesh.len(),
{
    if mesh.len() == 0 {
        0
    } else {
        mesh_total(mesh.drop_last()) + mesh.last().1.len()
    }
}

proof fn lemma_mesh_total_prefix(mesh: Seq<(Seq<u8>, Seq<u64>)>, n: int)
    requires
        0 <= n <= mesh.len(),
    ensures
        mesh_total(mesh.take(n)) <= mesh_total(mesh),
    decreases mesh.len(),
{
    if n == mesh.len() {
        assert(mesh.take(n) =~= mesh);
    } else {
        assert(mesh.drop_last().take(n) =~= mesh.take(n));
        lemma_mesh_total_prefix(mesh.drop_last(), n);
    }
}

impl BlossomSubBehaviour {
    /// The behaviour that knows nothing yet. `first_seqno` is where the sequence
    /// numbers of its messages start.
    pub fn with_params(params: BlossomsubParams, first_seqno: u64, now: u64) -> (r: Self)
        ensures
            r.wf(),
            r@ == (BehaviourView {
                params,
                subscriptions: Seq::empty(),
                peer_subscriptions: Seq::empty(),
                connected_peers: Seq::empty(),
                mesh: Seq::empty(),
                events: Seq::empty(),
                charges: Seq::empty(),
                seen_messages: Seq::empty(),
                mcache: CacheView {
                    windows: seq![Seq::<Seq<u8>>::empty()],
                    messages: Seq::empty(),
                    history_length: params.history_length as nat,
                    history_gossip: params.history_gossip as nat,
                },
                last_heartbeat: now,
                greeting: None,
                local_peer_id: Seq::empty(),
                seqno_counter: first_seqno,
                blacklisted_peers: Seq::empty(),
                fanout: Seq::empty(),
                fanout_last_pub: Seq::empty(),
                backoffs: Seq::empty(),
                outbound_peers: Seq::empty(),
                heartbeat_ticks: 0,
                direct_peers: Seq::empty(),
                composites: Seq::empty(),
                slice_to_composite: Seq::empty(),
                pending_iwants: Seq::empty(),
            }),
    {
        let r = BlossomSubBehaviour {
            params,
            subscriptions: KeySet::new(),
            peer_subscriptions: KeyMap::new(),
            connected_peers: KeyMap::new(),
            mesh: KeyMap::new(),
            events: Vec::new(),
            charges: Vec::new(),
            seen_messages: KeySet::new(),
            mcache: MessageCache::new(params.history_length, params.history_gossip),
            last_heartbeat: now,
            greeting: None,
            local_peer_id: Vec::new(),
            seqno_counter: first_seqno,
            blacklisted_peers: KeySet::new(),
            fanout: KeyMap::new(),
            fanout_last_pub: KeyMap::new(),
            backoffs: KeyMap::new(),
            outbound_peers: KeyMap::new(),
            heartbeat_ticks: 0,
            direct_peers: KeySet::new(),
            composites: KeyMap::new(),
            slice_to_composite: KeyMap::new(),
            pending_iwants: KeyMap::new(),
        };
        assert(event_views(r.events@) =~= Seq::<EventView>::empty());
        assert(charge_views(r.charges@) =~= Seq::<crate::wire::ChargeView>::empty());
        r
    }

    /// Refuses new connections from and to a peer.
    pub fn blacklist_peer(&mut self, peer: u64)
        ensures
            final(self)@ == (BehaviourView {
                blacklisted_peers: with_item(old(self)@.blacklisted_peers, peer),
                ..old(self)@
            }),
            final(self).params == old(self).params,
            old(self).wf() ==> final(self).wf(),
    {
        self.blacklisted_peers.insert(peer);
    }

    /// Is a new connection from or to the peer refused?
    pub fn denies(&self, peer: u64) -> (r: bool)
        ensures
            r == self@.blacklisted_peers.contains(peer),
    {
        self.blacklisted_peers.contains(&peer)
    }

    /// Keeps a peer in every mesh.
    pub fn add_direct_peer(&mut self, peer: u64)
        ensures
            final(self)@ == (BehaviourView {
                direct_peers: with_item(old(self)@.direct_peers, peer),
                ..old(self)@
            }),
            final(self).params == old(self).params,
            old(self).wf() ==> final(self).wf(),
    {
        self.direct_peers.insert(peer);
    }

    /// Sets the identity under which messages are published.
    pub fn set_signing_identity(&mut self, peer_id: Vec<u8>)
        ensures
            final(self)@ == (BehaviourView { local_peer_id: peer_id@, ..old(self)@ }),
            final(self).params == old(self).params,
            old(self).wf() ==> final(self).wf(),
    {
        self.local_peer_id = peer_id;
    }

    /// Sets up a composite mesh for a bitmask of several slices.
    pub fn join_composite(&mut self, bitmask: &Vec<u8>, slices: &Vec<Vec<u8>>)
        ensures
            final(self)@ == with_composite(old(self)@, bitmask@, views(slices@)),
            final(self).params == old(self).params,
            old(self).wf() ==> final(self).wf(),
    {
        if self.composites.contains_key(bitmask) {
            return;
        }
        let entry = build_composite(
            &self.peer_subscriptions,
            &self.backoffs,
            BackoffRule::AnyEntry,
            bitmask,
            slices,
            self.params.d,
        );
        index_slices(&mut self.slice_to_composite, slices, bitmask);
        self.composites.insert(copy_bytes(bitmask.as_slice()), entry);
        self.rebuild_slice_meshes(bitmask);
    }

    fn unindex(&mut self, slices: &Vec<Vec<u8>>, bitmask: &Vec<u8>)
        ensures
            final(self)@ == (BehaviourView {
                slice_to_composite: unindexed(
                    old(self)@.slice_to_composite,
                    views(slices@),
                    bitmask@,
                ),
                ..old(self)@
            }),
    {
        let ghost sv = views(slices@);
        let mut i: usize = 0;
        assert(sv.take(0) =~= Seq::<Seq<u8>>::empty());
        while i < slices.len()
            invariant
                i <= slices@.len(),
                sv == views(slices@),
                self@ == (BehaviourView {
                    slice_to_composite: unindexed(
                        old(self)@.slice_to_composite,
                        sv.take(i as int),
                        bitmask@,
                    ),
                    ..old(self)@
                }),
            decreases slices@.len() - i,
        {
            proof {
                assert(sv.take(i + 1).drop_last() =~= sv.take(i as int));
                assert(sv.take(i + 1).last() == sv[i as int]);
            }
            let left = match self.slice_to_composite.get(&slices[i]) {
                Some(keys) => Some(keep_others(keys, bitmask)),
                None => None,
            };
            if let Some(l) = left {
                if l.items.len() == 0 {
                    assert(l@.len() == 0);
                    self.slice_to_composite.remove(&slices[i]);
                } else {
                    assert(l@.len() > 0);
                    self.slice_to_composite.insert(copy_bytes(slices[i].as_slice()), l);
                }
            }
            i += 1;
        }
        assert(sv.take(i as int) =~= sv);
    }

    fn release(&mut self, slices: &Vec<Vec<u8>>)
        ensures
            final(self)@ == released(old(self)@, views(slices@)),
            final(self)@.params == old(self)@.params,
            final(self)@.mcache == old(self)@.mcache,
    {
        let ghost sv = views(slices@);
        let mut i: usize = 0;
        assert(sv.take(0) =~= Seq::<Seq<u8>>::empty());
        while i < slices.len()
            invariant
                i <= slices@.len(),
                sv == views(slices@),
                self@ == released(old(self)@, sv.take(i as int)),
                self@.params == old(self)@.params,
                self@.mcache == old(self)@.mcache,
            decreases slices@.len() - i,
        {
            proof {
                assert(sv.take(i + 1).drop_last() =~= sv.take(i as int));
                assert(sv.take(i + 1).last() == sv[i as int]);
            }
            let first: Option<Option<Vec<u8>>> = match self.slice_to_composite.get(&slices[i]) {
                None => None,
                Some(keys) => if keys.items.len() > 0 {
                    assert(keys@[0] == keys.items@[0]@);
                    Some(Some(copy_bytes(keys.items[0].as_slice())))
                } else {
                    assert(keys@.len() == 0);
                    Some(None)
                },
            };
            match first {
                None => {
                    self.mesh.remove(&slices[i]);
                },
                Some(Some(k)) => {
                    self.rebuild_slice_meshes(&k);
                },
                Some(None) => {},
            }
            i += 1;
        }
        assert(sv.take(i as int) =~= sv);
    }

    /// Takes a composite mesh down.
    pub fn leave_composite(&mut self, bitmask: &Vec<u8>)
        ensures
            final(self)@ == without_composite(old(self)@, bitmask@),
            final(self).params == old(self).params,
            old(self).wf() ==> final(self).wf(),
    {
        let slices = match self.composites.get(bitmask) {
            Some(c) => copy_all(&c.slices),
            None => {
                return;
            },
        };
        self.composites.remove(bitmask);
        self.unindex(&slices, bitmask);
        self.release(&slices);
    }

    fn refresh_greeting(&mut self)
        ensures
            final(self)@ == greeted(old(self)@),
    {
        if self.subscriptions.items.len() == 0 {
            assert(self.subscriptions@.len() == 0);
            self.greeting = None;
        } else {
            assert(self.subscriptions@.len() > 0);
            let g = copy_all(&self.subscriptions.items);
            assert(views(g@) =~= self.subscriptions@);
            self.greeting = Some(g);
        }
    }

    fn connected(&self) -> (r: Vec<u64>)
        ensures
            r@ == connected_list(self@.connected_peers),
    {
        let ghost s = self@.connected_peers;
        let ghost p = has_connection();
        let mut out: Vec<u64> = Vec::new();
        let mut i: usize = 0;
        reveal(Seq::filter);
        assert(out@ =~= crate::gossip::keys_of(s.take(0).filter(p)));
        while i < self.connected_peers.entries.len()
            invariant
                i <= self.connected_peers.entries@.len(),
                s == self@.connected_peers,
                p == has_connection(),
                out@ == crate::gossip::keys_of(s.take(i as int).filter(p)),
            decreases self.connected_peers.entries@.len() - i,
        {
            proof {
                assert(s.take(i + 1).drop_last() =~= s.take(i as int));
                assert(s.take(i + 1).last() == s[i as int]);
                reveal(Seq::filter);
            }
            let e = &self.connected_peers.entries[i];
            assert(e.1@.len() == e.1.items@.len());
            if e.1.items.len() > 0 {
                out.push(e.0);
            }
            assert(out@ =~= crate::gossip::keys_of(s.take(i + 1).filter(p)));
            i += 1;
        }
        assert(s.take(i as int) =~= s);
        out
    }

    /// Subscribes to a bitmask with the given slices.
    pub fn subscribe(&mut self, bitmask: &Vec<u8>, slices: &Vec<Vec<u8>>)
        ensures
            final(self)@ == subscribed(old(self)@, bitmask@, views(slices@)),
            final(self).params == old(self).params,
            old(self).wf() ==> final(self).wf(),
    {
        if !self.subscriptions.insert(copy_bytes(bitmask.as_slice())) {
            return;
        }
        self.refresh_greeting();
        let ghost all = self@.subscriptions;
        let peers = self.connected();
        if slices.len() > 1 {
            proof {
                lemma_with_composite_frame(self@, bitmask@, views(slices@));
            }
            self.join_composite(bitmask, slices);
        }
        assert(self@.subscriptions == all);
        let ghost meshed = self@;
        let ghost evs = sends(peers@, OutView::Subscribe(all));
        let mut i: usize = 0;
        assert(meshed.events + evs.take(0) =~= meshed.events);
        while i < peers.len()
            invariant
                i <= peers@.len(),
                evs == sends(peers@, OutView::Subscribe(all)),
                self@ == (BehaviourView {
                    events: meshed.events + evs.take(i as int),
                    ..meshed
                }),
                meshed.subscriptions == all,
            decreases peers@.len() - i,
        {
            let list = copy_all(&self.subscriptions.items);
            assert(views(list@) =~= self.subscriptions@);
            self.emit(
                BlossomSubEvent::Send {
                    peer_id: peers[i],
                    connection: None,
                    rpc: OutRpc::Subscribe(list),
                },
            );
            assert(self@.events =~= meshed.events + evs.take(i + 1));
            i += 1;
        }
        assert(evs.take(i as int) =~= evs);
    }

    /// Unsubscribes from a bitmask.
    pub fn unsubscribe(&mut self, bitmask: &Vec<u8>)
        ensures
            final(self)@ == unsubscribed(old(self)@, bitmask@),
            final(self).params == old(self).params,
            old(self).wf() ==> final(self).wf(),
    {
        if self.subscriptions.contains(bitmask) {
            self.subscriptions.remove(bitmask);
            self.mesh.remove(bitmask);
            self.leave_composite(bitmask);
            self.refresh_greeting();
        }
    }

    /// The next message to be published, before it is signed.
    pub fn unsigned_message(&self, bitmask: &Vec<u8>, data: &Vec<u8>) -> (r: WireMessage)
        ensures
            r@ == unsigned(self@, bitmask@, data@),
    {
        let signature: Vec<u8> = Vec::new();
        let key: Vec<u8> = Vec::new();
        assert(signature@ =~= Seq::<u8>::empty());
        WireMessage {
            from: copy_bytes(self.local_peer_id.as_slice()),
            data: copy_bytes(data.as_slice()),
            seqno: be_bytes_u64(self.seqno_counter),
            bitmask: copy_bytes(bitmask.as_slice()),
            signature,
            key,
        }
    }

    /// Publishes data. `id` is the message's identifier, `signature` what signing
    /// [`unsigned_message`](Self::unsigned_message) gave, with the signer's key, and
    /// `source` whom the cache names as the sender.
    pub fn publish(
        &mut self,
        bitmask: &Vec<u8>,
        data: &Vec<u8>,
        id: &Vec<u8>,
        signature: &Option<(Vec<u8>, Vec<u8>)>,
        source: u64,
    ) -> (r: Result<(), String>)
        requires
            old(self).wf(),
        ensures
            final(self).wf(),
            match r {
                Ok(()) => {
                    &&& old(self)@.subscriptions.contains(bitmask@)
                    &&& final(self)@ == published(
                        old(self)@,
                        bitmask@,
                        data@,
                        id@,
                        *signature,
                        source,
                    )
                },
                Err(m) => {
                    &&& !old(self)@.subscriptions.contains(bitmask@)
                    &&& m@ == "not subscribed to bitmask "@ + hex_text(bitmask@)
                    &&& final(self)@ == old(self)@
                },
            },
            final(self).params == old(self).params,
    {
        if !self.subscriptions.contains(bitmask) {
            return Err(
                concat2("not subscribed to bitmask ", hex_encode(bitmask.as_slice()).as_str()),
            );
        }
        if self.seen_messages.contains(id) {
            return Ok(());
        }
        let mut m = self.unsigned_message(bitmask, data);
        if let Some(s) = signature {
            m.signature = copy_bytes(s.0.as_slice());
            m.key = copy_bytes(s.1.as_slice());
        }
        self.seen_messages.insert(copy_bytes(id.as_slice()));
        self.seqno_counter = if self.seqno_counter == u64::MAX {
            0
        } else {
            self.seqno_counter + 1
        };
        self.mcache.put(
            copy_bytes(id.as_slice()),
            copy_bytes(bitmask.as_slice()),
            copy_bytes(data.as_slice()),
            source,
        );
        let peers: Vec<u64> = match self.mesh.get(bitmask) {
            Some(s) => {
                let d = s.dup();
                assert(d@ =~= d.items@);
                d.items
            },
            None => Vec::new(),
        };
        assert(peers@ =~= value_or(old(self)@.mesh, bitmask@, Seq::empty()));
        self.forward(&peers, &m);
        Ok(())
    }

    /// Greets a peer with the own subscriptions, where it is connected and there
    /// are any.
    pub fn send_subscriptions_to_peer(&mut self, peer: u64)
        ensures
            final(self)@ == match old(self)@.greeting {
                Some(g) => if has_key(old(self)@.connected_peers, peer) {
                    old(self)@.emit(
                        EventView::Send {
                            peer_id: peer,
                            connection: None,
                            rpc: OutView::Subscribe(g),
                        },
                    )
                } else {
                    old(self)@
                },
                None => old(self)@,
            },
            final(self).params == old(self).params,
            old(self).wf() ==> final(self).wf(),
    {
        let list = match &self.greeting {
            Some(g) => copy_all(g),
            None => {
                return;
            },
        };
        if self.connected_peers.contains_key(&peer) {
            self.emit(
                BlossomSubEvent::Send {
                    peer_id: peer,
                    connection: None,
                    rpc: OutRpc::Subscribe(list),
                },
            );
        }
    }

    /// How many peers the mesh of a bitmask has.
    pub fn mesh_peers(&self, bitmask: &Vec<u8>) -> (r: usize)
        ensures
            r == value_or(self@.mesh, bitmask@, Seq::empty()).len(),
    {
        match self.mesh.get(bitmask) {
            Some(m) => m.len(),
            None => 0,
        }
    }

    /// How many places there are in all the meshes together.
    pub fn mesh_peer_counts(&self) -> (r: usize)
        requires
            mesh_total(self@.mesh) <= usize::MAX,
        ensures
            r == mesh_total(self@.mesh),
    {
        let ghost mesh = self@.mesh;
        let mut total: usize = 0;
        let mut i: usize = 0;
        assert(mesh.take(0) =~= Seq::<(Seq<u8>, Seq<u64>)>::empty());
        while i < self.mesh.len()
            invariant
                i <= mesh.len(),
                mesh == self.mesh@,
                mesh_total(mesh) <= usize::MAX,
                total == mesh_total(mesh.take(i as int)),
            decreases mesh.len() - i,
        {
            proof {
                assert(mesh.take(i + 1).drop_last() =~= mesh.take(i as int));
                assert(mesh.take(i + 1).last() == mesh[i as int]);
                lemma_mesh_total_prefix(mesh, i + 1);
            }
            total = total + self.mesh.entries[i].1.len();
            i += 1;
        }
        assert(mesh.take(i as int) =~= mesh);
        total
    }

    /// How many peers are connected.
    pub fn num_connected(&self) -> (r: usize)
        ensures
            r == self@.connected_peers.len(),
    {
        self.connected_peers.len()
    }

    /// Notes a new connection, and greets the peer.
    pub fn connection_established(&mut self, peer: u64, connection: u64)
        ensures
            ({
                let v = BehaviourView {
                    connected_peers: with_value(
                        old(self)@.connected_peers,
                        peer,
                        value_or(old(self)@.connected_peers, peer, Seq::empty()).push(connection),
                    ),
                    ..old(self)@
                };
                final(self)@ == match v.greeting {
                    Some(g) => v.emit(
                        EventView::Send {
                            peer_id: peer,
                            connection: None,
                            rpc: OutView::Subscribe(g),
                        },
                    ),
                    None => v,
                }
            }),
            final(self).params == old(self).params,
            old(self).wf() ==> final(self).wf(),
    {
        let cs = self.connected_peers.or_blank(&peer);
        let ghost before = cs@;
        cs.items.push(connection);
        assert(cs@ =~= before.push(connection));
        let list = match &self.greeting {
            Some(g) => copy_all(g),
            None => {
                return;
            },
        };
        self.emit(
            BlossomSubEvent::Send {
                peer_id: peer,
                connection: None,
                rpc: OutRpc::Subscribe(list),
            },
        );
    }

    fn leave_meshes(&mut self, peer: u64)
        ensures
            final(self)@ == (BehaviourView {
                mesh: meshes_without(old(self)@.mesh, peer),
                ..old(self)@
            }),
    {
        let ghost all = meshes_without(self@.mesh, peer);
        let mut i: usize = 0;
        while i < self.mesh.entries.len()
            invariant
                i <= self.mesh.entries@.len(),
                all == meshes_without(old(self)@.mesh, peer),
                self.mesh.entries@.len() == old(self).mesh.entries@.len(),
                self@ == (BehaviourView { mesh: self@.mesh, ..old(self)@ }),
                forall|j: int| 0 <= j < i ==> self@.mesh[j] == all[j],
                forall|j: int| i <= j < self@.mesh.len() ==> self@.mesh[j] == old(self)@.mesh[j],
            decreases self.mesh.entries@.len() - i,
        {
            let ghost before = self@.mesh;
            let m = &mut self.mesh.entries[i].1;
            m.remove(&peer);
            assert(self@.mesh =~= before.update(i as int, all[i as int]));
            i += 1;
        }
        assert(self@.mesh =~= all);
    }

    fn close_iwants(&mut self, peer: u64, expired: u64)
        ensures
            final(self)@ == (BehaviourView {
                pending_iwants: iwants_after_close(old(self)@.pending_iwants, peer, expired),
                ..old(self)@
            }),
    {
        let ghost s = self@.pending_iwants;
        let ghost all = Seq::new(
            s.len(),
            |i: int| (s[i].0, iwant_after_close(s[i].1, peer, expired)),
        );
        let mut i: usize = 0;
        while i < self.pending_iwants.entries.len()
            invariant
                i <= self.pending_iwants.entries@.len(),
                s == old(self)@.pending_iwants,
                all == Seq::new(
                    s.len(),
                    |i: int| (s[i].0, iwant_after_close(s[i].1, peer, expired)),
                ),
                self.pending_iwants.entries@.len() == s.len(),
                self@ == (BehaviourView { pending_iwants: self@.pending_iwants, ..old(self)@ }),
                forall|j: int| 0 <= j < i ==> self@.pending_iwants[j] == all[j],
                forall|j: int| i <= j < s.len() ==> self@.pending_iwants[j] == s[j],
            decreases self.pending_iwants.entries@.len() - i,
        {
            let ghost before = self@.pending_iwants;
            let e = &mut self.pending_iwants.entries[i].1;
            if e.asked == peer {
                e.sent_at = expired;
            } else {
                e.other_advertisers.remove(&peer);
            }
            assert(self@.pending_iwants =~= before.update(i as int, all[i as int]));
            i += 1;
        }
        assert(self@.pending_iwants =~= all);
        let ghost p = iwant_stays(peer);
        let ghost mut n: int = 0;
        let mut k: usize = 0;
        reveal(Seq::filter);
        assert(self@.pending_iwants =~= all.take(0).filter(p) + all.skip(0));
        while k < self.pending_iwants.entries.len()
            invariant
                0 <= n <= all.len(),
                k == all.take(n).filter(p).len(),
                p == iwant_stays(peer),
                self@.pending_iwants == all.take(n).filter(p) + all.skip(n),
                self@ == (BehaviourView { pending_iwants: self@.pending_iwants, ..old(self)@ }),
            decreases all.len() - n,
        {
            let ghost before = self@.pending_iwants;
            proof {
                assert(before[k as int] == all.skip(n)[0]);
                assert(all.take(n + 1).drop_last() =~= all.take(n));
                assert(all.take(n + 1).last() == all[n]);
                reveal(Seq::filter);
            }
            let e = &self.pending_iwants.entries[k].1;
            if e.asked == peer && e.other_advertisers.len() == 0 {
                self.pending_iwants.entries.remove(k);
                assert(self@.pending_iwants =~= before.remove(k as int));
            } else {
                k += 1;
            }
            assert(self@.pending_iwants =~= all.take(n + 1).filter(p) + all.skip(n + 1));
            proof {
                n = n + 1;
            }
        }
        assert(all.take(n) =~= all);
        assert(self@.pending_iwants =~= all.filter(p));
    }

    /// Notes that a connection was closed.
    pub fn connection_closed(&mut self, peer: u64, connection: u64, now: u64)
        requires
            now >= old(self).params.iwant_followup_time,
        ensures
            final(self)@ == disconnected(old(self)@, peer, connection, now),
            final(self).params == old(self).params,
            old(self).wf() ==> final(self).wf(),
    {
        let expired: u64 = now - self.params.iwant_followup_time;
        let gone = match self.connected_peers.get_mut(&peer) {
            Some(cs) => {
                cs.remove(&connection);
                cs.len() == 0
            },
            None => {
                return;
            },
        };
        if gone {
            self.connected_peers.remove(&peer);
            self.peer_subscriptions.remove(&peer);
            self.leave_meshes(peer);
            self.close_iwants(peer, expired);
        }
    }
}

fn keep_others(keys: &ByteList, bitmask: &Vec<u8>) -> (r: ByteList)
    ensures
        r@ == without_item(keys@, bitmask@),
{
    let mut set = KeySet { items: copy_all(&keys.items) };
    assert(set@ =~= keys@);
    set.remove(bitmask);
    let r = ByteList { items: set.items };
    assert(r@ =~= set@);
    r
}

proof fn lemma_with_composite_frame(v: BehaviourView, bitmask: Seq<u8>, slices: Seq<Seq<u8>>)
    ensures
        with_composite(v, bitmask, slices).subscriptions == v.subscriptions,
        with_composite(v, bitmask, slices).events == v.events,
{
}

/// The bytes that are signed for a message: a fixed label, then the message as it
/// is written on the wire without signature and key.
pub fn signing_bytes(marshalled: &[u8]) -> (r: Vec<u8>)
    ensures
        r@ == seq![
            0x6cu8, 0x69, 0x62, 0x70, 0x32, 0x70, 0x2d, 0x70, 0x75, 0x62, 0x73, 0x75, 0x62, 0x3a,
        ] + marshalled@,
{
    let mut r: Vec<u8> = vec![
        0x6c, 0x69, 0x62, 0x70, 0x32, 0x70, 0x2d, 0x70, 0x75, 0x62, 0x73, 0x75, 0x62, 0x3a,
    ];
    append_bytes(&mut r, marshalled);
    r
}

} // verus!
