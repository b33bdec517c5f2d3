//! The control messages of the gossip protocol: grafting, pruning, announcing and
//! asking for messages, and the composite meshes behind them.

use vstd::prelude::*;

use crate::assoc::{
    has_key, lemma_same_value, value_of, value_or, with_item, with_items, with_value,
    without_item, KeySet,
};
use crate::behaviour::{
    after_publishes, after_subscriptions, BehaviourView, BlossomSubBehaviour, PeerClass, PendingIwant,
    PendingView, MAX_OTHER_ADVERTISERS, MAX_PENDING_IWANTS,
};
use crate::bytes::{copy_all, copy_bytes, views};
use crate::gossip::{backoff_of, backoff_until, on_all, subscribes_to_all, BackoffsView, CompositeView};
use crate::message_cache::CacheView;
use crate::wire::{
    wire_views, BlossomSubEvent, Charge, ChargeView, Control, EventView, Ihave, Incoming, OutRpc,
    OutView, Rpc, SubOpts, WireMessage, WireView,
};

verus! {

/// How a peer stands to a composite: `Same` where it is known to subscribe to
/// every slice.
pub open spec fn class_of(v: BehaviourView, peer: u64, key: Seq<u8>) -> PeerClass {
    match value_of(v.composites, key) {
        Some(c) => match value_of(v.peer_subscriptions, peer) {
            Some(subs) => if on_all(subs, c.slices) {
                PeerClass::Same
            } else {
                PeerClass::Broker
            },
            None => PeerClass::Broker,
        },
        None => PeerClass::Broker,
    }
}

/// A composite with a peer of the given class: a peer of class `Same` is no
/// longer a broker, and a peer among the same ones stays there.
pub open spec fn classified(c: CompositeView, peer: u64, class: PeerClass) -> CompositeView {
    match class {
        PeerClass::Same => CompositeView {
            broker: without_item(c.broker, peer),
            same: with_item(c.same, peer),
            ..c
        },
        PeerClass::Broker => if c.same.contains(peer) {
            c
        } else {
            CompositeView { broker: with_item(c.broker, peer), ..c }
        },
    }
}

/// A composite with a peer demoted to broker.
pub open spec fn demoted(c: CompositeView, peer: u64) -> CompositeView {
    if c.same.contains(peer) {
        CompositeView {
            same: without_item(c.same, peer),
            broker: with_item(c.broker, peer),
            ..c
        }
    } else {
        c
    }
}

/// The state after a peer was classified in each of the composites.
pub open spec fn after_classify(v: BehaviourView, peer: u64, keys: Seq<Seq<u8>>) -> BehaviourView
    decreases keys.len(),
{
    if keys.len() == 0 {
        v
    } else {
        let u = after_classify(v, peer, keys.drop_last());
        let k = keys.last();
        match value_of(u.composites, k) {
            Some(c) => BehaviourView {
                composites: with_value(
                    u.composites,
                    k,
                    classified(c, peer, class_of(u, peer, k)),
                ),
                ..u
            },
            None => u,
        }
    }
}

/// The state after a peer was demoted in each of the composites.
pub open spec fn after_demote(v: BehaviourView, peer: u64, keys: Seq<Seq<u8>>) -> BehaviourView
    decreases keys.len(),
{
    if keys.len() == 0 {
        v
    } else {
        let u = after_demote(v, peer, keys.drop_last());
        let k = keys.last();
        match value_of(u.composites, k) {
            Some(c) => BehaviourView {
                composites: with_value(u.composites, k, demoted(c, peer)),
                ..u
            },
            None => u,
        }
    }
}

/// The backoffs with a peer backed off on a bitmask.
pub open spec fn with_backoff(b: BackoffsView, bitmask: Seq<u8>, peer: u64, until: u64) -> BackoffsView {
    with_value(b, bitmask, with_value(value_or(b, bitmask, Seq::empty()), peer, until))
}

/// What becomes of a request to be grafted.
pub enum GraftGate {
    /// The bitmask is neither subscribed to nor a slice of a composite.
    Unknown,
    /// Direct peers are not grafted.
    Direct,
    /// The peer has to wait: it is charged, and its backoff starts anew.
    BackedOff,
    /// The peer's score is negative: it is backed off.
    LowScore,
    /// The mesh is full, and the peer is not one that was dialed: it is backed
    /// off.
    Full,
    Accepted,
}

/// The first objection to a request to be grafted, if there is any.
pub open spec fn graft_gate(v: BehaviourView, peer: u64, score: i64, now: u64, bitmask: Seq<u8>) -> GraftGate {
    if !v.subscriptions.contains(bitmask) && !has_key(v.slice_to_composite, bitmask) {
        GraftGate::Unknown
    } else if v.direct_peers.contains(peer) {
        GraftGate::Direct
    } else if backoff_of(v.backoffs, bitmask, peer) matches Some(t) && now < t {
        GraftGate::BackedOff
    } else if score < 0 {
        GraftGate::LowScore
    } else if value_or(v.mesh, bitmask, Seq::empty()).len() >= v.params.d_hi && !value_or(
        v.outbound_peers,
        bitmask,
        Seq::empty(),
    ).contains(peer) {
        GraftGate::Full
    } else {
        GraftGate::Accepted
    }
}

/// The state, and whether a composite was touched.
pub struct Touched {
    pub v: BehaviourView,
    pub composite: bool,
}

/// A request to be grafted into the mesh of a bitmask.
pub open spec fn after_graft(s: Touched, peer: u64, score: i64, now: u64, bitmask: Seq<u8>) -> Touched {
    let v = s.v;
    let backed_off = BehaviourView {
        backoffs: with_backoff(
            v.backoffs,
            bitmask,
            peer,
            (now + v.params.prune_backoff) as u64,
        ),
        ..v
    };
    match graft_gate(v, peer, score, now, bitmask) {
        GraftGate::Unknown | GraftGate::Direct => s,
        GraftGate::BackedOff => Touched {
            v: backed_off.charge(ChargeView::Penalty { peer_id: peer }),
            ..s
        },
        GraftGate::LowScore | GraftGate::Full => Touched { v: backed_off, ..s },
        GraftGate::Accepted => {
            let grafted = BehaviourView {
                mesh: with_value(
                    v.mesh,
                    bitmask,
                    with_item(value_or(v.mesh, bitmask, Seq::empty()), peer),
                ),
                ..v
            };
            match value_of(v.slice_to_composite, bitmask) {
                Some(keys) => Touched { v: after_classify(grafted, peer, keys), composite: true },
                None => Touched { v: grafted, ..s },
            }
        },
    }
}

/// A request to be pruned from the mesh of a bitmask. In a composite the peer
/// becomes a broker instead.
pub open spec fn after_prune(s: Touched, peer: u64, bitmask: Seq<u8>) -> Touched {
    let v = s.v;
    match value_of(v.slice_to_composite, bitmask) {
        Some(keys) => Touched { v: after_demote(v, peer, keys), composite: true },
        None => match value_of(v.mesh, bitmask) {
            Some(m) => Touched {
                v: BehaviourView {
                    mesh: with_value(v.mesh, bitmask, without_item(m, peer)),
                    ..v
                },
                ..s
            },
            None => s,
        },
    }
}

/// The requests to be grafted, in order.
pub open spec fn after_grafts(s: Touched, peer: u64, score: i64, now: u64, bs: Seq<Seq<u8>>) -> Touched
    decreases bs.len(),
{
    if bs.len() == 0 {
        s
    } else {
        after_graft(after_grafts(s, peer, score, now, bs.drop_last()), peer, score, now, bs.last())
    }
}

/// The requests to be pruned, in order.
pub open spec fn after_prunes(s: Touched, peer: u64, bs: Seq<Seq<u8>>) -> Touched
    decreases bs.len(),
{
    if bs.len() == 0 {
        s
    } else {
        after_prune(after_prunes(s, peer, bs.drop_last()), peer, bs.last())
    }
}

/// The meshes with the same members for each of the slices.
pub open spec fn filled(
    mesh: Seq<(Seq<u8>, Seq<u64>)>,
    slices: Seq<Seq<u8>>,
    members: Seq<u64>,
) -> Seq<(Seq<u8>, Seq<u64>)>
    decreases slices.len(),
{
    if slices.len() == 0 {
        mesh
    } else {
        with_value(filled(mesh, slices.drop_last(), members), slices.last(), members)
    }
}

/// The members of a composite: the peers on all slices, then the brokers.
pub open spec fn members_of(c: CompositeView) -> Seq<u64> {
    with_items(c.same, c.broker)
}

/// The state after the slice meshes of a composite were made anew: every member
/// is in the mesh of every slice.
pub open spec fn rebuilt(v: BehaviourView, key: Seq<u8>) -> BehaviourView {
    match value_of(v.composites, key) {
        Some(c) => BehaviourView { mesh: filled(v.mesh, c.slices, members_of(c)), ..v },
        None => v,
    }
}

/// The state, and the composites that were rebuilt so far.
pub struct Rebuilding {
    pub v: BehaviourView,
    pub seen: Seq<Seq<u8>>,
}

/// Each of the composites is rebuilt, unless it was before.
pub open spec fn rebuilt_keys(s: Rebuilding, keys: Seq<Seq<u8>>) -> Rebuilding
    decreases keys.len(),
{
    if keys.len() == 0 {
        s
    } else {
        let t = rebuilt_keys(s, keys.drop_last());
        if t.seen.contains(keys.last()) {
            t
        } else {
            Rebuilding { v: rebuilt(t.v, keys.last()), seen: t.seen.push(keys.last()) }
        }
    }
}

/// The composites of each of the slices are rebuilt, each of them once.
pub open spec fn rebuilt_slices(s: Rebuilding, slices: Seq<Seq<u8>>) -> Rebuilding
    decreases slices.len(),
{
    if slices.len() == 0 {
        s
    } else {
        let t = rebuilt_slices(s, slices.drop_last());
        match value_of(t.v.slice_to_composite, slices.last()) {
            Some(keys) => rebuilt_keys(t, keys),
            None => t,
        }
    }
}

/// The state, and the messages to ask for.
pub struct Wanting {
    pub v: BehaviourView,
    pub wanted: Seq<Seq<u8>>,
}

/// A message that a peer announced. One that was seen is passed over; for one that
/// was asked for already, the peer is remembered; otherwise the peer is asked,
/// unless too many messages are waited for.
pub open spec fn after_announced(s: Wanting, peer: u64, now: u64, bitmask: Seq<u8>, id: Seq<u8>) -> Wanting {
    let v = s.v;
    if v.seen_messages.contains(id) {
        s
    } else {
        match value_of(v.pending_iwants, id) {
            Some(e) => if e.asked != peer && !e.other_advertisers.contains(peer)
                && e.other_advertisers.len() < MAX_OTHER_ADVERTISERS {
                Wanting {
                    v: BehaviourView {
                        pending_iwants: with_value(
                            v.pending_iwants,
                            id,
                            PendingView {
                                other_advertisers: e.other_advertisers.push(peer),
                                ..e
                            },
                        ),
                        ..v
                    },
                    ..s
                }
            } else {
                s
            },
            None => if v.pending_iwants.len() >= MAX_PENDING_IWANTS {
                s
            } else {
                Wanting {
                    v: BehaviourView {
                        pending_iwants: with_value(
                            v.pending_iwants,
                            id,
                            PendingView {
                                asked: peer,
                                sent_at: now,
                                other_advertisers: Seq::empty(),
                                bitmask,
                            },
                        ),
                        ..v
                    },
                    wanted: s.wanted.push(id),
                }
            },
        }
    }
}

/// The messages of one announcement, in order.
pub open spec fn after_ids(s: Wanting, peer: u64, now: u64, bitmask: Seq<u8>, ids: Seq<Seq<u8>>) -> Wanting
    decreases ids.len(),
{
    if ids.len() == 0 {
        s
    } else {
        after_announced(
            after_ids(s, peer, now, bitmask, ids.drop_last()),
            peer,
            now,
            bitmask,
            ids.last(),
        )
    }
}

/// All announcements, in order.
pub open spec fn after_ihaves(s: Wanting, peer: u64, now: u64, hs: Seq<Ihave>) -> Wanting
    decreases hs.len(),
{
    if hs.len() == 0 {
        s
    } else {
        after_ids(
            after_ihaves(s, peer, now, hs.drop_last()),
            peer,
            now,
            hs.last().bitmask@,
            views(hs.last().ids@),
        )
    }
}

/// The cached ones of the messages that a peer wants.
pub open spec fn served(cache: CacheView, ids: Seq<Seq<u8>>) -> Seq<WireView>
    decreases ids.len(),
{
    if ids.len() == 0 {
        Seq::empty()
    } else {
        let before = served(cache, ids.drop_last());
        match value_of(cache.messages, ids.last()) {
            Some(m) => before.push(
                WireView {
                    from: Seq::empty(),
                    data: m.data,
                    seqno: Seq::empty(),
                    bitmask: m.bitmask,
                    signature: Seq::empty(),
                    key: Seq::empty(),
                },
            ),
            None => before,
        }
    }
}

/// A packet to a peer, where it is connected.
pub open spec fn told(v: BehaviourView, peer: u64, rpc: OutView) -> BehaviourView {
    if has_key(v.connected_peers, peer) {
        v.emit(EventView::Send { peer_id: peer, connection: None, rpc })
    } else {
        v
    }
}

/// The requests for messages, in order; what is cached is sent.
pub open spec fn after_iwants(v: BehaviourView, peer: u64, ws: Seq<Vec<Vec<u8>>>) -> BehaviourView
    decreases ws.len(),
{
    if ws.len() == 0 {
        v
    } else {
        let u = after_iwants(v, peer, ws.drop_last());
        let ms = served(v.mcache, views(ws.last()@));
        if ms.len() > 0 {
            told(u, peer, OutView::Publish(ms))
        } else {
            u
        }
    }
}

/// The grafts and prunes of a control message, and the slice meshes made anew
/// where they touched a composite.
pub open spec fn after_mesh_control(v: BehaviourView, peer: u64, c: Control, score: i64, now: u64) -> BehaviourView {
    let s = after_prunes(
        after_grafts(Touched { v, composite: false }, peer, score, now, views(c.graft@)),
        peer,
        views(c.prune@),
    );
    if s.composite {
        rebuilt_slices(
            Rebuilding { v: s.v, seen: Seq::empty() },
            views(c.graft@) + views(c.prune@),
        ).v
    } else {
        s.v
    }
}

/// The announcements and requests of a control message.
pub open spec fn after_gossip_control(v: BehaviourView, peer: u64, c: Control, now: u64) -> BehaviourView {
    let w = after_ihaves(Wanting { v, wanted: Seq::empty() }, peer, now, c.ihave@);
    let asked = if w.wanted.len() > 0 {
        told(w.v, peer, OutView::Iwant(w.wanted))
    } else {
        w.v
    };
    after_iwants(asked, peer, c.iwant@)
}

/// A control message of a peer with the given score. Below the gossip threshold
/// its announcements and requests are ignored.
pub open spec fn after_control(v: BehaviourView, peer: u64, c: Control, score: i64, now: u64) -> BehaviourView {
    let u = after_mesh_control(v, peer, c, score, now);
    if score >= v.params.gossip_threshold {
        after_gossip_control(u, peer, c, now)
    } else {
        u
    }
}

/// A packet of a peer.
pub open spec fn after_rpc(v: BehaviourView, peer: u64, rpc: Rpc, score: i64, now: u64) -> BehaviourView {
    let u = after_publishes(
        after_subscriptions(v, peer, rpc.subscriptions@),
        peer,
        rpc.publish@,
    );
    match rpc.control {
        Some(c) => after_control(u, peer, c, score, now),
        None => u,
    }
}

impl BlossomSubBehaviour {
    fn classify_peer(&self, peer: u64, key: &Vec<u8>) -> (r: PeerClass)
        ensures
            r == class_of(self@, peer, key@),
    {
        match self.composites.get(key) {
            Some(c) => match self.peer_subscriptions.get(&peer) {
                Some(subs) => if subscribes_to_all(subs, &c.slices) {
                    PeerClass::Same
                } else {
                    PeerClass::Broker
                },
                None => PeerClass::Broker,
            },
            None => PeerClass::Broker,
        }
    }

    fn classify_in(&mut self, peer: u64, keys: &Vec<Vec<u8>>)
        ensures
            final(self)@ == after_classify(old(self)@, peer, views(keys@)),
            final(self).params == old(self).params,
    {
        let ghost kv = views(keys@);
        let mut i: usize = 0;
        assert(kv.take(0) =~= Seq::<Seq<u8>>::empty());
        while i < keys.len()
            invariant
                i <= keys@.len(),
                kv == views(keys@),
                self@ == after_classify(old(self)@, peer, kv.take(i as int)),
                self.params == old(self).params,
            decreases keys@.len() - i,
        {
            proof {
                assert(kv.take(i + 1).drop_last() =~= kv.take(i as int));
                assert(kv.take(i + 1).last() == kv[i as int]);
            }
            let class = self.classify_peer(peer, &keys[i]);
            let ghost before = self@;
            match self.composites.get_mut(&keys[i]) {
                Some(c) => {
                    match class {
                        PeerClass::Same => {
                            c.broker.remove(&peer);
                            c.same.insert(peer);
                        },
                        PeerClass::Broker => {
                            if !c.same.contains(&peer) {
                                c.broker.insert(peer);
                            }
                        },
                    }
                },
                None => {},
            }
            i += 1;
        }
        assert(kv.take(i as int) =~= kv);
    }

    fn demote_in(&mut self, peer: u64, keys: &Vec<Vec<u8>>)
        ensures
            final(self)@ == after_demote(old(self)@, peer, views(keys@)),
            final(self).params == old(self).params,
    {
        let ghost kv = views(keys@);
        let mut i: usize = 0;
        assert(kv.take(0) =~= Seq::<Seq<u8>>::empty());
        while i < keys.len()
            invariant
                i <= keys@.len(),
                kv == views(keys@),
                self@ == after_demote(old(self)@, peer, kv.take(i as int)),
                self.params == old(self).params,
            decreases keys@.len() - i,
        {
            proof {
                assert(kv.take(i + 1).drop_last() =~= kv.take(i as int));
                assert(kv.take(i + 1).last() == kv[i as int]);
            }
            match self.composites.get_mut(&keys[i]) {
                Some(c) => {
                    if c.same.contains(&peer) {
                        c.same.remove(&peer);
                        c.broker.insert(peer);
                    }
                },
                None => {},
            }
            i += 1;
        }
        assert(kv.take(i as int) =~= kv);
    }

    /// Backs a peer off on a bitmask.
    pub fn back_off(&mut self, bitmask: &Vec<u8>, peer: u64, until: u64)
        ensures
            final(self)@ == (BehaviourView {
                backoffs: with_backoff(old(self)@.backoffs, bitmask@, peer, until),
                ..old(self)@
            }),
            final(self).params == old(self).params,
            old(self).wf() ==> final(self).wf(),
    {
        let m = self.backoffs.or_blank(bitmask);
        m.insert(peer, until);
    }

    /// Answers a request to be grafted; tells whether a composite was touched.
    fn handle_graft(&mut self, peer: u64, score: i64, now: u64, bitmask: &Vec<u8>) -> (touched: bool)
        requires
            now + old(self).params.prune_backoff <= u64::MAX,
        ensures
            ({
                let s = after_graft(
                    Touched { v: old(self)@, composite: false },
                    peer,
                    score,
                    now,
                    bitmask@,
                );
                &&& final(self)@ == s.v
                &&& touched == s.composite
            }),
            final(self).params == old(self).params,
    {
        if !self.subscriptions.contains(bitmask) && !self.slice_to_composite.contains_key(bitmask) {
            return false;
        }
        if self.direct_peers.contains(&peer) {
            return false;
        }
        let until: u64 = now + self.params.prune_backoff;
        if let Some(expiry) = backoff_until(&self.backoffs, bitmask, peer) {
            if now < expiry {
                self.charge(Charge::Penalty { peer_id: peer });
                self.back_off(bitmask, peer, until);
                return false;
            }
        }
        if score < 0 {
            self.back_off(bitmask, peer, until);
            return false;
        }
        let mesh_len: usize = match self.mesh.get(bitmask) {
            Some(m) => m.len(),
            None => 0,
        };
        let is_outbound = match self.outbound_peers.get(bitmask) {
            Some(o) => o.contains(&peer),
            None => false,
        };
        if mesh_len >= self.params.d_hi && !is_outbound {
            self.back_off(bitmask, peer, until);
            return false;
        }
        let keys = match self.slice_to_composite.get(bitmask) {
            Some(ks) => Some(copy_all(&ks.items)),
            None => None,
        };
        let m = self.mesh.or_blank(bitmask);
        m.insert(peer);
        match keys {
            Some(ks) => {
                self.classify_in(peer, &ks);
                true
            },
            None => false,
        }
    }

    /// Answers a request to be pruned; tells whether a composite was touched.
    fn handle_prune(&mut self, peer: u64, bitmask: &Vec<u8>) -> (touched: bool)
        ensures
            ({
                let s = after_prune(Touched { v: old(self)@, composite: false }, peer, bitmask@);
                &&& final(self)@ == s.v
                &&& touched == s.composite
            }),
            final(self).params == old(self).params,
    {
        let keys = match self.slice_to_composite.get(bitmask) {
            Some(ks) => Some(copy_all(&ks.items)),
            None => None,
        };
        match keys {
            Some(ks) => {
                self.demote_in(peer, &ks);
                true
            },
            None => {
                match self.mesh.get_mut(bitmask) {
                    Some(m) => {
                        m.remove(&peer);
                    },
                    None => {},
                }
                false
            },
        }
    }

    /// Makes the slice meshes of a composite anew from its members.
    pub fn rebuild_slice_meshes(&mut self, key: &Vec<u8>)
        ensures
            final(self)@ == rebuilt(old(self)@, key@),
            final(self).params == old(self).params,
            old(self).wf() ==> final(self).wf(),
    {
        let (slices, members) = match self.composites.get(key) {
            Some(c) => {
                let mut members = c.same.dup();
                members.insert_all(&c.broker.items);
                (copy_all(&c.slices), members)
            },
            None => {
                return;
            },
        };
        let ghost sv = views(slices@);
        let mut i: usize = 0;
        assert(sv.take(0) =~= Seq::<Seq<u8>>::empty());
        while i < slices.len()
            invariant
                i <= slices@.len(),
                sv == views(slices@),
                self@ == (BehaviourView {
                    mesh: filled(old(self)@.mesh, sv.take(i as int), members@),
                    ..old(self)@
                }),
                self.params == old(self).params,
            decreases slices@.len() - i,
        {
            proof {
                assert(sv.take(i + 1).drop_last() =~= sv.take(i as int));
                assert(sv.take(i + 1).last() == sv[i as int]);
            }
            self.mesh.insert(copy_bytes(slices[i].as_slice()), members.dup());
            i += 1;
        }
        assert(sv.take(i as int) =~= sv);
    }

    fn rebuild_keys(&mut self, keys: &Vec<Vec<u8>>, seen: &mut KeySet<Vec<u8>>)
        ensures
            ({
                let s = rebuilt_keys(Rebuilding { v: old(self)@, seen: old(seen)@ }, views(keys@));
                &&& final(self)@ == s.v
                &&& final(seen)@ == s.seen
            }),
            final(self).params == old(self).params,
    {
        let ghost kv = views(keys@);
        let ghost start = Rebuilding { v: self@, seen: seen@ };
        let mut i: usize = 0;
        assert(kv.take(0) =~= Seq::<Seq<u8>>::empty());
        while i < keys.len()
            invariant
                i <= keys@.len(),
                kv == views(keys@),
                (Rebuilding { v: self@, seen: seen@ }) == rebuilt_keys(start, kv.take(i as int)),
                self.params == old(self).params,
            decreases keys@.len() - i,
        {
            proof {
                assert(kv.take(i + 1).drop_last() =~= kv.take(i as int));
                assert(kv.take(i + 1).last() == kv[i as int]);
            }
            if seen.insert(copy_bytes(keys[i].as_slice())) {
                self.rebuild_slice_meshes(&keys[i]);
            }
            i += 1;
        }
        assert(kv.take(i as int) =~= kv);
    }

    fn rebuild_slices(&mut self, slices: &Vec<Vec<u8>>, seen: &mut KeySet<Vec<u8>>)
        ensures
            ({
                let s = rebuilt_slices(
                    Rebuilding { v: old(self)@, seen: old(seen)@ },
                    views(slices@),
                );
                &&& final(self)@ == s.v
                &&& final(seen)@ == s.seen
            }),
            final(self).params == old(self).params,
    {
        let ghost sv = views(slices@);
        let ghost start = Rebuilding { v: self@, seen: seen@ };
        let mut i: usize = 0;
        assert(sv.take(0) =~= Seq::<Seq<u8>>::empty());
        while i < slices.len()
            invariant
                i <= slices@.len(),
                sv == views(slices@),
                (Rebuilding { v: self@, seen: seen@ }) == rebuilt_slices(start, sv.take(i as int)),
                self.params == old(self).params,
            decreases slices@.len() - i,
        {
            proof {
                assert(sv.take(i + 1).drop_last() =~= sv.take(i as int));
                assert(sv.take(i + 1).last() == sv[i as int]);
            }
            let keys = match self.slice_to_composite.get(&slices[i]) {
                Some(ks) => Some(copy_all(&ks.items)),
                None => None,
            };
            if let Some(ks) = keys {
                self.rebuild_keys(&ks, seen);
            }
            i += 1;
        }
        assert(sv.take(i as int) =~= sv);
    }

    fn handle_mesh_control(&mut self, peer: u64, c: &Control, score: i64, now: u64)
        requires
            now + old(self).params.prune_backoff <= u64::MAX,
        ensures
            final(self)@ == after_mesh_control(old(self)@, peer, *c, score, now),
            final(self).params == old(self).params,
    {
        let ghost gv = views(c.graft@);
        let ghost pv = views(c.prune@);
        let ghost start = Touched { v: self@, composite: false };
        let mut touched = false;
        let mut i: usize = 0;
        assert(gv.take(0) =~= Seq::<Seq<u8>>::empty());
        while i < c.graft.len()
            invariant
                i <= c.graft@.len(),
                gv == views(c.graft@),
                (Touched { v: self@, composite: touched }) == after_grafts(
                    start,
                    peer,
                    score,
                    now,
                    gv.take(i as int),
                ),
                self.params == old(self).params,
                now + self.params.prune_backoff <= u64::MAX,
            decreases c.graft@.len() - i,
        {
            proof {
                assert(gv.take(i + 1).drop_last() =~= gv.take(i as int));
                assert(gv.take(i + 1).last() == gv[i as int]);
            }
            if self.handle_graft(peer, score, now, &c.graft[i]) {
                touched = true;
            }
            i += 1;
        }
        assert(gv.take(i as int) =~= gv);
        let ghost mid = Touched { v: self@, composite: touched };
        let mut j: usize = 0;
        assert(pv.take(0) =~= Seq::<Seq<u8>>::empty());
        while j < c.prune.len()
            invariant
                j <= c.prune@.len(),
                pv == views(c.prune@),
                (Touched { v: self@, composite: touched }) == after_prunes(
                    mid,
                    peer,
                    pv.take(j as int),
                ),
                self.params == old(self).params,
            decreases c.prune@.len() - j,
        {
            proof {
                assert(pv.take(j + 1).drop_last() =~= pv.take(j as int));
                assert(pv.take(j + 1).last() == pv[j as int]);
            }
            if self.handle_prune(peer, &c.prune[j]) {
                touched = true;
            }
            j += 1;
        }
        assert(pv.take(j as int) =~= pv);
        if touched {
            let mut all = copy_all(&c.graft);
            let mut more = copy_all(&c.prune);
            proof {
                assert forall|k: int| 0 <= k < gv.len() implies all@[k]@ == gv[k] by {
                    assert(views(all@)[k] == gv[k]);
                }
                assert forall|k: int| 0 <= k < pv.len() implies more@[k]@ == pv[k] by {
                    assert(views(more@)[k] == pv[k]);
                }
                assert(views(all@).len() == gv.len());
                assert(views(more@).len() == pv.len());
            }
            all.append(&mut more);
            assert(views(all@) =~= gv + pv);
            let mut seen: KeySet<Vec<u8>> = KeySet::new();
            self.rebuild_slices(&all, &mut seen);
        }
    }

    /// Takes in the announcement of one message; tells whether to ask for it.
    fn handle_announced(&mut self, peer: u64, now: u64, bitmask: &Vec<u8>, id: &Vec<u8>) -> (ask: bool)
        ensures
            forall|wanted: Seq<Seq<u8>>|
                #![trigger after_announced(Wanting { v: old(self)@, wanted }, peer, now, bitmask@, id@)]
                (Wanting {
                    v: final(self)@,
                    wanted: if ask {
                        wanted.push(id@)
                    } else {
                        wanted
                    },
                }) == after_announced(Wanting { v: old(self)@, wanted }, peer, now, bitmask@, id@),
            old(self).wf() ==> final(self).wf(),
            final(self).params == old(self).params,
    {
        if self.seen_messages.contains(id) {
            return false;
        }
        proof {
            if has_key(self@.pending_iwants, id@) {
                lemma_same_value(self@.pending_iwants, id@);
            }
        }
        match self.pending_iwants.get_mut(id) {
            Some(e) => {
                if e.asked != peer && !e.other_advertisers.contains(&peer)
                    && e.other_advertisers.len() < MAX_OTHER_ADVERTISERS {
                    e.other_advertisers.insert(peer);
                }
                return false;
            },
            None => {},
        }
        if self.pending_iwants.len() >= MAX_PENDING_IWANTS {
            return false;
        }
        self.pending_iwants.insert(
            copy_bytes(id.as_slice()),
            PendingIwant {
                asked: peer,
                sent_at: now,
                other_advertisers: KeySet::new(),
                bitmask: copy_bytes(bitmask.as_slice()),
            },
        );
        true
    }

    fn handle_ihave(&mut self, peer: u64, now: u64, h: &Ihave, wanted: &mut Vec<Vec<u8>>)
        ensures
            (Wanting { v: final(self)@, wanted: views(final(wanted)@) }) == after_ids(
                Wanting { v: old(self)@, wanted: views(old(wanted)@) },
                peer,
                now,
                h.bitmask@,
                views(h.ids@),
            ),
            old(self).wf() ==> final(self).wf(),
            final(self).params == old(self).params,
    {
        let ghost iv = views(h.ids@);
        let ghost start = Wanting { v: self@, wanted: views(wanted@) };
        let mut i: usize = 0;
        assert(iv.take(0) =~= Seq::<Seq<u8>>::empty());
        while i < h.ids.len()
            invariant
                i <= h.ids@.len(),
                iv == views(h.ids@),
                (Wanting { v: self@, wanted: views(wanted@) }) == after_ids(
                    start,
                    peer,
                    now,
                    h.bitmask@,
                    iv.take(i as int),
                ),
                old(self).wf() ==> self.wf(),
                self.params == old(self).params,
            decreases h.ids@.len() - i,
        {
            proof {
                assert(iv.take(i + 1).drop_last() =~= iv.take(i as int));
                assert(iv.take(i + 1).last() == iv[i as int]);
            }
            let ghost before = Wanting { v: self@, wanted: views(wanted@) };
            let ask = self.handle_announced(peer, now, &h.bitmask, &h.ids[i]);
            assert(after_announced(before, peer, now, h.bitmask@, iv[i as int]) == (Wanting {
                v: self@,
                wanted: if ask {
                    before.wanted.push(iv[i as int])
                } else {
                    before.wanted
                },
            }));
            if ask {
                wanted.push(copy_bytes(h.ids[i].as_slice()));
                assert(views(wanted@) =~= before.wanted.push(iv[i as int]));
            }
            i += 1;
        }
        assert(iv.take(i as int) =~= iv);
    }

    /// Sends a packet to a peer, where it is connected.
    pub(crate) fn tell(&mut self, peer: u64, rpc: OutRpc)
        ensures
            final(self)@ == told(old(self)@, peer, rpc@),
            final(self).params == old(self).params,
            old(self).wf() ==> final(self).wf(),
    {
        if self.connected_peers.contains_key(&peer) {
            self.emit(BlossomSubEvent::Send { peer_id: peer, connection: None, rpc });
        }
    }

    /// The cached ones of the messages that a peer wants.
    fn serve(&self, ids: &Vec<Vec<u8>>) -> (r: Vec<WireMessage>)
        ensures
            wire_views(r@) == served(self@.mcache, views(ids@)),
    {
        let ghost iv = views(ids@);
        let mut out: Vec<WireMessage> = Vec::new();
        let mut i: usize = 0;
        assert(iv.take(0) =~= Seq::<Seq<u8>>::empty());
        assert(wire_views(out@) =~= Seq::<WireView>::empty());
        while i < ids.len()
            invariant
                i <= ids@.len(),
                iv == views(ids@),
                wire_views(out@) == served(self@.mcache, iv.take(i as int)),
            decreases ids@.len() - i,
        {
            proof {
                assert(iv.take(i + 1).drop_last() =~= iv.take(i as int));
                assert(iv.take(i + 1).last() == iv[i as int]);
            }
            let ghost before = wire_views(out@);
            if let Some((bitmask, data)) = self.mcache.get(&ids[i]) {
                let m = WireMessage {
                    from: Vec::new(),
                    data: copy_bytes(data),
                    seqno: Vec::new(),
                    bitmask: copy_bytes(bitmask),
                    signature: Vec::new(),
                    key: Vec::new(),
                };
                out.push(m);
                assert(wire_views(out@) =~= before.push(m@));
            }
            i += 1;
        }
        assert(iv.take(i as int) =~= iv);
        out
    }

    fn handle_gossip_control(&mut self, peer: u64, c: &Control, now: u64)
        requires
            old(self).wf(),
        ensures
            final(self)@ == after_gossip_control(old(self)@, peer, *c, now),
            final(self).wf(),
            final(self).params == old(self).params,
    {
        let ghost start = Wanting { v: self@, wanted: Seq::empty() };
        let mut wanted: Vec<Vec<u8>> = Vec::new();
        assert(views(wanted@) =~= Seq::<Seq<u8>>::empty());
        assert(c.ihave@.take(0) =~= Seq::<Ihave>::empty());
        let mut i: usize = 0;
        while i < c.ihave.len()
            invariant
                i <= c.ihave@.len(),
                self.wf(),
                self.params == old(self).params,
                (Wanting { v: self@, wanted: views(wanted@) }) == after_ihaves(
                    start,
                    peer,
                    now,
                    c.ihave@.take(i as int),
                ),
            decreases c.ihave@.len() - i,
        {
            proof {
                assert(c.ihave@.take(i + 1).drop_last() =~= c.ihave@.take(i as int));
                assert(c.ihave@.take(i + 1).last() == c.ihave@[i as int]);
            }
            self.handle_ihave(peer, now, &c.ihave[i], &mut wanted);
            i += 1;
        }
        assert(c.ihave@.take(i as int) =~= c.ihave@);
        if wanted.len() > 0 {
            self.tell(peer, OutRpc::Iwant(wanted));
        }
        let ghost mid = self@;
        let mut j: usize = 0;
        assert(c.iwant@.take(0) =~= Seq::<Vec<Vec<u8>>>::empty());
        while j < c.iwant.len()
            invariant
                j <= c.iwant@.len(),
                self.wf(),
                self.params == old(self).params,
                self@ == after_iwants(mid, peer, c.iwant@.take(j as int)),
                self@.mcache == mid.mcache,
            decreases c.iwant@.len() - j,
        {
            proof {
                assert(c.iwant@.take(j + 1).drop_last() =~= c.iwant@.take(j as int));
                assert(c.iwant@.take(j + 1).last() == c.iwant@[j as int]);
            }
            let ms = self.serve(&c.iwant[j]);
            assert(wire_views(ms@).len() == ms@.len());
            if ms.len() > 0 {
                self.tell(peer, OutRpc::Publish(ms));
            }
            j += 1;
        }
        assert(c.iwant@.take(j as int) =~= c.iwant@);
    }

    /// Takes in a control message. `score` is the sender's score.
    pub fn handle_control(&mut self, peer: u64, c: &Control, score: i64, now: u64)
        requires
            old(self).wf(),
            now + old(self).params.prune_backoff <= u64::MAX,
        ensures
            final(self)@ == after_control(old(self)@, peer, *c, score, now),
            final(self).wf(),
            final(self).params == old(self).params,
    {
        proof {
            lemma_mesh_control_frame(self@, peer, *c, score, now);
        }
        let threshold: i64 = self.params.gossip_threshold;
        self.handle_mesh_control(peer, c, score, now);
        if score >= threshold {
            self.handle_gossip_control(peer, c, now);
        }
    }

    /// Takes in a packet. `score` is the sender's score once the charges of the
    /// packet's subscriptions and messages are accounted for.
    pub fn handle_rpc(&mut self, peer: u64, rpc: &Rpc, score: i64, now: u64)
        requires
            old(self).wf(),
            now + old(self).params.prune_backoff <= u64::MAX,
        ensures
            final(self)@ == after_rpc(old(self)@, peer, *rpc, score, now),
            final(self).wf(),
            final(self).params == old(self).params,
    {
        proof {
            lemma_subscriptions_frame(self@, peer, rpc.subscriptions@);
            lemma_publishes_frame(
                after_subscriptions(self@, peer, rpc.subscriptions@),
                peer,
                rpc.publish@,
            );
        }
        self.handle_subscriptions(peer, &rpc.subscriptions);
        self.handle_publishes(peer, &rpc.publish);
        if let Some(c) = &rpc.control {
            self.handle_control(peer, c, score, now);
        }
    }
}

proof fn lemma_subscriptions_frame(v: BehaviourView, peer: u64, subs: Seq<SubOpts>)
    ensures
        after_subscriptions(v, peer, subs).params == v.params,
        after_subscriptions(v, peer, subs).mcache == v.mcache,
    decreases subs.len(),
{
    if subs.len() > 0 {
        lemma_subscriptions_frame(v, peer, subs.drop_last());
    }
}

proof fn lemma_publishes_frame(v: BehaviourView, peer: u64, ms: Seq<Incoming>)
    ensures
        after_publishes(v, peer, ms).params == v.params,
    decreases ms.len(),
{
    if ms.len() > 0 {
        lemma_publishes_frame(v, peer, ms.drop_last());
    }
}

proof fn lemma_classify_frame(v: BehaviourView, peer: u64, keys: Seq<Seq<u8>>)
    ensures
        after_classify(v, peer, keys) == (BehaviourView {
            composites: after_classify(v, peer, keys).composites,
            ..v
        }),
        after_demote(v, peer, keys) == (BehaviourView {
            composites: after_demote(v, peer, keys).composites,
            ..v
        }),
    decreases keys.len(),
{
    if keys.len() > 0 {
        lemma_classify_frame(v, peer, keys.drop_last());
    }
}

proof fn lemma_grafts_frame(s: Touched, peer: u64, score: i64, now: u64, bs: Seq<Seq<u8>>)
    ensures
        after_grafts(s, peer, score, now, bs).v.mcache == s.v.mcache,
        after_grafts(s, peer, score, now, bs).v.params == s.v.params,
        after_prunes(s, peer, bs).v.mcache == s.v.mcache,
        after_prunes(s, peer, bs).v.params == s.v.params,
    decreases bs.len(),
{
    if bs.len() > 0 {
        lemma_grafts_frame(s, peer, score, now, bs.drop_last());
        let t = after_grafts(s, peer, score, now, bs.drop_last()).v;
        let g = BehaviourView {
            mesh: with_value(
                t.mesh,
                bs.last(),
                with_item(value_or(t.mesh, bs.last(), Seq::empty()), peer),
            ),
            ..t
        };
        if let Some(keys) = value_of(t.slice_to_composite, bs.last()) {
            lemma_classify_frame(g, peer, keys);
        }
        let u = after_prunes(s, peer, bs.drop_last()).v;
        if let Some(keys) = value_of(u.slice_to_composite, bs.last()) {
            lemma_classify_frame(u, peer, keys);
        }
    }
}

proof fn lemma_rebuilt_frame(s: Rebuilding, keys: Seq<Seq<u8>>)
    ensures
        rebuilt_keys(s, keys).v.mcache == s.v.mcache,
        rebuilt_keys(s, keys).v.params == s.v.params,
    decreases keys.len(),
{
    if keys.len() > 0 {
        lemma_rebuilt_frame(s, keys.drop_last());
    }
}

proof fn lemma_rebuilt_slices_frame(s: Rebuilding, slices: Seq<Seq<u8>>)
    ensures
        rebuilt_slices(s, slices).v.mcache == s.v.mcache,
        rebuilt_slices(s, slices).v.params == s.v.params,
    decreases slices.len(),
{
    if slices.len() > 0 {
        lemma_rebuilt_slices_frame(s, slices.drop_last());
        let t = rebuilt_slices(s, slices.drop_last());
        if let Some(keys) = value_of(t.v.slice_to_composite, slices.last()) {
            lemma_rebuilt_frame(t, keys);
        }
    }
}

proof fn lemma_mesh_control_frame(v: BehaviourView, peer: u64, c: Control, score: i64, now: u64)
    ensures
        after_mesh_control(v, peer, c, score, now).mcache == v.mcache,
        after_mesh_control(v, peer, c, score, now).params == v.params,
{
    let s0 = Touched { v, composite: false };
    lemma_grafts_frame(s0, peer, score, now, views(c.graft@));
    let s1 = after_grafts(s0, peer, score, now, views(c.graft@));
    lemma_grafts_frame(s1, peer, score, now, views(c.prune@));
    let s2 = after_prunes(s1, peer, views(c.prune@));
    lemma_rebuilt_slices_frame(
        Rebuilding { v: s2.v, seen: Seq::empty() },
        views(c.graft@) + views(c.prune@),
    );
}

} // verus!
