//! What publishing a message, and taking in a packet of a peer, does.

use vstd::prelude::*;

use crate::assoc::{
    lemma_value_dropped, lemma_with_item, lemma_with_value, lemma_without_item, value_of, value_or,
    with_item,
};
use crate::behaviour::{
    after_publish, after_publishes, after_subscription, after_subscriptions, forward_targets,
    BehaviourView, PeerClass, PendingView,
};
use crate::bytes::{be_nat, views};
use crate::control::{
    after_announced, after_classify, after_demote, after_graft, after_grafts, after_ids,
    after_ihaves, after_iwants, after_mesh_control, after_prune, after_prunes, after_rpc, class_of,
    served, told, Touched, Wanting,
};
use crate::global_laws::lemma_be_seq;
use crate::membership::published;
use crate::message_cache::{CacheView, CachedView};
use crate::wire::{
    ChargeView, Control, EventView, Ihave, Incoming, OutView, Rpc, SubOpts, ValidationResult,
    WireView,
};

verus! {

/// Is the event a packet to the peer that carries one published message?
pub open spec fn carries(e: EventView, peer: u64, m: WireView) -> bool {
    e matches EventView::Send { peer_id, connection, rpc } && peer_id == peer && connection is None
        && (rpc matches OutView::Publish(ms) && ms.len() == 1 && ms[0] == m)
}

/// Is the message the one that the node publishes: its data and bitmask, the node's identity
/// and sequence number, in eight bytes, and the signature and key if there are any?
pub open spec fn is_own(
    m: WireView,
    v: BehaviourView,
    bitmask: Seq<u8>,
    data: Seq<u8>,
    signature: Option<(Vec<u8>, Vec<u8>)>,
) -> bool {
    &&& m.data == data
    &&& m.bitmask == bitmask
    &&& m.from == v.local_peer_id
    &&& m.seqno.len() == 8 && be_nat(m.seqno) == v.seqno_counter
    &&& signature matches Some(s) ==> m.signature == s.0@ && m.key == s.1@
    &&& signature is None ==> m.signature.len() == 0 && m.key.len() == 0
}

/// The peers of a bitmask's mesh.
pub open spec fn members(v: BehaviourView, bitmask: Seq<u8>) -> Seq<u64> {
    match value_of(v.mesh, bitmask) {
        Some(m) => m,
        None => Seq::empty(),
    }
}

/// Publishing a message that was not seen before sends one packet with the signed message
/// to every peer of the bitmask's mesh, and to nobody else. The message is seen and cached
/// from then on, and the next one has another number. A message that was seen is not
/// published again.
pub proof fn law_publish_reaches_the_mesh(
    v: BehaviourView,
    bitmask: Seq<u8>,
    data: Seq<u8>,
    id: Seq<u8>,
    signature: Option<(Vec<u8>, Vec<u8>)>,
    source: u64,
    i: int,
    other: Seq<u8>,
)
    ensures
        ({
            let u = published(v, bitmask, data, id, signature, source);
            let mesh = members(v, bitmask);
            &&& v.seen_messages.contains(id) ==> u == v
            &&& !v.seen_messages.contains(id) ==> {
                &&& u.events.len() == v.events.len() + mesh.len()
                &&& v.events.is_prefix_of(u.events)
                &&& 0 <= i < mesh.len() ==> exists|m: WireView|
                    is_own(m, v, bitmask, data, signature) && #[trigger] carries(
                        u.events[v.events.len() + i],
                        mesh[i],
                        m,
                    )
                &&& u.seen_messages.contains(id)
                &&& value_of(u.mcache.messages, id) == Some(
                    CachedView { bitmask, data, from: source },
                )
                &&& other != id ==> value_of(u.mcache.messages, other) == value_of(
                    v.mcache.messages,
                    other,
                )
                &&& u.seqno_counter == (if v.seqno_counter == u64::MAX {
                    0
                } else {
                    v.seqno_counter + 1
                })
                &&& u == (BehaviourView {
                    events: u.events,
                    seen_messages: u.seen_messages,
                    mcache: u.mcache,
                    seqno_counter: u.seqno_counter,
                    ..v
                })
            }
        }),
{
    let u = published(v, bitmask, data, id, signature, source);
    if !v.seen_messages.contains(id) {
        let mesh = members(v, bitmask);
        assert(mesh == value_or(v.mesh, bitmask, Seq::empty()));
        let m = crate::membership::signed(
            crate::membership::unsigned(v, bitmask, data),
            signature,
        );
        lemma_be_seq(v.seqno_counter as nat);
        assert(is_own(m, v, bitmask, data, signature));
        assert(v.seen_messages.push(id).last() == id);
        lemma_with_value(v.mcache.messages, id, CachedView { bitmask, data, from: source }, id);
        lemma_with_value(v.mcache.messages, id, CachedView { bitmask, data, from: source }, other);
        if 0 <= i < mesh.len() {
            assert(carries(u.events[v.events.len() + i], mesh[i], m));
        }
    }
}

/// May the message be forwarded to the peer: is it in the bitmask's mesh, is it another than
/// the sender, and has it a connection?
pub open spec fn is_next(v: BehaviourView, bitmask: Seq<u8>, source: u64, p: u64) -> bool {
    &&& value_of(v.mesh, bitmask) matches Some(m) && m.contains(p)
    &&& p != source
    &&& value_of(v.connected_peers, p) matches Some(cs) && cs.len() > 0
}

/// A message of a peer that was not seen before is seen from then on, and no longer waited
/// for. One that its validator rejects is charged to the peer and goes no further; one that
/// is to be ignored goes no further. Any other is delivered and cached if its bitmask is
/// subscribed to, and forwarded to every connected peer of the bitmask's mesh but the
/// sender, and to nobody else. A message that was seen changes nothing.
pub proof fn law_message_is_taken_in(
    v: BehaviourView,
    peer: u64,
    id: Seq<u8>,
    verdict: Option<ValidationResult>,
    m: WireView,
    p: u64,
    k: int,
    other: Seq<u8>,
)
    ensures
        ({
            let u = after_publish(v, peer, id, verdict, m);
            let goes_on = !(verdict == Some(ValidationResult::Reject)) && !(verdict == Some(
                ValidationResult::Ignore,
            ));
            let ours = v.subscriptions.contains(m.bitmask);
            let n = v.events.len() as int;
            &&& v.seen_messages.contains(id) ==> u == v
            &&& !v.seen_messages.contains(id) ==> {
                &&& u.seen_messages.contains(id)
                &&& value_of(u.pending_iwants, id) is None
                &&& other != id ==> value_of(u.pending_iwants, other) == value_of(
                    v.pending_iwants,
                    other,
                )
                &&& v.events.is_prefix_of(u.events)
                &&& verdict == Some(ValidationResult::Reject) ==> u.charges == v.charges.push(
                    ChargeView::Invalid { peer_id: peer, bitmask: m.bitmask },
                )
                &&& verdict != Some(ValidationResult::Reject) ==> u.charges == v.charges
                &&& !goes_on ==> u.events == v.events && u.mcache == v.mcache
                &&& goes_on && ours ==> {
                    &&& u.events.len() > n
                    &&& u.events[n] == (EventView::Message {
                        propagation_source: peer,
                        message_id: id,
                        message: m,
                    })
                    &&& value_of(u.mcache.messages, id) == Some(
                        CachedView { bitmask: m.bitmask, data: m.data, from: peer },
                    )
                }
                &&& goes_on && !ours ==> u.mcache == v.mcache
                &&& goes_on && is_next(v, m.bitmask, peer, p) ==> exists|j: int|
                    n <= j < u.events.len() && #[trigger] carries(u.events[j], p, m)
                &&& n <= k < u.events.len() && !(ours && k == n) ==> exists|q: u64|
                    is_next(v, m.bitmask, peer, q) && #[trigger] carries(u.events[k], q, m)
                &&& u == (BehaviourView {
                    seen_messages: u.seen_messages,
                    pending_iwants: u.pending_iwants,
                    charges: u.charges,
                    mcache: u.mcache,
                    events: u.events,
                    ..v
                })
            }
        }),
{
    let u = after_publish(v, peer, id, verdict, m);
    let n = v.events.len() as int;
    if !v.seen_messages.contains(id) {
        assert(v.seen_messages.push(id).last() == id);
        lemma_value_dropped(v.pending_iwants, id, id);
        lemma_value_dropped(v.pending_iwants, id, other);
        lemma_with_value(
            v.mcache.messages,
            id,
            CachedView { bitmask: m.bitmask, data: m.data, from: peer },
            id,
        );
        let ours = v.subscriptions.contains(m.bitmask);
        let base = if ours {
            n + 1
        } else {
            n
        };
        if let Some(mesh) = value_of(v.mesh, m.bitmask) {
            let t = crate::behaviour::is_target(v.connected_peers, peer);
            let ts = forward_targets(v.connected_peers, mesh, peer);
            if is_next(v, m.bitmask, peer, p) {
                let i = choose|i: int| 0 <= i < mesh.len() && mesh[i] == p;
                assert(t(p));
                mesh.lemma_filter_contains(t, i);
                let j = choose|j: int| 0 <= j < ts.len() && ts[j] == p;
                if !(verdict == Some(ValidationResult::Reject)) && !(verdict == Some(
                    ValidationResult::Ignore,
                )) {
                    assert(carries(u.events[base + j], p, m));
                }
            }
            if n <= k < u.events.len() && !(ours && k == n) {
                let q = ts[k - base];
                mesh.lemma_filter_pred(t, k - base);
                mesh.lemma_filter_contains_rev(t, q);
                assert(is_next(v, m.bitmask, peer, q));
                assert(carries(u.events[k], q, m));
            }
        }
    }
}

/// The messages of a packet are taken in one by one.
pub proof fn law_messages_one_by_one(v: BehaviourView, peer: u64, ms: Seq<Incoming>, m: Incoming)
    ensures
        after_publishes(v, peer, Seq::empty()) == v,
        after_publishes(v, peer, ms.push(m)) == after_publish(
            after_publishes(v, peer, ms),
            peer,
            m.id@,
            m.verdict,
            m.message@,
        ),
{
    assert(ms.push(m).drop_last() =~= ms);
}

/// Does the peer subscribe to the bitmask, as far as is known?
pub open spec fn subscribes(v: BehaviourView, peer: u64, bitmask: Seq<u8>) -> bool {
    value_of(v.peer_subscriptions, peer) matches Some(s) && s.contains(bitmask)
}

/// How many subscriptions of the peer are known.
pub open spec fn known_subscriptions(v: BehaviourView, peer: u64) -> nat {
    match value_of(v.peer_subscriptions, peer) {
        Some(s) => s.len(),
        None => 0,
    }
}

/// A peer that announces a subscription has it from then on, and this is told, unless 256
/// others are known of it; then it is charged. A peer that takes one back has it no longer,
/// and this is told. What was so already is not told. Of other peers, and of other bitmasks,
/// nothing changes.
pub proof fn law_subscription_is_noted(
    v: BehaviourView,
    peer: u64,
    subscribe: bool,
    bitmask: Seq<u8>,
    other_peer: u64,
    other: Seq<u8>,
)
    ensures
        ({
            let u = after_subscription(v, peer, subscribe, bitmask);
            let had = subscribes(v, peer, bitmask);
            let full = known_subscriptions(v, peer) >= 256;
            &&& subscribe && !had && !full ==> subscribes(u, peer, bitmask) && u.events
                == v.events.push(EventView::Subscribed { peer_id: peer, bitmask }) && u.charges
                == v.charges
            &&& subscribe && !had && full ==> !subscribes(u, peer, bitmask) && u.events == v.events
                && u.charges == v.charges.push(ChargeView::Penalty { peer_id: peer })
            &&& subscribe && had ==> subscribes(u, peer, bitmask) && u.events == v.events
                && u.charges == v.charges
            &&& !subscribe ==> !subscribes(u, peer, bitmask) && u.charges == v.charges
            &&& !subscribe && had ==> u.events == v.events.push(
                EventView::Unsubscribed { peer_id: peer, bitmask },
            )
            &&& !subscribe && !had ==> u.events == v.events
            &&& other != bitmask ==> subscribes(u, peer, other) == subscribes(v, peer, other)
            &&& other_peer != peer ==> value_of(u.peer_subscriptions, other_peer) == value_of(
                v.peer_subscriptions,
                other_peer,
            )
            &&& u == (BehaviourView {
                peer_subscriptions: u.peer_subscriptions,
                events: u.events,
                charges: u.charges,
                ..v
            })
        }),
{
    let subs = value_or(v.peer_subscriptions, peer, Seq::empty());
    let u = after_subscription(v, peer, subscribe, bitmask);
    assert(subs == match value_of(v.peer_subscriptions, peer) {
        Some(s) => s,
        None => Seq::empty(),
    });
    let pushed = subs.push(bitmask);
    assert(pushed.last() == bitmask);
    assert(pushed.contains(bitmask));
    assert(subs.contains(other) ==> pushed.contains(other)) by {
        if subs.contains(other) {
            let i = choose|i: int| 0 <= i < subs.len() && subs[i] == other;
            assert(pushed[i] == other);
        }
    }
    if pushed.contains(other) && other != bitmask {
        let i = choose|i: int| 0 <= i < pushed.len() && pushed[i] == other;
        assert(subs[i] == other);
    }
    let gone = crate::assoc::without_item(subs, bitmask);
    lemma_without_item(subs, bitmask, bitmask);
    lemma_without_item(subs, bitmask, other);
    lemma_with_value(v.peer_subscriptions, peer, subs, peer);
    lemma_with_value(v.peer_subscriptions, peer, subs, other_peer);
    lemma_with_value(v.peer_subscriptions, peer, pushed, peer);
    lemma_with_value(v.peer_subscriptions, peer, pushed, other_peer);
    lemma_with_value(v.peer_subscriptions, peer, gone, peer);
    lemma_with_value(v.peer_subscriptions, peer, gone, other_peer);
}

/// The subscriptions of a packet are noted one by one.
pub proof fn law_subscriptions_one_by_one(v: BehaviourView, peer: u64, subs: Seq<SubOpts>, s: SubOpts)
    ensures
        after_subscriptions(v, peer, Seq::empty()) == v,
        after_subscriptions(v, peer, subs.push(s)) == after_subscription(
            after_subscriptions(v, peer, subs),
            peer,
            s.subscribe,
            s.bitmask@,
        ),
{
    assert(subs.push(s).drop_last() =~= subs);
}

/// Until when the peer is backed off on the bitmask.
pub open spec fn backed_off_until(v: BehaviourView, bitmask: Seq<u8>, peer: u64) -> Option<u64> {
    match value_of(v.backoffs, bitmask) {
        Some(m) => value_of(m, peer),
        None => None,
    }
}

/// Is the peer in the bitmask's mesh?
pub open spec fn meshed(v: BehaviourView, bitmask: Seq<u8>, peer: u64) -> bool {
    value_of(v.mesh, bitmask) matches Some(m) && m.contains(peer)
}

/// May a request of the peer to be grafted be answered at all: is the bitmask subscribed to,
/// or a slice of a composite, and is the peer no direct one?
pub open spec fn may_graft(v: BehaviourView, peer: u64, bitmask: Seq<u8>) -> bool {
    &&& v.subscriptions.contains(bitmask) || value_of(v.slice_to_composite, bitmask) is Some
    &&& !v.direct_peers.contains(peer)
}

/// Is there room for the peer in the bitmask's mesh: is the mesh below its upper bound, or
/// was the peer dialed?
pub open spec fn has_room(v: BehaviourView, peer: u64, bitmask: Seq<u8>) -> bool {
    let n = match value_of(v.mesh, bitmask) {
        Some(m) => m.len(),
        None => 0,
    };
    n < v.params.d_hi || (value_of(v.outbound_peers, bitmask) matches Some(o) && o.contains(peer))
}

/// A peer that asks to be grafted comes into the mesh exactly where it may ask, is not
/// backed off, has no negative score, and there is room. Where it may ask and is refused, it
/// is backed off from then on for the whole time; it is charged only if it was backed off
/// already. Of other peers and other bitmasks the meshes and backoffs stay.
pub proof fn law_graft_is_granted(
    s: Touched,
    peer: u64,
    score: i64,
    now: u64,
    bitmask: Seq<u8>,
    other: u64,
    other_bitmask: Seq<u8>,
)
    requires
        now + s.v.params.prune_backoff <= u64::MAX,
        !meshed(s.v, bitmask, peer),
    ensures
        ({
            let u = after_graft(s, peer, score, now, bitmask).v;
            let waits = backed_off_until(s.v, bitmask, peer) matches Some(t) && now < t;
            let granted = may_graft(s.v, peer, bitmask) && !waits && score >= 0 && has_room(
                s.v,
                peer,
                bitmask,
            );
            &&& meshed(u, bitmask, peer) <==> granted
            &&& may_graft(s.v, peer, bitmask) && !granted ==> backed_off_until(u, bitmask, peer)
                == Some((now + s.v.params.prune_backoff) as u64)
            &&& granted || !may_graft(s.v, peer, bitmask) ==> u.backoffs == s.v.backoffs
            &&& may_graft(s.v, peer, bitmask) && waits ==> u.charges == s.v.charges.push(
                ChargeView::Penalty { peer_id: peer },
            )
            &&& !(may_graft(s.v, peer, bitmask) && waits) ==> u.charges == s.v.charges
            &&& other != peer || other_bitmask != bitmask ==> meshed(u, other_bitmask, other)
                == meshed(s.v, other_bitmask, other) && backed_off_until(u, other_bitmask, other)
                == backed_off_until(s.v, other_bitmask, other)
            &&& u.events == s.v.events
            &&& u.peer_subscriptions == s.v.peer_subscriptions
        }),
{
    let v = s.v;
    let m = value_or(v.mesh, bitmask, Seq::empty());
    let grown = with_item(m, peer);
    lemma_with_item(m, peer, peer);
    lemma_with_item(m, peer, other);
    lemma_with_value(v.mesh, bitmask, grown, bitmask);
    lemma_with_value(v.mesh, bitmask, grown, other_bitmask);
    let b = value_or(v.backoffs, bitmask, Seq::empty());
    let until = (now + v.params.prune_backoff) as u64;
    lemma_with_value(b, peer, until, peer);
    lemma_with_value(b, peer, until, other);
    let b2 = crate::assoc::with_value(b, peer, until);
    lemma_with_value(v.backoffs, bitmask, b2, bitmask);
    lemma_with_value(v.backoffs, bitmask, b2, other_bitmask);
    crate::assoc::lemma_key_index_is(Seq::<(u64, u64)>::empty(), other, 0);
    let grafted = BehaviourView {
        mesh: crate::assoc::with_value(v.mesh, bitmask, grown),
        ..v
    };
    if let Some(keys) = value_of(v.slice_to_composite, bitmask) {
        lemma_moves_frame(grafted, peer, keys);
    }
}

proof fn lemma_moves_frame(v: BehaviourView, peer: u64, keys: Seq<Seq<u8>>)
    ensures
        after_classify(v, peer, keys) == (BehaviourView {
            composites: after_classify(v, peer, keys).composites,
            ..v
        }),
        after_demote(v, peer, keys) == (BehaviourView {
            composites: after_demote(v, peer, keys).composites,
            ..v
        }),
    decreases keys.len(),
{
    if keys.len() > 0 {
        lemma_moves_frame(v, peer, keys.drop_last());
    }
}

/// A peer that takes itself out of a mesh that belongs to no composite is not in it any more;
/// of other peers and other bitmasks nothing changes. In a composite no mesh changes by the
/// request itself.
pub proof fn law_prune_is_heeded(
    s: Touched,
    peer: u64,
    bitmask: Seq<u8>,
    other: u64,
    other_bitmask: Seq<u8>,
)
    ensures
        ({
            let u = after_prune(s, peer, bitmask).v;
            &&& value_of(s.v.slice_to_composite, bitmask) is None ==> !meshed(u, bitmask, peer)
            &&& value_of(s.v.slice_to_composite, bitmask) is Some ==> u.mesh == s.v.mesh
            &&& other != peer || other_bitmask != bitmask ==> meshed(u, other_bitmask, other)
                == meshed(s.v, other_bitmask, other)
            &&& u == (BehaviourView { mesh: u.mesh, composites: u.composites, ..s.v })
        }),
{
    let v = s.v;
    if let Some(keys) = value_of(v.slice_to_composite, bitmask) {
        lemma_moves_frame(v, peer, keys);
    } else if let Some(m) = value_of(v.mesh, bitmask) {
        lemma_without_item(m, peer, peer);
        lemma_without_item(m, peer, other);
        let left = crate::assoc::without_item(m, peer);
        lemma_with_value(v.mesh, bitmask, left, bitmask);
        lemma_with_value(v.mesh, bitmask, left, other_bitmask);
    }
}

/// Requests to be grafted, and to be pruned, are taken one by one.
pub proof fn law_mesh_requests_one_by_one(
    s: Touched,
    peer: u64,
    score: i64,
    now: u64,
    bs: Seq<Seq<u8>>,
    b: Seq<u8>,
)
    ensures
        after_grafts(s, peer, score, now, Seq::empty()) == s,
        after_prunes(s, peer, Seq::empty()) == s,
        after_grafts(s, peer, score, now, bs.push(b)) == after_graft(
            after_grafts(s, peer, score, now, bs),
            peer,
            score,
            now,
            b,
        ),
        after_prunes(s, peer, bs.push(b)) == after_prune(after_prunes(s, peer, bs), peer, b),
{
    assert(bs.push(b).drop_last() =~= bs);
}

/// A peer is of a composite's own kind exactly where it is known to subscribe to every slice
/// of the composite.
pub proof fn law_peer_classes(v: BehaviourView, peer: u64, key: Seq<u8>)
    ensures
        class_of(v, peer, key) == PeerClass::Same <==> (value_of(v.composites, key) matches Some(c)
            && (value_of(v.peer_subscriptions, peer) matches Some(subs) && forall|i: int|
            0 <= i < c.slices.len() ==> subs.contains(#[trigger] c.slices[i]))),
{
}

/// A message that a peer announces is asked of it exactly where it was neither seen nor asked
/// for before, and fewer than 5000 are waited for; it is then waited for from that peer. If
/// it is waited for from another peer, the announcing one is remembered, once and if fewer
/// than eight are. Of other messages nothing changes.
pub proof fn law_announcement_is_noted(
    s: Wanting,
    peer: u64,
    now: u64,
    bitmask: Seq<u8>,
    id: Seq<u8>,
    other: Seq<u8>,
)
    ensures
        ({
            let t = after_announced(s, peer, now, bitmask, id);
            let pending = value_of(s.v.pending_iwants, id);
            let asks = !s.v.seen_messages.contains(id) && pending is None
                && s.v.pending_iwants.len() < 5000;
            &&& asks ==> t.wanted == s.wanted.push(id) && value_of(t.v.pending_iwants, id) == Some(
                PendingView { asked: peer, sent_at: now, other_advertisers: Seq::empty(), bitmask },
            )
            &&& !asks ==> t.wanted == s.wanted
            &&& s.v.seen_messages.contains(id) ==> t.v == s.v
            &&& !s.v.seen_messages.contains(id) && pending is Some ==> {
                let e = pending->Some_0;
                let after = value_of(t.v.pending_iwants, id);
                let new = e.asked != peer && !e.other_advertisers.contains(peer)
                    && e.other_advertisers.len() < 8;
                &&& after is Some
                &&& new ==> after->Some_0 == (PendingView {
                    other_advertisers: e.other_advertisers.push(peer),
                    ..e
                })
                &&& !new ==> after == pending
            }
            &&& other != id ==> value_of(t.v.pending_iwants, other) == value_of(
                s.v.pending_iwants,
                other,
            )
            &&& t.v == (BehaviourView { pending_iwants: t.v.pending_iwants, ..s.v })
        }),
{
    let fresh = PendingView { asked: peer, sent_at: now, other_advertisers: Seq::empty(), bitmask };
    lemma_with_value(s.v.pending_iwants, id, fresh, id);
    lemma_with_value(s.v.pending_iwants, id, fresh, other);
    if let Some(e) = value_of(s.v.pending_iwants, id) {
        let more = PendingView { other_advertisers: e.other_advertisers.push(peer), ..e };
        lemma_with_value(s.v.pending_iwants, id, more, id);
        lemma_with_value(s.v.pending_iwants, id, more, other);
    }
}

/// Announcements are taken one by one: message by message, and list by list.
pub proof fn law_announcements_one_by_one(
    s: Wanting,
    peer: u64,
    now: u64,
    bitmask: Seq<u8>,
    ids: Seq<Seq<u8>>,
    id: Seq<u8>,
    hs: Seq<Ihave>,
    h: Ihave,
)
    ensures
        after_ids(s, peer, now, bitmask, Seq::empty()) == s,
        after_ids(s, peer, now, bitmask, ids.push(id)) == after_announced(
            after_ids(s, peer, now, bitmask, ids),
            peer,
            now,
            bitmask,
            id,
        ),
        after_ihaves(s, peer, now, Seq::empty()) == s,
        after_ihaves(s, peer, now, hs.push(h)) == after_ids(
            after_ihaves(s, peer, now, hs),
            peer,
            now,
            h.bitmask@,
            views(h.ids@),
        ),
{
    assert(ids.push(id).drop_last() =~= ids);
    assert(hs.push(h).drop_last() =~= hs);
}

/// Of the messages that a peer asks for, those that are cached are served, in order, with
/// their data and bitmask.
pub proof fn law_cached_messages_are_served(c: CacheView, ids: Seq<Seq<u8>>, id: Seq<u8>)
    ensures
        served(c, Seq::empty()) == Seq::<WireView>::empty(),
        value_of(c.messages, id) is None ==> served(c, ids.push(id)) == served(c, ids),
        value_of(c.messages, id) matches Some(m) ==> {
            let s = served(c, ids.push(id));
            &&& s.len() == served(c, ids).len() + 1
            &&& served(c, ids).is_prefix_of(s)
            &&& s.last().data == m.data
            &&& s.last().bitmask == m.bitmask
            &&& s.last().from.len() == 0 && s.last().seqno.len() == 0 && s.last().signature.len()
                == 0 && s.last().key.len() == 0
        },
{
    assert(ids.push(id).drop_last() =~= ids);
}

/// Each request for messages of a connected peer is answered with one packet, if any of the
/// messages is cached; and what is wanted of a connected peer is asked for with one packet.
pub proof fn law_requests_are_answered(
    v: BehaviourView,
    peer: u64,
    ws: Seq<Vec<Vec<u8>>>,
    w: Vec<Vec<u8>>,
    rpc: OutView,
)
    requires
        value_of(v.connected_peers, peer) is Some,
    ensures
        after_iwants(v, peer, Seq::empty()) == v,
        ({
            let before = after_iwants(v, peer, ws);
            let after = after_iwants(v, peer, ws.push(w));
            let ms = served(v.mcache, views(w@));
            &&& ms.len() == 0 ==> after == before
            &&& ms.len() > 0 ==> after == (BehaviourView {
                events: before.events.push(
                    EventView::Send { peer_id: peer, connection: None, rpc: OutView::Publish(ms) },
                ),
                ..before
            })
        }),
        told(v, peer, rpc) == (BehaviourView {
            events: v.events.push(EventView::Send { peer_id: peer, connection: None, rpc }),
            ..v
        }),
{
    assert(ws.push(w).drop_last() =~= ws);
    lemma_iwants_keep_peers(v, peer, ws);
}

proof fn lemma_iwants_keep_peers(v: BehaviourView, peer: u64, ws: Seq<Vec<Vec<u8>>>)
    ensures
        after_iwants(v, peer, ws).connected_peers == v.connected_peers,
    decreases ws.len(),
{
    if ws.len() > 0 {
        lemma_iwants_keep_peers(v, peer, ws.drop_last());
    }
}

/// A packet is taken in part by part: its subscriptions, then its messages, then its grafts
/// and prunes and, unless the peer's score is below the threshold for gossip, what it
/// announces, which is asked for at once, and what it asks for.
pub proof fn law_packet_part_by_part(v: BehaviourView, peer: u64, rpc: Rpc, score: i64, now: u64)
    ensures
        ({
            let a = after_subscriptions(v, peer, rpc.subscriptions@);
            let b = after_publishes(a, peer, rpc.publish@);
            let u = after_rpc(v, peer, rpc, score, now);
            &&& rpc.control is None ==> u == b
            &&& rpc.control matches Some(c) ==> {
                let m = after_mesh_control(b, peer, c, score, now);
                let w = after_ihaves(Wanting { v: m, wanted: Seq::empty() }, peer, now, c.ihave@);
                &&& score < b.params.gossip_threshold ==> u == m
                &&& score >= b.params.gossip_threshold && w.wanted.len() == 0 ==> u == after_iwants(
                    w.v,
                    peer,
                    c.iwant@,
                )
                &&& score >= b.params.gossip_threshold && w.wanted.len() > 0 ==> u == after_iwants(
                    told(w.v, peer, OutView::Iwant(w.wanted)),
                    peer,
                    c.iwant@,
                )
            }
        }),
{
}

/// Grafts come before prunes; and where one of them touches no composite, the meshes are as
/// these requests leave them.
pub proof fn law_grafts_before_prunes(v: BehaviourView, peer: u64, c: Control, score: i64, now: u64)
    ensures
        ({
            let g = after_grafts(Touched { v, composite: false }, peer, score, now, views(c.graft@));
            let p = after_prunes(g, peer, views(c.prune@));
            !p.composite ==> after_mesh_control(v, peer, c, score, now) == p.v
        }),
{
}

} // verus!
