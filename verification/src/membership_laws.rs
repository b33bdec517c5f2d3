//! What subscribing, unsubscribing, and the coming and going of connections do, and how
//! overdue messages are followed up.

use vstd::prelude::*;

use crate::assoc::{
    lemma_key_index, lemma_key_index_is, lemma_value_dropped, lemma_with_value, lemma_without_item,
    value_of, value_or, without_item,
};
use crate::behaviour::{BehaviourView, PendingView};
use crate::followups::{asked_again, by_peer, can_be_asked, follow_up, followed_up, next_advertiser};
use crate::membership::{
    connected_list, disconnected, has_connection, iwant_after_close, iwant_stays,
    iwants_after_close, mesh_total, meshes_without, subscribed, unsubscribed,
};
use crate::packet_laws::meshed;
use crate::wire::{ChargeView, EventView, OutView};

verus! {

/// Is the event a packet to the peer that tells it of the subscriptions?
pub open spec fn tells_subscriptions(e: EventView, peer: u64, all: Seq<Seq<u8>>) -> bool {
    e == (EventView::Send { peer_id: peer, connection: None, rpc: OutView::Subscribe(all) })
}

/// Subscribing to a bitmask adds it to the subscriptions, behind the others. New connections
/// are greeted with all of them, and every peer that has a connection is told of them at
/// once, and nobody else. A bitmask of one slice changes no mesh and no composite; one of
/// several gets its composite mesh. Subscribing again does nothing.
pub proof fn law_subscribing(
    v: BehaviourView,
    bitmask: Seq<u8>,
    slices: Seq<Seq<u8>>,
    i: int,
    k: int,
)
    ensures
        ({
            let u = subscribed(v, bitmask, slices);
            let all = v.subscriptions.push(bitmask);
            let n = v.events.len() as int;
            &&& v.subscriptions.contains(bitmask) ==> u == v
            &&& !v.subscriptions.contains(bitmask) ==> {
                &&& u.subscriptions == all
                &&& u.greeting == Some(all)
                &&& v.events.is_prefix_of(u.events)
                &&& 0 <= i < v.connected_peers.len() && v.connected_peers[i].1.len() > 0
                    ==> exists|j: int|
                    n <= j < u.events.len() && #[trigger] tells_subscriptions(
                        u.events[j],
                        v.connected_peers[i].0,
                        all,
                    )
                &&& n <= k < u.events.len() ==> exists|j: int|
                    0 <= j < v.connected_peers.len() && (
                    #[trigger] v.connected_peers[j]).1.len() > 0 && tells_subscriptions(
                        u.events[k],
                        v.connected_peers[j].0,
                        all,
                    )
                &&& slices.len() <= 1 ==> u.mesh == v.mesh && u.composites == v.composites
                    && u.slice_to_composite == v.slice_to_composite
                &&& slices.len() > 1 ==> value_of(u.composites, bitmask) is Some
            }
        }),
{
    let u = subscribed(v, bitmask, slices);
    let all = v.subscriptions.push(bitmask);
    let n = v.events.len() as int;
    if !v.subscriptions.contains(bitmask) {
        let noted = crate::membership::greeted(
            BehaviourView { subscriptions: all, ..v },
        );
        let e = crate::gossip::composite_of(
            noted.peer_subscriptions,
            noted.backoffs,
            crate::gossip::BackoffRule::AnyEntry,
            bitmask,
            slices,
            noted.params.d as nat,
        );
        lemma_with_value(noted.composites, bitmask, e, bitmask);
        let p = has_connection();
        let list = v.connected_peers.filter(p);
        let to = connected_list(v.connected_peers);
        if 0 <= i < v.connected_peers.len() && v.connected_peers[i].1.len() > 0 {
            v.connected_peers.lemma_filter_contains(p, i);
            let j = choose|j: int| 0 <= j < list.len() && list[j] == v.connected_peers[i];
            assert(to[j] == v.connected_peers[i].0);
            assert(tells_subscriptions(u.events[n + j], v.connected_peers[i].0, all));
        }
        if n <= k < u.events.len() {
            let x = list[k - n];
            v.connected_peers.lemma_filter_pred(p, k - n);
            v.connected_peers.lemma_filter_contains_rev(p, x);
            let j = choose|j: int| 0 <= j < v.connected_peers.len() && v.connected_peers[j] == x;
            assert(tells_subscriptions(u.events[k], v.connected_peers[j].0, all));
            assert(v.connected_peers[j].1.len() > 0);
        }
    }
}

/// Unsubscribing from a bitmask takes it out of the subscriptions and of the greeting, which
/// there is none of without subscriptions. If it has no composite, its mesh goes, and no
/// other mesh changes. Unsubscribing from what is not subscribed to does nothing.
pub proof fn law_unsubscribing(v: BehaviourView, bitmask: Seq<u8>, other: Seq<u8>)
    ensures
        ({
            let u = unsubscribed(v, bitmask);
            &&& !v.subscriptions.contains(bitmask) ==> u == v
            &&& v.subscriptions.contains(bitmask) ==> {
                &&& !u.subscriptions.contains(bitmask)
                &&& other != bitmask ==> u.subscriptions.contains(other)
                    == v.subscriptions.contains(other)
                &&& u.greeting == (if u.subscriptions.len() == 0 {
                    None
                } else {
                    Some(u.subscriptions)
                })
                &&& value_of(v.composites, bitmask) is None ==> value_of(u.mesh, bitmask) is None
                    && (other != bitmask ==> value_of(u.mesh, other) == value_of(v.mesh, other))
                &&& value_of(u.composites, bitmask) is None
                &&& u.events == v.events
                &&& u.connected_peers == v.connected_peers
                &&& u.peer_subscriptions == v.peer_subscriptions
            }
        }),
{
    if v.subscriptions.contains(bitmask) {
        lemma_without_item(v.subscriptions, bitmask, bitmask);
        lemma_without_item(v.subscriptions, bitmask, other);
        lemma_value_dropped(v.mesh, bitmask, bitmask);
        lemma_value_dropped(v.mesh, bitmask, other);
        lemma_value_dropped(v.composites, bitmask, bitmask);
        let gone = BehaviourView {
            subscriptions: without_item(v.subscriptions, bitmask),
            mesh: crate::assoc::without_key(v.mesh, bitmask),
            ..v
        };
        if let Some(c) = value_of(v.composites, bitmask) {
            lemma_released_only_meshes(
                BehaviourView {
                    composites: crate::assoc::without_key(gone.composites, bitmask),
                    slice_to_composite: crate::membership::unindexed(
                        gone.slice_to_composite,
                        c.slices,
                        bitmask,
                    ),
                    ..gone
                },
                c.slices,
            );
        }
    }
}

proof fn lemma_released_only_meshes(v: BehaviourView, slices: Seq<Seq<u8>>)
    ensures
        crate::membership::released(v, slices) == (BehaviourView {
            mesh: crate::membership::released(v, slices).mesh,
            ..v
        }),
    decreases slices.len(),
{
    if slices.len() > 0 {
        lemma_released_only_meshes(v, slices.drop_last());
    }
}

proof fn lemma_meshes_without(mesh: Seq<(Seq<u8>, Seq<u64>)>, peer: u64, bitmask: Seq<u8>)
    ensures
        value_of(meshes_without(mesh, peer), bitmask) == match value_of(mesh, bitmask) {
            Some(m) => Some(without_item(m, peer)),
            None => None,
        },
{
    lemma_key_index(mesh, bitmask);
    lemma_key_index_is(
        meshes_without(mesh, peer),
        bitmask,
        crate::assoc::key_index(mesh, bitmask),
    );
}

/// Closing one of several connections of a peer leaves the others, and nothing else changes.
/// With its last connection a peer is connected no longer, its subscriptions are forgotten,
/// and it is in no mesh any more; every other peer stays where it is.
pub proof fn law_disconnecting(
    v: BehaviourView,
    peer: u64,
    connection: u64,
    now: u64,
    other: u64,
    bitmask: Seq<u8>,
)
    ensures
        ({
            let u = disconnected(v, peer, connection, now);
            let cs = value_of(v.connected_peers, peer);
            let last = cs is Some && forall|c: u64|
                cs->Some_0.contains(c) ==> c == connection;
            &&& cs is None ==> u == v
            &&& cs is Some && !last ==> {
                &&& value_of(u.connected_peers, peer) matches Some(ds) && forall|c: u64|
                    #![trigger ds.contains(c)]
                    ds.contains(c) <==> cs->Some_0.contains(c) && c != connection
                &&& u == (BehaviourView { connected_peers: u.connected_peers, ..v })
            }
            &&& last ==> {
                &&& value_of(u.connected_peers, peer) is None
                &&& value_of(u.peer_subscriptions, peer) is None
                &&& !meshed(u, bitmask, peer)
                &&& other != peer ==> meshed(u, bitmask, other) == meshed(v, bitmask, other)
                    && value_of(u.peer_subscriptions, other) == value_of(
                    v.peer_subscriptions,
                    other,
                )
                &&& u.events == v.events
                &&& u.charges == v.charges
                &&& now >= v.params.iwant_followup_time ==> u.pending_iwants == iwants_after_close(
                    v.pending_iwants,
                    peer,
                    (now - v.params.iwant_followup_time) as u64,
                )
            }
            &&& other != peer ==> value_of(u.connected_peers, other) == value_of(
                v.connected_peers,
                other,
            )
        }),
{
    let u = disconnected(v, peer, connection, now);
    if let Some(cs) = value_of(v.connected_peers, peer) {
        let left = without_item(cs, connection);
        assert forall|c: u64| #[trigger] left.contains(c) <==> cs.contains(c) && c
            != connection by {
            lemma_without_item(cs, connection, c);
        }
        if left.len() > 0 {
            assert(left.contains(left[0]));
            assert(cs.contains(left[0]) && left[0] != connection);
        } else {
            assert forall|c: u64| cs.contains(c) implies c == connection by {
                if c != connection {
                    assert(left.contains(c));
                }
            }
        }
        lemma_with_value(v.connected_peers, peer, left, peer);
        lemma_with_value(v.connected_peers, peer, left, other);
        let w = crate::assoc::with_value(v.connected_peers, peer, left);
        lemma_value_dropped(w, peer, peer);
        lemma_value_dropped(w, peer, other);
        lemma_value_dropped(v.peer_subscriptions, peer, peer);
        lemma_value_dropped(v.peer_subscriptions, peer, other);
        lemma_meshes_without(v.mesh, peer, bitmask);
        if let Some(m) = value_of(v.mesh, bitmask) {
            lemma_without_item(m, peer, peer);
            lemma_without_item(m, peer, other);
        }
    }
}

/// When a peer is gone, a message that it was asked for is given up if no other peer has
/// announced it; otherwise it counts as overdue at once. A message that another peer was
/// asked for is no longer to be had from the one that is gone. No other message is given up.
pub proof fn law_wanted_messages_of_a_gone_peer(
    s: Seq<(Seq<u8>, PendingView)>,
    peer: u64,
    expired: u64,
    i: int,
    k: int,
)
    ensures
        ({
            let t = iwants_after_close(s, peer, expired);
            &&& 0 <= i < s.len() && s[i].1.asked == peer && s[i].1.other_advertisers.len() > 0
                ==> t.contains((s[i].0, PendingView { sent_at: expired, ..s[i].1 }))
            &&& 0 <= i < s.len() && s[i].1.asked != peer ==> t.contains(
                (
                    s[i].0,
                    PendingView {
                        other_advertisers: without_item(s[i].1.other_advertisers, peer),
                        ..s[i].1
                    },
                ),
            )
            &&& 0 <= k < t.len() ==> exists|j: int|
                0 <= j < s.len() && (#[trigger] s[j]).0 == t[k].0 && !(s[j].1.asked == peer
                    && s[j].1.other_advertisers.len() == 0)
        }),
{
    let p = iwant_stays(peer);
    let mapped = Seq::new(
        s.len(),
        |j: int| (s[j].0, iwant_after_close(s[j].1, peer, expired)),
    );
    let t = iwants_after_close(s, peer, expired);
    if 0 <= i < s.len() && (s[i].1.asked != peer || s[i].1.other_advertisers.len() > 0) {
        assert(p(mapped[i]));
        mapped.lemma_filter_contains(p, i);
    }
    if 0 <= k < t.len() {
        mapped.lemma_filter_pred(p, k);
        mapped.lemma_filter_contains_rev(p, t[k]);
        let j = choose|j: int| 0 <= j < mapped.len() && mapped[j] == t[k];
        assert(s[j].0 == t[k].0);
    }
}

/// May the peer be asked in place of the one that was: is it connected, and another one?
pub open spec fn able(connected: Seq<(u64, Seq<u64>)>, e: PendingView, p: u64) -> bool {
    &&& e.other_advertisers.contains(p)
    &&& value_of(connected, p) is Some
    &&& p != e.asked
}

proof fn lemma_next(connected: Seq<(u64, Seq<u64>)>, e: PendingView, p: u64)
    ensures
        next_advertiser(connected, e) matches Some(q) ==> able(connected, e, q),
        next_advertiser(connected, e) is None ==> !able(connected, e, p),
{
    let f = can_be_asked(connected, e.asked);
    let list = e.other_advertisers.filter(f);
    if list.len() > 0 {
        e.other_advertisers.lemma_filter_pred(f, 0);
        e.other_advertisers.lemma_filter_contains_rev(f, list[0]);
    } else if able(connected, e, p) {
        let i = choose|i: int| 0 <= i < e.other_advertisers.len() && e.other_advertisers[i] == p;
        e.other_advertisers.lemma_filter_contains(f, i);
    }
}

/// Wanted messages are followed up one by one. One that was asked for less than the given
/// time ago stays as it is. For one that is overdue the peer that was asked is charged;
/// another peer that announced it and is connected is asked instead, and does not count as a
/// further one any more; if there is none, the message is given up.
pub proof fn law_overdue_messages(
    pending: Seq<(Seq<u8>, PendingView)>,
    connected: Seq<(u64, Seq<u64>)>,
    now: u64,
    timeout: u64,
    id: Seq<u8>,
    e: PendingView,
    p: u64,
)
    ensures
        ({
            let a = follow_up(pending, connected, now, timeout);
            let b = follow_up(pending.push((id, e)), connected, now, timeout);
            let late = (if now >= e.sent_at {
                now - e.sent_at
            } else {
                0
            }) >= timeout;
            &&& !late ==> b.pending == a.pending.push((id, e)) && b.late == a.late && b.retries
                == a.retries
            &&& late ==> b.late == a.late.push(
                ChargeView::Invalid { peer_id: e.asked, bitmask: Seq::empty() },
            )
            &&& late && (exists|q: u64| able(connected, e, q)) ==> exists|q: u64|
                #![trigger able(connected, e, q)]
                able(connected, e, q) && b.retries == a.retries.push((q, id)) && b.pending
                    == a.pending.push(
                    (
                        id,
                        PendingView {
                            asked: q,
                            sent_at: now,
                            other_advertisers: without_item(e.other_advertisers, q),
                            ..e
                        },
                    ),
                )
            &&& late && !(exists|q: u64| able(connected, e, q)) ==> b.retries == a.retries
                && b.pending == a.pending
        }),
        ({
            let none = follow_up(Seq::empty(), connected, now, timeout);
            none.pending.len() == 0 && none.late.len() == 0 && none.retries.len() == 0
        }),
{
    assert(pending.push((id, e)).drop_last() =~= pending);
    if exists|q: u64| able(connected, e, q) {
        let q = choose|q: u64| able(connected, e, q);
        lemma_next(connected, e, q);
        assert(next_advertiser(connected, e) is Some);
    } else {
        lemma_next(connected, e, p);
    }
}

/// What is to be asked for again is gathered by peer: one more message stands behind those
/// of its peer, and nothing changes for the others.
pub proof fn law_retries_by_peer(retries: Seq<(u64, Seq<u8>)>, p: u64, id: Seq<u8>, other: u64)
    ensures
        by_peer(Seq::empty()).len() == 0,
        value_of(by_peer(retries.push((p, id))), p) == Some(
            match value_of(by_peer(retries), p) {
                Some(l) => l.push(id),
                None => seq![id],
            },
        ),
        other != p ==> value_of(by_peer(retries.push((p, id))), other) == value_of(
            by_peer(retries),
            other,
        ),
{
    assert(retries.push((p, id)).drop_last() =~= retries);
    let before = by_peer(retries);
    let l = value_or(before, p, Seq::empty()).push(id);
    lemma_with_value(before, p, l, p);
    lemma_with_value(before, p, l, other);
    assert(Seq::<Seq<u8>>::empty().push(id) =~= seq![id]);
}

/// A follow-up charges those that did not deliver, keeps what is still wanted, and asks each
/// of the connected peers that are asked instead with one packet.
pub proof fn law_followed_up(v: BehaviourView, now: u64, groups: Seq<(u64, Seq<Seq<u8>>)>, g: (u64, Seq<Seq<u8>>))
    ensures
        ({
            let f = follow_up(v.pending_iwants, v.connected_peers, now, v.params.iwant_followup_time);
            let u = followed_up(v, now);
            &&& u.charges == v.charges + f.late
            &&& u.pending_iwants == f.pending
            &&& u.events == asked_again(v, by_peer(f.retries)).events
            &&& u == (BehaviourView {
                charges: u.charges,
                pending_iwants: u.pending_iwants,
                events: u.events,
                ..v
            })
        }),
        asked_again(v, Seq::empty()) == v,
        value_of(v.connected_peers, g.0) is Some ==> asked_again(v, groups.push(g)).events
            == asked_again(v, groups).events.push(
            EventView::Send { peer_id: g.0, connection: None, rpc: OutView::Iwant(g.1) },
        ),
        value_of(v.connected_peers, g.0) is None ==> asked_again(v, groups.push(g)).events
            == asked_again(v, groups).events,
{
    assert(groups.push(g).drop_last() =~= groups);
    let f = follow_up(v.pending_iwants, v.connected_peers, now, v.params.iwant_followup_time);
    let w = BehaviourView { pending_iwants: f.pending, charges: v.charges + f.late, ..v };
    lemma_asked_again(v, v, groups);
    lemma_asked_again(w, v, by_peer(f.retries));
}

proof fn lemma_asked_again(a: BehaviourView, b: BehaviourView, groups: Seq<(u64, Seq<Seq<u8>>)>)
    requires
        a.events == b.events,
        a.connected_peers == b.connected_peers,
    ensures
        asked_again(a, groups).events == asked_again(b, groups).events,
        asked_again(a, groups) == (BehaviourView { events: asked_again(a, groups).events, ..a }),
        asked_again(b, groups) == (BehaviourView { events: asked_again(b, groups).events, ..b }),
    decreases groups.len(),
{
    if groups.len() > 0 {
        lemma_asked_again(a, b, groups.drop_last());
    }
}

/// The places in all meshes together are counted mesh by mesh.
pub proof fn law_mesh_total(mesh: Seq<(Seq<u8>, Seq<u64>)>, e: (Seq<u8>, Seq<u64>))
    ensures
        mesh_total(Seq::empty()) == 0,
        mesh_total(mesh.push(e)) == mesh_total(mesh) + e.1.len(),
{
    assert(mesh.push(e).drop_last() =~= mesh);
}

} // verus!
