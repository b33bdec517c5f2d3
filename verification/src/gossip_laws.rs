//! What holds of the gossip behaviour as a whole.

use vstd::prelude::*;

use crate::assoc::{
    has_key, key_index, lemma_key_index, lemma_with_item, lemma_with_items, lemma_with_value,
    lemma_without_item, lemma_without_key, value_of, value_or, with_item, with_value,
    without_item,
};
use crate::behaviour::{
    after_publish, after_subscriptions, BehaviourView, PeerClass,
    MAX_OTHER_ADVERTISERS, MAX_PENDING_IWANTS, MAX_SUBSCRIPTIONS_PER_PEER,
};
use crate::bytes::views;
use crate::control::{
    after_announced, after_classify, after_demote, after_graft, after_grafts, after_ids,
    after_ihaves, after_mesh_control, after_prune, after_prunes, after_rpc, class_of, classified,
    demoted, filled, graft_gate, members_of, rebuilt, rebuilt_keys, rebuilt_slices, Rebuilding,
    Touched, Wanting,
};
use crate::gossip::{backoff_of, CompositeView, SubsView};
use crate::wire::{Ihave, Rpc, SubOpts, ValidationResult, WireView};

verus! {

/// How many subscriptions are kept for a peer.
pub open spec fn subscription_count(subs: SubsView, peer: u64) -> nat {
    value_or(subs, peer, Seq::empty()).len()
}

/// No peer can make the router keep more subscriptions for it than the cap, whatever it
/// sends, and it leaves those of every other peer as they are.
pub proof fn law_subscriptions_stay_capped(
    v: BehaviourView,
    peer: u64,
    subs: Seq<SubOpts>,
    other: u64,
)
    requires
        subscription_count(v.peer_subscriptions, peer) <= MAX_SUBSCRIPTIONS_PER_PEER,
    ensures
        ({
            let after = after_subscriptions(v, peer, subs).peer_subscriptions;
            &&& subscription_count(after, peer) <= MAX_SUBSCRIPTIONS_PER_PEER
            &&& other != peer ==> value_of(after, other) == value_of(v.peer_subscriptions, other)
        }),
    decreases subs.len(),
{
    if subs.len() > 0 {
        law_subscriptions_stay_capped(v, peer, subs.drop_last(), other);
        let u = after_subscriptions(v, peer, subs.drop_last());
        let m = u.peer_subscriptions;
        let mine = value_or(m, peer, Seq::empty());
        let b = subs.last().bitmask@;
        mine.lemma_filter_len(|x: Seq<u8>| x != b);
        lemma_with_value(m, peer, mine, peer);
        lemma_with_value(m, peer, mine, other);
        lemma_with_value(m, peer, mine.push(b), peer);
        lemma_with_value(m, peer, mine.push(b), other);
        lemma_with_value(m, peer, without_item(mine, b), peer);
        lemma_with_value(m, peer, without_item(mine, b), other);
    }
}

/// The wanted messages are bounded, and so are the advertisers of each.
pub open spec fn iwants_bounded(v: BehaviourView) -> bool {
    &&& v.pending_iwants.len() <= MAX_PENDING_IWANTS
    &&& forall|i: int|
        0 <= i < v.pending_iwants.len() ==> (#[trigger] v.pending_iwants[i]).1.other_advertisers.len()
            <= MAX_OTHER_ADVERTISERS
}

/// Announcements cannot make the router wait for more messages than allowed, nor
/// remember more advertisers of a message.
pub proof fn law_iwants_stay_bounded(s: Wanting, peer: u64, now: u64, hs: Seq<Ihave>)
    requires
        iwants_bounded(s.v),
    ensures
        iwants_bounded(after_ihaves(s, peer, now, hs).v),
    decreases hs.len(),
{
    if hs.len() > 0 {
        law_iwants_stay_bounded(s, peer, now, hs.drop_last());
        lemma_ids_bounded(
            after_ihaves(s, peer, now, hs.drop_last()),
            peer,
            now,
            hs.last().bitmask@,
            views(hs.last().ids@),
        );
    }
}

proof fn lemma_ids_bounded(s: Wanting, peer: u64, now: u64, bitmask: Seq<u8>, ids: Seq<Seq<u8>>)
    requires
        iwants_bounded(s.v),
    ensures
        iwants_bounded(after_ids(s, peer, now, bitmask, ids).v),
    decreases ids.len(),
{
    if ids.len() > 0 {
        lemma_ids_bounded(s, peer, now, bitmask, ids.drop_last());
        let t = after_ids(s, peer, now, bitmask, ids.drop_last());
        let p = t.v.pending_iwants;
        let w = after_announced(t, peer, now, bitmask, ids.last()).v.pending_iwants;
        lemma_key_index(p, ids.last());
        assert forall|i: int| 0 <= i < w.len() implies (#[trigger] w[i]).1.other_advertisers.len()
            <= MAX_OTHER_ADVERTISERS by {
            if i < p.len() && i != key_index(p, ids.last()) {
                assert(w[i] == p[i]);
            } else if i < p.len() {
                assert(p[i].1.other_advertisers.len() <= MAX_OTHER_ADVERTISERS);
            }
        }
    }
}

/// A message is taken in once: when it comes again, nothing happens.
pub proof fn law_message_taken_once(
    v: BehaviourView,
    peer: u64,
    other: u64,
    id: Seq<u8>,
    verdict: Option<ValidationResult>,
    second: Option<ValidationResult>,
    m: WireView,
    n: WireView,
)
    ensures
        ({
            let u = after_publish(v, peer, id, verdict, m);
            after_publish(u, other, id, second, n) == u
        }),
{
    let u = after_publish(v, peer, id, verdict, m);
    if !v.seen_messages.contains(id) {
        assert(u.seen_messages[v.seen_messages.len() as int] == id);
    }
}

/// A message that came in is not waited for any more.
pub proof fn law_arrived_is_not_wanted(
    v: BehaviourView,
    peer: u64,
    id: Seq<u8>,
    verdict: Option<ValidationResult>,
    m: WireView,
)
    requires
        !v.seen_messages.contains(id),
    ensures
        !has_key(after_publish(v, peer, id, verdict, m).pending_iwants, id),
{
    lemma_without_key(v.pending_iwants, id);
}

/// A peer that asks to be grafted while its score is negative, or as a direct
/// peer, gets into no mesh.
pub proof fn law_refused_graft_keeps_mesh(s: Touched, peer: u64, score: i64, now: u64, bitmask: Seq<u8>)
    requires
        score < 0 || s.v.direct_peers.contains(peer) || (!s.v.subscriptions.contains(bitmask)
            && !has_key(s.v.slice_to_composite, bitmask)),
    ensures
        after_graft(s, peer, score, now, bitmask).v.mesh == s.v.mesh,
        after_graft(s, peer, score, now, bitmask).v.composites == s.v.composites,
{
}

/// A peer that asks again before its backoff is over is backed off anew and gets
/// into no mesh.
pub proof fn law_early_graft_extends_backoff(s: Touched, peer: u64, score: i64, now: u64, bitmask: Seq<u8>)
    requires
        s.v.subscriptions.contains(bitmask) || has_key(s.v.slice_to_composite, bitmask),
        !s.v.direct_peers.contains(peer),
        backoff_of(s.v.backoffs, bitmask, peer) is Some,
        now < backoff_of(s.v.backoffs, bitmask, peer)->Some_0,
    ensures
        ({
            let u = after_graft(s, peer, score, now, bitmask).v;
            &&& u.mesh == s.v.mesh
            &&& backoff_of(u.backoffs, bitmask, peer) == Some(
                (now + s.v.params.prune_backoff) as u64,
            )
            &&& u.charges.len() == s.v.charges.len() + 1
        }),
{
    let inner = value_or(s.v.backoffs, bitmask, Seq::empty());
    let until = (now + s.v.params.prune_backoff) as u64;
    lemma_with_value(s.v.backoffs, bitmask, with_value(inner, peer, until), bitmask);
    lemma_with_value(inner, peer, until, peer);
}

/// The mesh of a slice that was filled, and of one that was not.
pub proof fn lemma_filled(
    mesh: Seq<(Seq<u8>, Seq<u64>)>,
    slices: Seq<Seq<u8>>,
    members: Seq<u64>,
    slice: Seq<u8>,
)
    ensures
        slices.contains(slice) ==> value_of(filled(mesh, slices, members), slice) == Some(members),
        !slices.contains(slice) ==> value_of(filled(mesh, slices, members), slice) == value_of(
            mesh,
            slice,
        ),
    decreases slices.len(),
{
    if slices.len() > 0 {
        let rest = slices.drop_last();
        lemma_filled(mesh, rest, members, slice);
        lemma_with_value(filled(mesh, rest, members), slices.last(), members, slice);
        if slices.contains(slice) {
            let i = choose|i: int| 0 <= i < slices.len() && slices[i] == slice;
            if i < rest.len() {
                assert(rest[i] == slice);
            }
        } else {
            if rest.contains(slice) {
                let i = choose|i: int| 0 <= i < rest.len() && rest[i] == slice;
                assert(slices[i] == slice);
            }
            assert(slices.last() != slice) by {
                assert(slices[slices.len() - 1] == slices.last());
            }
        }
    }
}

/// Brokers bridge: once a composite was rebuilt, every one of its peers, whether
/// it subscribes to all slices or is a broker, is in the mesh of every slice.
pub proof fn law_members_in_every_slice(v: BehaviourView, key: Seq<u8>, slice: int, peer: u64)
    requires
        value_of(v.composites, key) is Some,
        0 <= slice < value_of(v.composites, key)->Some_0.slices.len(),
        ({
            let c = value_of(v.composites, key)->Some_0;
            c.same.contains(peer) || c.broker.contains(peer)
        }),
    ensures
        ({
            let c = value_of(v.composites, key)->Some_0;
            let m = value_of(rebuilt(v, key).mesh, c.slices[slice]);
            m is Some && m->Some_0.contains(peer)
        }),
{
    let c = value_of(v.composites, key)->Some_0;
    lemma_filled(v.mesh, c.slices, members_of(c), c.slices[slice]);
    lemma_with_items(c.same, c.broker, peer);
}

/// Pruning one slice of a composite demotes a peer: it is no longer among those on
/// all slices, and is a broker from then on.
pub proof fn law_prune_demotes(s: Touched, peer: u64, bitmask: Seq<u8>, key: Seq<u8>)
    requires
        value_of(s.v.slice_to_composite, bitmask) is Some,
        value_of(s.v.slice_to_composite, bitmask)->Some_0.contains(key),
        value_of(s.v.composites, key) is Some,
        value_of(s.v.composites, key)->Some_0.same.contains(peer),
    ensures
        ({
            let c = value_of(after_prune(s, peer, bitmask).v.composites, key);
            &&& c is Some
            &&& !c->Some_0.same.contains(peer)
            &&& c->Some_0.broker.contains(peer)
        }),
{
    lemma_demoted_in(s.v, peer, value_of(s.v.slice_to_composite, bitmask)->Some_0, key);
}

proof fn lemma_demoted_in(v: BehaviourView, peer: u64, keys: Seq<Seq<u8>>, key: Seq<u8>)
    requires
        value_of(v.composites, key) is Some,
        value_of(v.composites, key)->Some_0.same.contains(peer),
    ensures
        ({
            let c = value_of(after_demote(v, peer, keys).composites, key);
            let before = value_of(v.composites, key)->Some_0;
            &&& c == Some(
                if keys.contains(key) {
                    demoted(before, peer)
                } else {
                    before
                },
            )
            &&& keys.contains(key) ==> !c->Some_0.same.contains(peer) && c->Some_0.broker.contains(
                peer,
            )
        }),
    decreases keys.len(),
{
    let before = value_of(v.composites, key)->Some_0;
    lemma_without_item(before.same, peer, peer);
    lemma_with_item(before.broker, peer, peer);
    if keys.len() > 0 {
        let rest = keys.drop_last();
        lemma_demoted_in(v, peer, rest, key);
        let u = after_demote(v, peer, rest);
        let k = keys.last();
        if value_of(u.composites, k) is Some {
            lemma_with_value(
                u.composites,
                k,
                demoted(value_of(u.composites, k)->Some_0, peer),
                key,
            );
        }
        if k == key {
            assert(keys[keys.len() - 1] == key);
        } else if keys.contains(key) {
            let i = choose|i: int| 0 <= i < keys.len() && keys[i] == key;
            assert(rest[i] == key);
        } else if rest.contains(key) {
            let i = choose|i: int| 0 <= i < rest.len() && rest[i] == key;
            assert(keys[i] == key);
        }
    }
}

/// Grafting a peer that subscribes to every slice of a composite puts it among
/// those on all slices, also where it was a broker before; grafting any other one
/// makes it a broker.
pub proof fn law_graft_classifies(
    s: Touched,
    peer: u64,
    score: i64,
    now: u64,
    bitmask: Seq<u8>,
    key: Seq<u8>,
)
    requires
        graft_gate(s.v, peer, score, now, bitmask) is Accepted,
        value_of(s.v.slice_to_composite, bitmask) is Some,
        value_of(s.v.slice_to_composite, bitmask)->Some_0.contains(key),
        value_of(s.v.composites, key) is Some,
    ensures
        ({
            let before = value_of(s.v.composites, key)->Some_0;
            let c = value_of(after_graft(s, peer, score, now, bitmask).v.composites, key);
            &&& c is Some
            &&& class_of(s.v, peer, key) == PeerClass::Same ==> c->Some_0.same.contains(peer)
                && !c->Some_0.broker.contains(peer)
            &&& class_of(s.v, peer, key) == PeerClass::Broker && !before.same.contains(peer)
                ==> c->Some_0.broker.contains(peer) && !c->Some_0.same.contains(peer)
        }),
{
    let keys = value_of(s.v.slice_to_composite, bitmask)->Some_0;
    let grafted = BehaviourView {
        mesh: with_value(
            s.v.mesh,
            bitmask,
            with_item(value_or(s.v.mesh, bitmask, Seq::empty()), peer),
        ),
        ..s.v
    };
    lemma_classified_in(grafted, peer, keys, key);
}

proof fn lemma_classified_in(v: BehaviourView, peer: u64, keys: Seq<Seq<u8>>, key: Seq<u8>)
    requires
        value_of(v.composites, key) is Some,
    ensures
        ({
            let u = after_classify(v, peer, keys);
            let c = value_of(u.composites, key);
            let before = value_of(v.composites, key)->Some_0;
            &&& u.peer_subscriptions == v.peer_subscriptions
            &&& c is Some
            &&& c->Some_0.slices == before.slices
            &&& !keys.contains(key) ==> c->Some_0 == before
            &&& keys.contains(key) && class_of(v, peer, key) == PeerClass::Same
                ==> c->Some_0.same.contains(peer) && !c->Some_0.broker.contains(peer)
            &&& keys.contains(key) && class_of(v, peer, key) == PeerClass::Broker
                && !before.same.contains(peer) ==> c->Some_0.broker.contains(peer)
                && !c->Some_0.same.contains(peer)
        }),
    decreases keys.len(),
{
    if keys.len() > 0 {
        let rest = keys.drop_last();
        lemma_classified_in(v, peer, rest, key);
        let u = after_classify(v, peer, rest);
        let k = keys.last();
        let cu = value_of(u.composites, key)->Some_0;
        assert(class_of(u, peer, key) == class_of(v, peer, key));
        if value_of(u.composites, k) is Some {
            let ck = value_of(u.composites, k)->Some_0;
            lemma_with_value(
                u.composites,
                k,
                classified(ck, peer, class_of(u, peer, k)),
                key,
            );
        }
        lemma_without_item(cu.broker, peer, peer);
        lemma_with_item(cu.same, peer, peer);
        lemma_with_item(cu.broker, peer, peer);
        if k == key {
            assert(keys[keys.len() - 1] == key);
        } else if keys.contains(key) {
            let i = choose|i: int| 0 <= i < keys.len() && keys[i] == key;
            assert(rest[i] == key);
        } else if rest.contains(key) {
            let i = choose|i: int| 0 <= i < rest.len() && rest[i] == key;
            assert(keys[i] == key);
        }
    }
}

/// Is no peer of a composite among those on all slices and a broker at once?
pub open spec fn disjoint(c: CompositeView) -> bool {
    forall|p: u64| !(#[trigger] c.same.contains(p) && c.broker.contains(p))
}

/// Does a packet hold nothing but grafts and prunes?
pub open spec fn mesh_only(rpc: Rpc) -> bool {
    &&& rpc.subscriptions@.len() == 0
    &&& rpc.publish@.len() == 0
    &&& rpc.control matches Some(c) && c.ihave@.len() == 0 && c.iwant@.len() == 0
}

/// Is a packet the request to be pruned from one bitmask, and nothing else?
pub open spec fn is_prune_of(rpc: Rpc, bitmask: Seq<u8>) -> bool {
    &&& mesh_only(rpc)
    &&& rpc.control->Some_0.graft@.len() == 0
    &&& views(rpc.control->Some_0.prune@) == seq![bitmask]
}

/// Is a packet the request to be grafted on one bitmask, and nothing else?
pub open spec fn is_graft_of(rpc: Rpc, bitmask: Seq<u8>) -> bool {
    &&& mesh_only(rpc)
    &&& views(rpc.control->Some_0.graft@) == seq![bitmask]
    &&& rpc.control->Some_0.prune@.len() == 0
}

/// Is the peer in the mesh of every slice of a composite?
pub open spec fn in_every_slice(v: BehaviourView, c: CompositeView, peer: u64) -> bool {
    forall|i: int|
        0 <= i < c.slices.len() ==> value_or(
            v.mesh,
            #[trigger] c.slices[i],
            Seq::empty(),
        ).contains(peer)
}

/// A packet of grafts and prunes changes nothing beyond what these do.
proof fn lemma_mesh_only(v: BehaviourView, peer: u64, rpc: Rpc, score: i64, now: u64)
    requires
        mesh_only(rpc),
    ensures
        after_rpc(v, peer, rpc, score, now) == after_mesh_control(
            v,
            peer,
            rpc.control->Some_0,
            score,
            now,
        ),
{
}

/// The members of a rebuilt composite are in the mesh of every slice.
proof fn lemma_rebuilt_members(v: BehaviourView, key: Seq<u8>, peer: u64)
    requires
        value_of(v.composites, key) is Some,
        ({
            let c = value_of(v.composites, key)->Some_0;
            c.same.contains(peer) || c.broker.contains(peer)
        }),
    ensures
        in_every_slice(rebuilt(v, key), value_of(v.composites, key)->Some_0, peer),
{
    let c = value_of(v.composites, key)->Some_0;
    assert forall|i: int| 0 <= i < c.slices.len() implies value_or(
        rebuilt(v, key).mesh,
        #[trigger] c.slices[i],
        Seq::empty(),
    ).contains(peer) by {
        law_members_in_every_slice(v, key, i, peer);
    }
}

/// The composites of one slice, which belongs to one composite only, are rebuilt.
proof fn lemma_rebuilt_one(v: BehaviourView, slice: Seq<u8>, key: Seq<u8>, slices: Seq<Seq<u8>>)
    requires
        value_of(v.slice_to_composite, slice) == Some(seq![key]),
        slices == seq![slice],
    ensures
        rebuilt_slices(Rebuilding { v, seen: Seq::empty() }, slices).v == rebuilt(v, key),
{
    assert(slices.drop_last() =~= Seq::<Seq<u8>>::empty());
    assert(seq![key].drop_last() =~= Seq::<Seq<u8>>::empty());
    reveal_with_fuel(rebuilt_slices, 2);
    reveal_with_fuel(rebuilt_keys, 2);
}

/// Pruning one slice of a composite, from a peer that was on all of them, makes the peer
/// a broker: it is no longer among those on all slices, and stays in the mesh of every
/// slice, also of the one that was pruned.
pub proof fn law_pruned_peer_becomes_broker(
    v: BehaviourView,
    peer: u64,
    slice: Seq<u8>,
    key: Seq<u8>,
    rpc: Rpc,
    score: i64,
    now: u64,
)
    requires
        is_prune_of(rpc, slice),
        value_of(v.slice_to_composite, slice) == Some(seq![key]),
        value_of(v.composites, key) is Some,
        value_of(v.composites, key)->Some_0.same.contains(peer),
    ensures
        ({
            let before = value_of(v.composites, key)->Some_0;
            let u = after_rpc(v, peer, rpc, score, now);
            let c = value_of(u.composites, key);
            &&& c is Some
            &&& c->Some_0.slices == before.slices
            &&& c->Some_0.broker.contains(peer)
            &&& !c->Some_0.same.contains(peer)
            &&& in_every_slice(u, c->Some_0, peer)
            &&& disjoint(before) ==> disjoint(c->Some_0)
            &&& u.slice_to_composite == v.slice_to_composite
            &&& u.peer_subscriptions == v.peer_subscriptions
        }),
{
    let c = rpc.control->Some_0;
    let before = value_of(v.composites, key)->Some_0;
    let keys = seq![key];
    lemma_mesh_only(v, peer, rpc, score, now);
    assert(keys.drop_last() =~= Seq::<Seq<u8>>::empty());
    assert(seq![slice].drop_last() =~= Seq::<Seq<u8>>::empty());
    assert(views(c.graft@) =~= Seq::<Seq<u8>>::empty());
    assert(views(c.graft@) + views(c.prune@) =~= seq![slice]);
    reveal_with_fuel(after_prunes, 2);
    reveal_with_fuel(after_demote, 2);
    let d = after_demote(v, peer, keys);
    let after = demoted(before, peer);
    lemma_with_value(v.composites, key, after, key);
    lemma_rebuilt_one(d, slice, key, seq![slice]);
    lemma_without_item(before.same, peer, peer);
    lemma_with_item(before.broker, peer, peer);
    lemma_rebuilt_members(d, key, peer);
    if disjoint(before) {
        assert forall|p: u64| !(#[trigger] after.same.contains(p) && after.broker.contains(p)) by {
            lemma_without_item(before.same, peer, p);
            lemma_with_item(before.broker, peer, p);
        }
    }
}

/// Grafting one slice of a composite, for a peer that subscribes to all of them and whose
/// request passes, puts the peer among those on all slices, and it is no longer a broker.
pub proof fn law_grafted_peer_is_on_all_slices(
    v: BehaviourView,
    peer: u64,
    slice: Seq<u8>,
    key: Seq<u8>,
    rpc: Rpc,
    score: i64,
    now: u64,
)
    requires
        is_graft_of(rpc, slice),
        graft_gate(v, peer, score, now, slice) is Accepted,
        value_of(v.slice_to_composite, slice) == Some(seq![key]),
        value_of(v.composites, key) is Some,
        class_of(v, peer, key) == PeerClass::Same,
    ensures
        ({
            let before = value_of(v.composites, key)->Some_0;
            let u = after_rpc(v, peer, rpc, score, now);
            let c = value_of(u.composites, key);
            &&& c is Some
            &&& c->Some_0.slices == before.slices
            &&& c->Some_0.same.contains(peer)
            &&& !c->Some_0.broker.contains(peer)
            &&& in_every_slice(u, c->Some_0, peer)
            &&& disjoint(before) ==> disjoint(c->Some_0)
        }),
{
    let c = rpc.control->Some_0;
    let before = value_of(v.composites, key)->Some_0;
    let keys = seq![key];
    lemma_mesh_only(v, peer, rpc, score, now);
    assert(keys.drop_last() =~= Seq::<Seq<u8>>::empty());
    assert(seq![slice].drop_last() =~= Seq::<Seq<u8>>::empty());
    assert(views(c.prune@) =~= Seq::<Seq<u8>>::empty());
    assert(views(c.graft@) + views(c.prune@) =~= seq![slice]);
    reveal_with_fuel(after_grafts, 2);
    reveal_with_fuel(after_classify, 2);
    let g = BehaviourView {
        mesh: with_value(
            v.mesh,
            slice,
            with_item(value_or(v.mesh, slice, Seq::empty()), peer),
        ),
        ..v
    };
    let d = after_classify(g, peer, keys);
    assert(class_of(g, peer, key) == PeerClass::Same);
    let after = classified(before, peer, PeerClass::Same);
    lemma_with_value(v.composites, key, after, key);
    lemma_rebuilt_one(d, slice, key, seq![slice]);
    lemma_without_item(before.broker, peer, peer);
    lemma_with_item(before.same, peer, peer);
    lemma_rebuilt_members(d, key, peer);
    if disjoint(before) {
        assert forall|p: u64| !(#[trigger] after.same.contains(p) && after.broker.contains(p)) by {
            lemma_without_item(before.broker, peer, p);
            lemma_with_item(before.same, peer, p);
        }
    }
}

/// A peer that subscribes to all slices of a composite, is pruned from one, and then asks
/// to be grafted on it with success, is back among those on all slices.
pub proof fn law_graft_undoes_prune(
    v: BehaviourView,
    peer: u64,
    slice: Seq<u8>,
    key: Seq<u8>,
    prune: Rpc,
    score: i64,
    now: u64,
    graft: Rpc,
    later_score: i64,
    later: u64,
)
    requires
        is_prune_of(prune, slice),
        is_graft_of(graft, slice),
        value_of(v.slice_to_composite, slice) == Some(seq![key]),
        value_of(v.composites, key) is Some,
        value_of(v.composites, key)->Some_0.same.contains(peer),
        class_of(v, peer, key) == PeerClass::Same,
        graft_gate(
            after_rpc(v, peer, prune, score, now),
            peer,
            later_score,
            later,
            slice,
        ) is Accepted,
    ensures
        ({
            let u = after_rpc(v, peer, prune, score, now);
            let w = after_rpc(u, peer, graft, later_score, later);
            let c = value_of(w.composites, key);
            &&& c is Some
            &&& c->Some_0.same.contains(peer)
            &&& !c->Some_0.broker.contains(peer)
            &&& in_every_slice(w, c->Some_0, peer)
            &&& disjoint(value_of(v.composites, key)->Some_0) ==> disjoint(c->Some_0)
        }),
{
    law_pruned_peer_becomes_broker(v, peer, slice, key, prune, score, now);
    let u = after_rpc(v, peer, prune, score, now);
    law_grafted_peer_is_on_all_slices(u, peer, slice, key, graft, later_score, later);
}

} // verus!
