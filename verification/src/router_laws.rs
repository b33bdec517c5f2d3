//! What joining a mesh, and a heartbeat, do to the router, how a composite mesh is put
//! together, and which messages are gossiped about.

use vstd::prelude::*;

use crate::assoc::{
    has_key, lemma_value_dropped, lemma_with_items, lemma_with_value, value_of, value_or,
};
use crate::beat_laws::{law_choosing, lemma_chosen_distinct, lemma_grown, may_be_chosen};
use crate::blossomsub::{
    beat, first_mesh, joined_composite, joined_entry, joined_simple, lemma_with_items_len,
    mesh_candidate, mesh_step, MeshParams, MeshView,
};
use crate::gossip::{backoff_of, composite_of, keys_of, BackoffRule, BackoffsView, SubsView};
use crate::message_cache::{CacheView, CachedView};

verus! {

/// Is the peer backed off on the bitmask by the rule?
pub open spec fn held_back(b: BackoffsView, rule: BackoffRule, bitmask: Seq<u8>, peer: u64) -> bool {
    match rule {
        BackoffRule::Ignored => false,
        BackoffRule::AnyEntry => backoff_of(b, bitmask, peer) is Some,
        BackoffRule::LiveAt(now) => backoff_of(b, bitmask, peer) matches Some(t) && t > now,
    }
}

/// Is the peer known to subscribe to every slice, and not held back?
pub open spec fn on_every_slice(
    subs: SubsView,
    b: BackoffsView,
    rule: BackoffRule,
    bitmask: Seq<u8>,
    slices: Seq<Seq<u8>>,
    p: u64,
) -> bool {
    !held_back(b, rule, bitmask, p) && exists|i: int|
        0 <= i < subs.len() && (#[trigger] subs[i]).0 == p && forall|k: int|
            0 <= k < slices.len() ==> subs[i].1.contains(#[trigger] slices[k])
}

/// Is the peer known to subscribe to one of the slices, and not held back?
pub open spec fn on_some_slice(
    subs: SubsView,
    b: BackoffsView,
    rule: BackoffRule,
    bitmask: Seq<u8>,
    slices: Seq<Seq<u8>>,
    p: u64,
) -> bool {
    !held_back(b, rule, bitmask, p) && exists|i: int|
        0 <= i < subs.len() && (#[trigger] subs[i]).0 == p && exists|k: int|
            0 <= k < slices.len() && subs[i].1.contains(#[trigger] slices[k])
}

/// A composite mesh is made of up to `d` peers that subscribe to every slice and, where these
/// are fewer, of peers that subscribe to some slice until there are `d`. If it has fewer than
/// `d`, nobody was left out.
pub proof fn law_composite_is_made(
    subs: SubsView,
    b: BackoffsView,
    rule: BackoffRule,
    bitmask: Seq<u8>,
    slices: Seq<Seq<u8>>,
    d: nat,
    p: u64,
)
    ensures
        ({
            let c = composite_of(subs, b, rule, bitmask, slices, d);
            let all = on_every_slice(subs, b, rule, bitmask, slices, p);
            let some = on_some_slice(subs, b, rule, bitmask, slices, p);
            &&& c.bitmask == bitmask
            &&& c.slices == slices
            &&& c.same.len() + c.broker.len() <= d
            &&& c.same.contains(p) ==> all
            &&& c.same.len() < d && all ==> c.same.contains(p)
            &&& c.broker.contains(p) ==> some && !c.same.contains(p)
            &&& c.same.len() + c.broker.len() < d && some ==> c.same.contains(p)
                || c.broker.contains(p)
        }),
{
    let c = composite_of(subs, b, rule, bitmask, slices, d);
    let f = |e: (u64, Seq<Seq<u8>>)|
        !crate::gossip::blocks(rule, backoff_of(b, bitmask, e.0)) && crate::gossip::on_all(
            e.1,
            slices,
        );
    let same = crate::gossip::at_most(keys_of(subs.filter(f)), d);
    assert(same == c.same);
    let g = |e: (u64, Seq<Seq<u8>>)|
        !same.contains(e.0) && !crate::gossip::blocks(rule, backoff_of(b, bitmask, e.0))
            && crate::gossip::on_any(e.1, slices);
    let broker = crate::gossip::at_most(keys_of(subs.filter(g)), (d - same.len()) as nat);
    assert(broker == c.broker);
    if c.same.contains(p) {
        let k = choose|k: int| 0 <= k < c.same.len() && c.same[k] == p;
        subs.lemma_filter_pred(f, k);
        subs.lemma_filter_contains_rev(f, subs.filter(f)[k]);
        let i = choose|i: int| 0 <= i < subs.len() && subs[i] == subs.filter(f)[k];
        assert(subs[i].0 == p);
    }
    if c.same.len() < d && on_every_slice(subs, b, rule, bitmask, slices, p) {
        let i = choose|i: int|
            0 <= i < subs.len() && (#[trigger] subs[i]).0 == p && forall|k: int|
                0 <= k < slices.len() ==> subs[i].1.contains(#[trigger] slices[k]);
        assert(f(subs[i]));
        subs.lemma_filter_contains(f, i);
        let k = choose|k: int| 0 <= k < subs.filter(f).len() && subs.filter(f)[k] == subs[i];
        assert(c.same[k] == p);
    }
    if c.broker.contains(p) {
        let k = choose|k: int| 0 <= k < c.broker.len() && c.broker[k] == p;
        subs.lemma_filter_pred(g, k);
        subs.lemma_filter_contains_rev(g, subs.filter(g)[k]);
        let i = choose|i: int| 0 <= i < subs.len() && subs[i] == subs.filter(g)[k];
        assert(subs[i].0 == p);
        let j = choose|j: int| 0 <= j < slices.len() && subs[i].1.contains(#[trigger] slices[j]);
        assert(subs[i].1.contains(slices[j]));
    }
    if c.same.len() + c.broker.len() < d && on_some_slice(subs, b, rule, bitmask, slices, p)
        && !c.same.contains(p) {
        let i = choose|i: int|
            0 <= i < subs.len() && (#[trigger] subs[i]).0 == p && exists|k: int|
                0 <= k < slices.len() && subs[i].1.contains(#[trigger] slices[k]);
        let j = choose|j: int| 0 <= j < slices.len() && subs[i].1.contains(#[trigger] slices[j]);
        assert(subs[i].1.contains(slices[j]));
        assert(g(subs[i]));
        subs.lemma_filter_contains(g, i);
        let k = choose|k: int| 0 <= k < subs.filter(g).len() && subs.filter(g)[k] == subs[i];
        assert(c.broker[k] == p);
    }
}

/// A router that joins a mesh of one slice takes its fanout's peers, up to `d`, and then
/// peers that subscribe and are not backed off until there are `d`, or all there are. The
/// bitmask has no fanout any more; a mesh that was joined already stays as it is.
pub proof fn law_router_joins(
    v: MeshView,
    d: nat,
    bitmask: Seq<u8>,
    now: u64,
    i: int,
    p: u64,
    other: Seq<u8>,
)
    ensures
        ({
            let u = joined_simple(v, d, bitmask, now);
            let fan = match value_of(v.fanout, bitmask) {
                Some(f) => f,
                None => Seq::empty(),
            };
            let m = value_of(u.mesh, bitmask);
            let apt = exists|k: int|
                0 <= k < v.peer_subscriptions.len() && (#[trigger] v.peer_subscriptions[k]).0 == p
                    && v.peer_subscriptions[k].1.contains(bitmask) && !(backoff_of(
                    v.backoff,
                    bitmask,
                    p,
                ) matches Some(t) && t > now);
            &&& value_of(v.mesh, bitmask) is Some ==> u == v
            &&& value_of(v.mesh, bitmask) is None ==> {
                &&& m is Some
                &&& m->Some_0.len() <= d
                &&& 0 <= i < fan.len() && i < d ==> m->Some_0.contains(fan[i])
                &&& m->Some_0.contains(p) ==> fan.contains(p) || apt
                &&& m->Some_0.len() < d && apt && (forall|a: int, c: int|
                    0 <= a < c < v.peer_subscriptions.len() ==> (
                    #[trigger] v.peer_subscriptions[a]).0 != (#[trigger] v.peer_subscriptions[c]).0)
                    ==> m->Some_0.contains(p)
                &&& value_of(u.fanout, bitmask) is None
                &&& other != bitmask ==> value_of(u.mesh, other) == value_of(v.mesh, other)
                    && value_of(u.fanout, other) == value_of(v.fanout, other)
                &&& u == (MeshView { mesh: u.mesh, fanout: u.fanout, ..v })
            }
        }),
{
    let fan = value_or(v.fanout, bitmask, Seq::empty());
    let from = crate::gossip::at_most(fan, d);
    let w = mesh_candidate(v.backoff, bitmask, from, now);
    let n = (d - from.len()) as nat;
    let c = crate::gossip::chosen(v.peer_subscriptions, w, n);
    let m = first_mesh(v, d, bitmask, now);
    lemma_with_value(v.mesh, bitmask, m, bitmask);
    lemma_with_value(v.mesh, bitmask, m, other);
    lemma_value_dropped(v.fanout, bitmask, bitmask);
    lemma_value_dropped(v.fanout, bitmask, other);
    law_choosing(v.peer_subscriptions, w, n, p);
    lemma_with_items(from, c, p);
    lemma_with_items_len(from, c);
    if 0 <= i < fan.len() && i < d {
        assert(from[i] == fan[i]);
        lemma_with_items(from, c, fan[i]);
    }
    if from.contains(p) {
        let k = choose|k: int| 0 <= k < from.len() && from[k] == p;
        assert(fan[k] == p);
    }
    if exists|k: int|
        0 <= k < v.peer_subscriptions.len() && (#[trigger] v.peer_subscriptions[k]).0 == p
            && v.peer_subscriptions[k].1.contains(bitmask) && !(backoff_of(
            v.backoff,
            bitmask,
            p,
        ) matches Some(t) && t > now) {
        if !from.contains(p) {
            assert(may_be_chosen(v.peer_subscriptions, w, p));
        }
    }
    if forall|a: int, c: int|
        0 <= a < c < v.peer_subscriptions.len() ==> (#[trigger] v.peer_subscriptions[a]).0 != (
        #[trigger] v.peer_subscriptions[c]).0 {
        lemma_chosen_distinct(v.peer_subscriptions, w, n);
        assert forall|k: int| 0 <= k < c.len() implies !from.contains(#[trigger] c[k]) by {
            law_choosing(v.peer_subscriptions, w, n, c[k]);
            assert(c.contains(c[k]));
        }
        lemma_grown(from, c);
    }
}

/// A router that joins a bitmask of several slices keeps the composite that is made of the
/// peers that it knows, and notes it for each slice; its meshes stay.
pub proof fn law_router_joins_a_composite(
    v: MeshView,
    d: nat,
    bitmask: Seq<u8>,
    slices: Seq<Seq<u8>>,
    now: u64,
    other: Seq<u8>,
    s: Seq<u8>,
)
    ensures
        ({
            let u = joined_composite(v, d, bitmask, slices, now);
            &&& value_of(u.composites, bitmask) == Some(
                composite_of(
                    v.peer_subscriptions,
                    v.backoff,
                    BackoffRule::LiveAt(now),
                    bitmask,
                    slices,
                    d,
                ),
            )
            &&& other != bitmask ==> value_of(u.composites, other) == value_of(v.composites, other)
            &&& slices.contains(s) ==> (value_of(u.slice_to_composite, s) matches Some(l)
                && l.contains(bitmask))
            &&& !slices.contains(s) ==> value_of(u.slice_to_composite, s) == value_of(
                v.slice_to_composite,
                s,
            )
            &&& u.mesh == v.mesh
        }),
{
    let e = joined_entry(v, d, bitmask, slices, now);
    lemma_with_value(v.composites, bitmask, e, bitmask);
    lemma_with_value(v.composites, bitmask, e, other);
    crate::composite_laws::lemma_indexed(v.slice_to_composite, slices, bitmask, s);
}

/// How many places of a mesh are those of peers that are still tracked.
pub open spec fn tracked_count(v: MeshView, peers: Seq<u64>) -> nat
    decreases peers.len(),
{
    if peers.len() == 0 {
        0
    } else {
        tracked_count(v, peers.drop_last()) + if value_of(v.peers, peers.last()) is Some {
            1nat
        } else {
            0nat
        }
    }
}

proof fn lemma_tracked(v: MeshView, peers: Seq<u64>)
    ensures
        peers.filter(|p: u64| has_key(v.peers, p)).len() == tracked_count(v, peers),
    decreases peers.len(),
{
    reveal(Seq::filter);
    if peers.len() > 0 {
        lemma_tracked(v, peers.drop_last());
    }
}

/// At a router's heartbeat the peers of a mesh that are not tracked any more leave it and are
/// pruned. If fewer than `d_lo` are left, peers that subscribe and are not backed off are
/// grafted until there are `d`, or all there are; if more than `d_hi`, some are pruned until
/// there are `d`; otherwise nobody else comes or goes.
pub proof fn law_router_keeps_a_mesh(
    v: MeshView,
    params: MeshParams,
    bitmask: Seq<u8>,
    now: u64,
    peers: Seq<u64>,
    p: u64,
)
    requires
        params.d_lo <= params.d + 1,
        params.d <= params.d_hi + 1,
    ensures
        ({
            let s = mesh_step(v, params, bitmask, now, peers);
            let n = tracked_count(v, peers);
            let present = value_of(v.peers, p) is Some;
            let apt = exists|k: int|
                0 <= k < v.peer_subscriptions.len() && (#[trigger] v.peer_subscriptions[k]).0 == p
                    && v.peer_subscriptions[k].1.contains(bitmask) && !(backoff_of(
                    v.backoff,
                    bitmask,
                    p,
                ) matches Some(t) && t > now);
            &&& peers.contains(p) && !present ==> s.prunes.contains(p)
            &&& s.peers.contains(p) ==> (peers.contains(p) && present) || s.grafts.contains(p)
            &&& s.prunes.contains(p) ==> peers.contains(p)
            &&& peers.contains(p) && present ==> s.peers.contains(p) || s.prunes.contains(p)
            &&& n >= params.d_lo ==> s.grafts.len() == 0
            &&& n < params.d_lo ==> {
                &&& s.grafts.len() <= params.d - n
                &&& s.grafts.len() < params.d - n && apt && !peers.contains(p)
                    ==> s.grafts.contains(p)
                &&& s.grafts.contains(p) ==> apt && s.peers.contains(p)
                &&& peers.contains(p) && present ==> s.peers.contains(p)
            }
            &&& n >= params.d_lo && n > params.d_hi ==> s.peers.len() == params.d
            &&& n >= params.d_lo && n <= params.d_hi && peers.contains(p) && present
                ==> s.peers.contains(p)
        }),
{
    let s = mesh_step(v, params, bitmask, now, peers);
    let t = |q: u64| has_key(v.peers, q);
    let o = |q: u64| !has_key(v.peers, q);
    let kept = peers.filter(t);
    let stale = peers.filter(o);
    lemma_tracked(v, peers);
    if peers.contains(p) {
        let k = choose|k: int| 0 <= k < peers.len() && peers[k] == p;
        if t(p) {
            peers.lemma_filter_contains(t, k);
        } else {
            assert(o(p));
            peers.lemma_filter_contains(o, k);
            let j = choose|j: int| 0 <= j < stale.len() && stale[j] == p;
            assert(s.prunes[j] == p);
        }
    }
    if kept.contains(p) {
        peers.lemma_filter_contains_rev(t, p);
        let k = choose|k: int| 0 <= k < kept.len() && kept[k] == p;
        peers.lemma_filter_pred(t, k);
    }
    if stale.contains(p) {
        peers.lemma_filter_contains_rev(o, p);
    }
    let n = kept.len();
    if n < params.d_lo {
        let w = mesh_candidate(v.backoff, bitmask, kept, now);
        let m = (params.d - n) as nat;
        law_choosing(v.peer_subscriptions, w, m, p);
        lemma_with_items(kept, s.grafts, p);
        if exists|k: int|
            0 <= k < v.peer_subscriptions.len() && (#[trigger] v.peer_subscriptions[k]).0 == p
                && v.peer_subscriptions[k].1.contains(bitmask) && !(backoff_of(
                v.backoff,
                bitmask,
                p,
            ) matches Some(t) && t > now) {
            if !kept.contains(p) {
                assert(may_be_chosen(v.peer_subscriptions, w, p));
            }
        }
    } else if n > params.d_hi {
        let x = n - params.d;
        if kept.contains(p) {
            let k = choose|k: int| 0 <= k < kept.len() && kept[k] == p;
            if k < x {
                assert(kept.take(x)[k] == p);
                assert(s.prunes[stale.len() + k] == p);
            } else {
                assert(kept.skip(x)[k - x] == p);
            }
        }
        if s.peers.contains(p) {
            let k = choose|k: int| 0 <= k < s.peers.len() && s.peers[k] == p;
            assert(kept[k + x] == p);
        }
        if s.prunes.contains(p) {
            let k = choose|k: int| 0 <= k < s.prunes.len() && s.prunes[k] == p;
            if k < stale.len() {
                assert(stale[k] == p);
            } else {
                assert(kept[k - stale.len()] == p);
            }
        }
    }
}

/// A router's heartbeat takes its meshes one by one: one more gets the peers, and adds the
/// grafts and prunes, that its own step gives. Every other mesh stays.
pub proof fn law_router_meshes_one_by_one(
    v: MeshView,
    params: MeshParams,
    now: u64,
    bs: Seq<Seq<u8>>,
    b: Seq<u8>,
    other: Seq<u8>,
    i: int,
)
    ensures
        ({
            let before = beat(v, params, now, bs);
            let after = beat(v, params, now, bs.push(b));
            let s = mesh_step(v, params, b, now, value_or(before.mesh, b, Seq::empty()));
            let none = beat(v, params, now, Seq::empty());
            &&& none.mesh == v.mesh && none.grafts.len() == 0 && none.prunes.len() == 0
            &&& value_of(after.mesh, b) == Some(s.peers)
            &&& other != b ==> value_of(after.mesh, other) == value_of(before.mesh, other)
            &&& after.grafts.len() == before.grafts.len() + s.grafts.len()
            &&& before.grafts.is_prefix_of(after.grafts)
            &&& 0 <= i < s.grafts.len() ==> after.grafts[before.grafts.len() + i] == (s.grafts[i], b)
            &&& after.prunes.len() == before.prunes.len() + s.prunes.len()
            &&& before.prunes.is_prefix_of(after.prunes)
            &&& 0 <= i < s.prunes.len() ==> after.prunes[before.prunes.len() + i] == (s.prunes[i], b)
        }),
{
    assert(bs.push(b).drop_last() =~= bs);
    let before = beat(v, params, now, bs);
    let s = mesh_step(v, params, b, now, value_or(before.mesh, b, Seq::empty()));
    lemma_with_value(before.mesh, b, s.peers, b);
    lemma_with_value(before.mesh, b, s.peers, other);
}

proof fn lemma_flat(ws: Seq<Seq<Seq<u8>>>, id: Seq<u8>)
    ensures
        ws.flatten().contains(id) <==> exists|i: int|
            0 <= i < ws.len() && (#[trigger] ws[i]).contains(id),
    decreases ws.len(),
{
    if ws.len() > 0 {
        let first = ws.first();
        let rest = ws.drop_first();
        lemma_flat(rest, id);
        let all = first + rest.flatten();
        assert(ws.flatten() == all);
        if all.contains(id) {
            let k = choose|k: int| 0 <= k < all.len() && all[k] == id;
            if k < first.len() {
                assert(first[k] == id);
                assert(ws[0].contains(id));
            } else {
                assert(rest.flatten()[k - first.len()] == id);
                let i = choose|i: int| 0 <= i < rest.len() && (#[trigger] rest[i]).contains(id);
                assert(ws[i + 1].contains(id));
            }
        }
        if exists|i: int| 0 <= i < ws.len() && (#[trigger] ws[i]).contains(id) {
            let i = choose|i: int| 0 <= i < ws.len() && (#[trigger] ws[i]).contains(id);
            if i == 0 {
                let k = choose|k: int| 0 <= k < first.len() && first[k] == id;
                assert(all[k] == id);
            } else {
                assert(rest[i - 1].contains(id));
                let f = rest.flatten();
                let k = choose|k: int| 0 <= k < f.len() && f[k] == id;
                assert(all[first.len() + k] == id);
            }
        }
    }
}

/// A message is gossiped about on a bitmask exactly where it is cached with that bitmask and
/// stands in one of the latest windows, as many as are set.
pub proof fn law_gossiped_messages(c: CacheView, bitmask: Seq<u8>, id: Seq<u8>)
    ensures
        c.gossip_ids(bitmask).contains(id) <==> {
            &&& value_of(c.messages, id) matches Some(m) && m.bitmask == bitmask
            &&& exists|i: int|
                0 <= i < c.windows.len() && i + c.history_gossip >= c.windows.len() && (
                #[trigger] c.windows[i]).contains(id)
        },
{
    let start = if c.windows.len() <= c.history_gossip {
        0
    } else {
        c.windows.len() - c.history_gossip
    };
    let ws = c.windows.skip(start);
    let p = |x: Seq<u8>| c.is_on(bitmask, x);
    let f = ws.flatten();
    lemma_flat(ws, id);
    if c.gossip_ids(bitmask).contains(id) {
        f.lemma_filter_contains_rev(p, id);
        let k = choose|k: int| 0 <= k < f.filter(p).len() && f.filter(p)[k] == id;
        f.lemma_filter_pred(p, k);
        let i = choose|i: int| 0 <= i < ws.len() && (#[trigger] ws[i]).contains(id);
        assert(c.windows[i + start].contains(id));
    }
    if (value_of(c.messages, id) matches Some(m) && m.bitmask == bitmask) && exists|i: int|
        0 <= i < c.windows.len() && i + c.history_gossip >= c.windows.len() && (
        #[trigger] c.windows[i]).contains(id) {
        let i = choose|i: int|
            0 <= i < c.windows.len() && i + c.history_gossip >= c.windows.len() && (
            #[trigger] c.windows[i]).contains(id);
        assert(ws[i - start].contains(id));
        let k = choose|k: int| 0 <= k < f.len() && f[k] == id;
        assert(p(f[k]));
        f.lemma_filter_contains(p, k);
    }
}

/// A message that is put into the cache stands in the current window, behind those that are
/// there; a new window is empty and current, and makes the oldest one go if there are too
/// many.
pub proof fn law_cache_windows(c: CacheView, id: Seq<u8>, m: CachedView, i: int)
    requires
        c.windows.len() > 0,
    ensures
        ({
            let p = c.put(id, m);
            let s = c.shifted();
            let n = c.windows.len() as int;
            &&& p.windows.len() == n
            &&& p.windows[n - 1] == c.windows[n - 1].push(id)
            &&& 0 <= i < n - 1 ==> p.windows[i] == c.windows[i]
            &&& s.windows.last().len() == 0
            &&& n < c.history_length ==> s.windows.len() == n + 1 && s.messages == c.messages && (0
                <= i < n ==> s.windows[i] == c.windows[i])
            &&& n >= c.history_length ==> s.windows.len() == n && (0 <= i < n - 1 ==> s.windows[i]
                == c.windows[i + 1])
            &&& p.history_length == c.history_length && s.history_length == c.history_length
            &&& p.history_gossip == c.history_gossip && s.history_gossip == c.history_gossip
        }),
{
}

} // verus!
