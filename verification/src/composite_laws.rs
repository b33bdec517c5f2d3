//! What holds of composite meshes: setting them up, taking them down again, and what
//! packets make of them.

use vstd::prelude::*;

use crate::assoc::{
    has_key, lemma_key_index, lemma_value_dropped, lemma_value_push, lemma_with_item,
    lemma_with_value, lemma_without_item, value_of, value_or, with_item, with_value, without_item,
    without_key,
};
use crate::behaviour::{after_publishes, after_subscriptions, BehaviourView, PeerClass};
use crate::blossomsub::indexed;
use crate::bytes::views;
use crate::control::{
    after_classify, after_demote, after_grafts, after_ids, after_ihaves, after_iwants,
    after_mesh_control, after_prunes, after_rpc, class_of, classified, demoted, members_of,
    rebuilt, rebuilt_keys, rebuilt_slices, told, Rebuilding, Touched, Wanting,
};
use crate::gossip::{composite_of, law_composite_bounded, BackoffRule, CompositeView};
use crate::gossip_laws::{disjoint, lemma_filled};
use crate::membership::{released, unindexed, with_composite, without_composite};
use crate::wire::{Ihave, Incoming, OutView, Rpc, SubOpts};

verus! {

/// The reverse index, from slices to composites.
pub type SliceIndex = Seq<(Seq<u8>, Seq<Seq<u8>>)>;

/// Does the index hold no composite of the key, and no empty list?
pub open spec fn index_free_of(index: SliceIndex, key: Seq<u8>) -> bool {
    forall|s: Seq<u8>| #[trigger]
        value_of(index, s) matches Some(keys) ==> keys.len() > 0 && !keys.contains(key)
}

/// Is a slice either free, with neither a composite nor a mesh, or held by a composite
/// whose slices all have the mesh that the composite gives them?
pub open spec fn settled(v: BehaviourView, slice: Seq<u8>) -> bool {
    match value_of(v.slice_to_composite, slice) {
        None => value_of(v.mesh, slice) is None,
        Some(keys) => {
            &&& keys.len() > 0
            &&& value_of(v.composites, keys[0]) is Some
            &&& ({
                let c = value_of(v.composites, keys[0])->Some_0;
                &&& c.slices.contains(slice)
                &&& forall|t: Seq<u8>|
                    c.slices.contains(t) ==> #[trigger] value_of(v.mesh, t) == Some(members_of(c))
            })
        },
    }
}

proof fn lemma_contains_last<A>(s: Seq<A>, a: A)
    requires
        s.len() > 0,
    ensures
        s.contains(a) <==> s.drop_last().contains(a) || s.last() == a,
{
    if s.contains(a) {
        let i = choose|i: int| 0 <= i < s.len() && s[i] == a;
        if i < s.len() - 1 {
            assert(s.drop_last()[i] == a);
        }
    }
    if s.drop_last().contains(a) {
        let i = choose|i: int| 0 <= i < s.drop_last().len() && s.drop_last()[i] == a;
        assert(s[i] == a);
    }
    assert(s[s.len() - 1] == s.last());
}

proof fn lemma_without_pushed(s: Seq<Seq<u8>>, k: Seq<u8>)
    ensures
        without_item(s.push(k), k) == without_item(s, k),
{
    reveal(Seq::filter);
    assert(s.push(k).drop_last() =~= s);
}

proof fn lemma_without_absent(s: Seq<Seq<u8>>, k: Seq<u8>)
    requires
        !s.contains(k),
    ensures
        without_item(s, k) == s,
    decreases s.len(),
{
    reveal(Seq::filter);
    if s.len() > 0 {
        lemma_contains_last(s, k);
        lemma_without_absent(s.drop_last(), k);
        assert(s =~= s.drop_last().push(s.last()));
    }
}

proof fn lemma_without_twice(s: Seq<Seq<u8>>, k: Seq<u8>)
    ensures
        without_item(without_item(s, k), k) == without_item(s, k),
{
    lemma_without_item(s, k, k);
    lemma_without_absent(without_item(s, k), k);
}

/// What the index holds of a slice once a composite was noted.
pub proof fn lemma_indexed(index: SliceIndex, slices: Seq<Seq<u8>>, key: Seq<u8>, s: Seq<u8>)
    ensures
        ({
            let now = value_of(indexed(index, slices, key), s);
            if slices.contains(s) {
                now is Some && without_item(now->Some_0, key) == without_item(
                    value_or(index, s, Seq::empty()),
                    key,
                ) && now->Some_0.contains(key)
            } else {
                now == value_of(index, s)
            }
        }),
    decreases slices.len(),
{
    if slices.len() > 0 {
        let rest = slices.drop_last();
        lemma_indexed(index, rest, key, s);
        lemma_contains_last(slices, s);
        let before = indexed(index, rest, key);
        let list = value_or(before, slices.last(), Seq::empty());
        lemma_with_value(before, slices.last(), list.push(key), s);
        lemma_without_pushed(list, key);
        assert(list.push(key).last() == key);
    }
}

/// What the index holds of a slice once a composite was taken out.
proof fn lemma_unindexed(index: SliceIndex, slices: Seq<Seq<u8>>, key: Seq<u8>, s: Seq<u8>)
    ensures
        value_of(unindexed(index, slices, key), s) == if slices.contains(s) {
            match value_of(index, s) {
                Some(l) => if without_item(l, key).len() == 0 {
                    None
                } else {
                    Some(without_item(l, key))
                },
                None => None,
            }
        } else {
            value_of(index, s)
        },
    decreases slices.len(),
{
    if slices.len() > 0 {
        let rest = slices.drop_last();
        let k = slices.last();
        lemma_unindexed(index, rest, key, s);
        lemma_unindexed(index, rest, key, k);
        lemma_contains_last(slices, s);
        let before = unindexed(index, rest, key);
        if let Some(l) = value_of(index, s) {
            lemma_without_twice(l, key);
        }
        if let Some(keys) = value_of(before, k) {
            let left = without_item(keys, key);
            lemma_with_value(before, k, left, s);
            lemma_value_dropped(before, k, s);
        }
    }
}

/// Looking through the slices of a composite that is gone gives each its mesh back.
proof fn lemma_released(v: BehaviourView, joined: BehaviourView, slices: Seq<Seq<u8>>, n: int, t: Seq<u8>)
    requires
        0 <= n <= slices.len(),
        joined.composites == v.composites,
        forall|s: Seq<u8>| #[trigger]
            value_of(joined.slice_to_composite, s) == value_of(v.slice_to_composite, s),
        forall|s: Seq<u8>| #[trigger] slices.contains(s) ==> settled(v, s),
        forall|s: Seq<u8>|
            !slices.contains(s) ==> #[trigger] value_of(joined.mesh, s) == value_of(v.mesh, s),
    ensures
        ({
            let u = released(joined, slices.take(n));
            &&& u == (BehaviourView { mesh: u.mesh, ..joined })
            &&& slices.take(n).contains(t) || !slices.contains(t) ==> value_of(u.mesh, t)
                == value_of(v.mesh, t)
        }),
    decreases n,
{
    if n > 0 {
        let part = slices.take(n);
        assert(part.drop_last() =~= slices.take(n - 1));
        assert(part.last() == slices[n - 1]);
        let s = part.last();
        assert(slices.contains(s));
        lemma_released(v, joined, slices, n - 1, t);
        lemma_contains_last(part, t);
        let u = released(joined, slices.take(n - 1));
        assert(value_of(u.slice_to_composite, s) == value_of(v.slice_to_composite, s));
        assert(settled(v, s));
        match value_of(v.slice_to_composite, s) {
            None => {
                lemma_value_dropped(u.mesh, s, t);
            },
            Some(keys) => {
                let c = value_of(v.composites, keys[0])->Some_0;
                lemma_filled(u.mesh, c.slices, members_of(c), t);
                if c.slices.contains(t) {
                    assert(value_of(v.mesh, t) == Some(members_of(c)));
                }
            },
        }
    } else {
        assert(slices.take(0) =~= Seq::<Seq<u8>>::empty());
    }
}

/// Setting up a composite mesh and taking it down again restores the composites, what the
/// index says of every slice, and the mesh of every slice, and changes nothing else. This
/// is so where the key is new, and where each of its slices was free or had the mesh that
/// the composite it belongs to gives it.
pub proof fn law_leaving_a_composite_restores(v: BehaviourView, key: Seq<u8>, slices: Seq<Seq<u8>>)
    requires
        !has_key(v.composites, key),
        index_free_of(v.slice_to_composite, key),
        forall|s: Seq<u8>| #[trigger] slices.contains(s) ==> settled(v, s),
    ensures
        ({
            let u = without_composite(with_composite(v, key, slices), key);
            &&& u == (BehaviourView { mesh: u.mesh, slice_to_composite: u.slice_to_composite, ..v })
            &&& forall|s: Seq<u8>| #[trigger]
                value_of(u.slice_to_composite, s) == value_of(v.slice_to_composite, s)
            &&& forall|s: Seq<u8>| #[trigger] value_of(u.mesh, s) == value_of(v.mesh, s)
        }),
{
    let e = composite_of(
        v.peer_subscriptions,
        v.backoffs,
        BackoffRule::AnyEntry,
        key,
        slices,
        v.params.d as nat,
    );
    let noted = BehaviourView {
        slice_to_composite: indexed(v.slice_to_composite, slices, key),
        composites: with_value(v.composites, key, e),
        ..v
    };
    lemma_with_value(v.composites, key, e, key);
    let joined = rebuilt(noted, key);
    assert(joined == with_composite(v, key, slices));
    assert(value_of(joined.composites, key) == Some(e));
    let gone = BehaviourView {
        composites: without_key(joined.composites, key),
        slice_to_composite: unindexed(joined.slice_to_composite, slices, key),
        ..joined
    };
    assert(gone.composites =~= v.composites) by {
        let s = v.composites;
        reveal(Seq::filter);
        assert(s.push((key, e)).drop_last() =~= s);
        lemma_filter_absent(s, key);
    }
    assert forall|s: Seq<u8>| #[trigger]
        value_of(gone.slice_to_composite, s) == value_of(v.slice_to_composite, s) by {
        lemma_indexed(v.slice_to_composite, slices, key, s);
        lemma_unindexed(noted.slice_to_composite, slices, key, s);
        let before = value_or(v.slice_to_composite, s, Seq::empty());
        assert(value_of(v.slice_to_composite, s) matches Some(keys) ==> keys == before);
        if before.contains(key) {
            assert(value_of(v.slice_to_composite, s) is Some);
        }
        lemma_without_absent(before, key);
    }
    assert forall|s: Seq<u8>|
        !slices.contains(s) implies #[trigger] value_of(gone.mesh, s) == value_of(v.mesh, s) by {
        lemma_filled(v.mesh, slices, members_of(e), s);
    }
    let u = released(gone, slices);
    assert(slices.take(slices.len() as int) =~= slices);
    lemma_released(v, gone, slices, slices.len() as int, key);
    assert forall|s: Seq<u8>| #[trigger] value_of(u.mesh, s) == value_of(v.mesh, s) by {
        lemma_released(v, gone, slices, slices.len() as int, s);
    }
}

proof fn lemma_filter_absent<V>(s: Seq<(Seq<u8>, V)>, key: Seq<u8>)
    requires
        !has_key(s, key),
    ensures
        without_key(s, key) == s,
    decreases s.len(),
{
    reveal(Seq::filter);
    if s.len() > 0 {
        let r = s.drop_last();
        assert(s =~= r.push(s.last()));
        lemma_value_push(r, s.last(), key);
        lemma_key_index(s, key);
        lemma_key_index(r, key);
        assert(value_of(s, key) is None);
        lemma_filter_absent(r, key);
    }
}

/// Does a list of composites name this one?
pub open spec fn names(keys: Option<Seq<Seq<u8>>>, key: Seq<u8>) -> bool {
    keys matches Some(l) && l.contains(key)
}

/// Does the composite have this slice?
pub open spec fn manages(c: Option<CompositeView>, slice: Seq<u8>) -> bool {
    c matches Some(e) && e.slices.contains(slice)
}

/// Is the index the reverse of the composites? For each slice it names those composites
/// that have the slice, and no others, and it keeps no empty list.
pub open spec fn index_sound(v: BehaviourView) -> bool {
    &&& forall|s: Seq<u8>, key: Seq<u8>|
        #![trigger names(value_of(v.slice_to_composite, s), key)]
        #![trigger manages(value_of(v.composites, key), s)]
        names(value_of(v.slice_to_composite, s), key) <==> manages(value_of(v.composites, key), s)
    &&& forall|s: Seq<u8>| #[trigger]
        value_of(v.slice_to_composite, s) matches Some(l) ==> l.len() > 0
}

/// Is no peer of any composite among those on all slices and a broker at once?
pub open spec fn all_disjoint(v: BehaviourView) -> bool {
    forall|key: Seq<u8>| #[trigger]
        value_of(v.composites, key) matches Some(c) ==> disjoint(c)
}

/// Setting up a composite mesh keeps the index the reverse of the composites, and keeps
/// the peers on all slices and the brokers of every composite apart.
pub proof fn law_joining_keeps_the_composites(v: BehaviourView, key: Seq<u8>, slices: Seq<Seq<u8>>)
    ensures
        index_sound(v) ==> index_sound(with_composite(v, key, slices)),
        all_disjoint(v) ==> all_disjoint(with_composite(v, key, slices)),
{
    if index_sound(v) {
        lemma_join_indexes(v, key, slices);
    }
    if all_disjoint(v) && !has_key(v.composites, key) {
        let e = composite_of(
            v.peer_subscriptions,
            v.backoffs,
            BackoffRule::AnyEntry,
            key,
            slices,
            v.params.d as nat,
        );
        law_composite_bounded(
            v.peer_subscriptions,
            v.backoffs,
            BackoffRule::AnyEntry,
            key,
            slices,
            v.params.d as nat,
        );
        let u = with_composite(v, key, slices);
        assert forall|k: Seq<u8>| #[trigger]
            value_of(u.composites, k) matches Some(c) ==> disjoint(c) by {
            lemma_with_value(v.composites, key, e, k);
            assert(value_of(v.composites, k) matches Some(c) ==> disjoint(c));
        }
    }
}

proof fn lemma_join_indexes(v: BehaviourView, key: Seq<u8>, slices: Seq<Seq<u8>>)
    requires
        index_sound(v),
    ensures
        index_sound(with_composite(v, key, slices)),
{
    if !has_key(v.composites, key) {
        let e = composite_of(
            v.peer_subscriptions,
            v.backoffs,
            BackoffRule::AnyEntry,
            key,
            slices,
            v.params.d as nat,
        );
        let noted = BehaviourView {
            slice_to_composite: indexed(v.slice_to_composite, slices, key),
            composites: with_value(v.composites, key, e),
            ..v
        };
        lemma_with_value(v.composites, key, e, key);
        let u = with_composite(v, key, slices);
        assert(u == rebuilt(noted, key));
        assert(value_of(v.composites, key) is None);
        assert forall|s: Seq<u8>, k: Seq<u8>|
            #![trigger names(value_of(u.slice_to_composite, s), k)]
            #![trigger manages(value_of(u.composites, k), s)]
            names(value_of(u.slice_to_composite, s), k) <==> manages(value_of(u.composites, k), s) by {
            lemma_indexed(v.slice_to_composite, slices, key, s);
            lemma_with_value(v.composites, key, e, k);
            let now = value_of(u.slice_to_composite, s);
            let before = value_of(v.slice_to_composite, s);
            assert(names(before, k) <==> manages(value_of(v.composites, k), s));
            if slices.contains(s) && k != key {
                let old = value_or(v.slice_to_composite, s, Seq::empty());
                lemma_without_item(now->Some_0, key, k);
                lemma_without_item(old, key, k);
                assert(names(before, k) <==> old.contains(k));
            }
        }
        assert forall|s: Seq<u8>| #[trigger]
            value_of(u.slice_to_composite, s) matches Some(l) ==> l.len() > 0 by {
            lemma_indexed(v.slice_to_composite, slices, key, s);
        }
    }
}

/// Taking a composite mesh down keeps the index the reverse of the composites, and keeps
/// the peers on all slices and the brokers of every composite apart.
pub proof fn law_leaving_keeps_the_composites(v: BehaviourView, key: Seq<u8>)
    ensures
        index_sound(v) ==> index_sound(without_composite(v, key)),
        all_disjoint(v) ==> all_disjoint(without_composite(v, key)),
{
    if index_sound(v) {
        lemma_leave_unindexes(v, key);
    }
    if let Some(c) = value_of(v.composites, key) {
        let gone = BehaviourView {
            composites: without_key(v.composites, key),
            slice_to_composite: unindexed(v.slice_to_composite, c.slices, key),
            ..v
        };
        let u = without_composite(v, key);
        assert(u == released(gone, c.slices));
        lemma_released_frame(gone, c.slices);
        if all_disjoint(v) {
            assert forall|k: Seq<u8>| #[trigger]
                value_of(u.composites, k) matches Some(d) ==> disjoint(d) by {
                lemma_value_dropped(v.composites, key, k);
                assert(value_of(v.composites, k) matches Some(d) ==> disjoint(d));
            }
        }
    }
}

proof fn lemma_leave_unindexes(v: BehaviourView, key: Seq<u8>)
    requires
        index_sound(v),
    ensures
        index_sound(without_composite(v, key)),
{
    if let Some(c) = value_of(v.composites, key) {
        let gone = BehaviourView {
            composites: without_key(v.composites, key),
            slice_to_composite: unindexed(v.slice_to_composite, c.slices, key),
            ..v
        };
        let u = without_composite(v, key);
        assert(u == released(gone, c.slices));
        lemma_released_frame(gone, c.slices);
        assert forall|s: Seq<u8>, k: Seq<u8>|
            #![trigger names(value_of(u.slice_to_composite, s), k)]
            #![trigger manages(value_of(u.composites, k), s)]
            names(value_of(u.slice_to_composite, s), k) <==> manages(value_of(u.composites, k), s) by {
            lemma_unindexed(v.slice_to_composite, c.slices, key, s);
            lemma_value_dropped(v.composites, key, k);
            let before = value_of(v.slice_to_composite, s);
            assert(names(before, k) <==> manages(value_of(v.composites, k), s));
            if let Some(l) = before {
                lemma_without_item(l, key, k);
                let left = without_item(l, key);
                if left.contains(k) {
                    assert(left.len() > 0);
                }
            }
        }
        assert forall|s: Seq<u8>| #[trigger]
            value_of(u.slice_to_composite, s) matches Some(l) ==> l.len() > 0 by {
            lemma_unindexed(v.slice_to_composite, c.slices, key, s);
        }
    }
}

proof fn lemma_released_frame(v: BehaviourView, slices: Seq<Seq<u8>>)
    ensures
        released(v, slices) == (BehaviourView { mesh: released(v, slices).mesh, ..v }),
    decreases slices.len(),
{
    if slices.len() > 0 {
        lemma_released_frame(v, slices.drop_last());
    }
}

/// Is the index of two states the same, and have their composites the same slices? And
/// are, if the peers of the composites were told apart in the first, they in the second?
spec fn composites_kept(a: BehaviourView, b: BehaviourView) -> bool {
    &&& b.slice_to_composite == a.slice_to_composite
    &&& forall|key: Seq<u8>, s: Seq<u8>| #[trigger]
        manages(value_of(b.composites, key), s) == manages(value_of(a.composites, key), s)
    &&& all_disjoint(a) ==> all_disjoint(b)
}

/// Setting a composite to one with the same slices keeps what the index must know.
proof fn lemma_entry_set(v: BehaviourView, key: Seq<u8>, c: CompositeView, d: CompositeView)
    requires
        value_of(v.composites, key) == Some(c),
        d.slices == c.slices,
        disjoint(c) ==> disjoint(d),
    ensures
        composites_kept(v, BehaviourView { composites: with_value(v.composites, key, d), ..v }),
{
    let u = BehaviourView { composites: with_value(v.composites, key, d), ..v };
    assert forall|k: Seq<u8>, s: Seq<u8>| #[trigger]
        manages(value_of(u.composites, k), s) == manages(value_of(v.composites, k), s) by {
        lemma_with_value(v.composites, key, d, k);
    }
    if all_disjoint(v) {
        assert forall|k: Seq<u8>| #[trigger]
            value_of(u.composites, k) matches Some(e) ==> disjoint(e) by {
            lemma_with_value(v.composites, key, d, k);
            assert(value_of(v.composites, k) matches Some(e) ==> disjoint(e));
        }
    }
}

proof fn lemma_moved_apart(c: CompositeView, peer: u64, class: PeerClass)
    ensures
        disjoint(c) ==> disjoint(classified(c, peer, class)) && disjoint(demoted(c, peer)),
{
    if disjoint(c) {
        let d = classified(c, peer, class);
        assert forall|p: u64| !(#[trigger] d.same.contains(p) && d.broker.contains(p)) by {
            lemma_with_item(c.same, peer, p);
            lemma_with_item(c.broker, peer, p);
            lemma_without_item(c.broker, peer, p);
            assert(!(c.same.contains(p) && c.broker.contains(p)));
        }
        let e = demoted(c, peer);
        assert forall|p: u64| !(#[trigger] e.same.contains(p) && e.broker.contains(p)) by {
            lemma_with_item(c.broker, peer, p);
            lemma_without_item(c.same, peer, p);
            assert(!(c.same.contains(p) && c.broker.contains(p)));
        }
    }
}

proof fn lemma_moves_keep(v: BehaviourView, peer: u64, keys: Seq<Seq<u8>>)
    ensures
        composites_kept(v, after_classify(v, peer, keys)),
        composites_kept(v, after_demote(v, peer, keys)),
    decreases keys.len(),
{
    if keys.len() > 0 {
        lemma_moves_keep(v, peer, keys.drop_last());
        let k = keys.last();
        let u = after_classify(v, peer, keys.drop_last());
        if let Some(c) = value_of(u.composites, k) {
            lemma_moved_apart(c, peer, class_of(u, peer, k));
            lemma_entry_set(u, k, c, classified(c, peer, class_of(u, peer, k)));
        }
        let w = after_demote(v, peer, keys.drop_last());
        if let Some(c) = value_of(w.composites, k) {
            lemma_moved_apart(c, peer, PeerClass::Same);
            lemma_entry_set(w, k, c, demoted(c, peer));
        }
    }
}

proof fn lemma_grafts_keep(s: Touched, peer: u64, score: i64, now: u64, bs: Seq<Seq<u8>>)
    ensures
        composites_kept(s.v, after_grafts(s, peer, score, now, bs).v),
    decreases bs.len(),
{
    if bs.len() > 0 {
        lemma_grafts_keep(s, peer, score, now, bs.drop_last());
        let t = after_grafts(s, peer, score, now, bs.drop_last()).v;
        let g = BehaviourView {
            mesh: with_value(
                t.mesh,
                bs.last(),
                with_item(value_or(t.mesh, bs.last(), Seq::empty()), peer),
            ),
            ..t
        };
        assert(composites_kept(t, g));
        if let Some(keys) = value_of(t.slice_to_composite, bs.last()) {
            lemma_moves_keep(g, peer, keys);
        }
    }
}

proof fn lemma_prunes_keep(s: Touched, peer: u64, bs: Seq<Seq<u8>>)
    ensures
        composites_kept(s.v, after_prunes(s, peer, bs).v),
    decreases bs.len(),
{
    if bs.len() > 0 {
        lemma_prunes_keep(s, peer, bs.drop_last());
        let t = after_prunes(s, peer, bs.drop_last()).v;
        if let Some(keys) = value_of(t.slice_to_composite, bs.last()) {
            lemma_moves_keep(t, peer, keys);
        }
    }
}

proof fn lemma_rebuilding_keeps(s: Rebuilding, keys: Seq<Seq<u8>>, slices: Seq<Seq<u8>>)
    ensures
        rebuilt_keys(s, keys).v.composites == s.v.composites,
        rebuilt_keys(s, keys).v.slice_to_composite == s.v.slice_to_composite,
        rebuilt_slices(s, slices).v.composites == s.v.composites,
        rebuilt_slices(s, slices).v.slice_to_composite == s.v.slice_to_composite,
    decreases slices.len(), keys.len(),
{
    if keys.len() > 0 {
        lemma_rebuilding_keeps(s, keys.drop_last(), Seq::empty());
    }
    if slices.len() > 0 {
        lemma_rebuilding_keeps(s, Seq::empty(), slices.drop_last());
        let t = rebuilt_slices(s, slices.drop_last());
        if let Some(l) = value_of(t.v.slice_to_composite, slices.last()) {
            lemma_rebuilding_keeps(t, l, Seq::empty());
        }
    }
}

proof fn lemma_messages_keep(v: BehaviourView, peer: u64, subs: Seq<SubOpts>, ms: Seq<Incoming>)
    ensures
        after_subscriptions(v, peer, subs).composites == v.composites,
        after_subscriptions(v, peer, subs).slice_to_composite == v.slice_to_composite,
        after_publishes(v, peer, ms).composites == v.composites,
        after_publishes(v, peer, ms).slice_to_composite == v.slice_to_composite,
    decreases subs.len() + ms.len(),
{
    if subs.len() > 0 {
        lemma_messages_keep(v, peer, subs.drop_last(), Seq::empty());
    }
    if ms.len() > 0 {
        lemma_messages_keep(v, peer, Seq::empty(), ms.drop_last());
    }
}

proof fn lemma_ids_keep(s: Wanting, peer: u64, now: u64, bitmask: Seq<u8>, ids: Seq<Seq<u8>>)
    ensures
        after_ids(s, peer, now, bitmask, ids).v.composites == s.v.composites,
        after_ids(s, peer, now, bitmask, ids).v.slice_to_composite == s.v.slice_to_composite,
    decreases ids.len(),
{
    if ids.len() > 0 {
        lemma_ids_keep(s, peer, now, bitmask, ids.drop_last());
    }
}

proof fn lemma_ihaves_keep(s: Wanting, peer: u64, now: u64, hs: Seq<Ihave>)
    ensures
        after_ihaves(s, peer, now, hs).v.composites == s.v.composites,
        after_ihaves(s, peer, now, hs).v.slice_to_composite == s.v.slice_to_composite,
    decreases hs.len(),
{
    if hs.len() > 0 {
        lemma_ihaves_keep(s, peer, now, hs.drop_last());
        let t = after_ihaves(s, peer, now, hs.drop_last());
        lemma_ids_keep(t, peer, now, hs.last().bitmask@, views(hs.last().ids@));
    }
}

proof fn lemma_iwants_keep(v: BehaviourView, peer: u64, ws: Seq<Vec<Vec<u8>>>)
    ensures
        after_iwants(v, peer, ws).composites == v.composites,
        after_iwants(v, peer, ws).slice_to_composite == v.slice_to_composite,
    decreases ws.len(),
{
    if ws.len() > 0 {
        lemma_iwants_keep(v, peer, ws.drop_last());
    }
}

/// A packet, whatever it holds, keeps the index the reverse of the composites, and keeps
/// the peers on all slices and the brokers of every composite apart.
pub proof fn law_packets_keep_the_composites(
    v: BehaviourView,
    peer: u64,
    rpc: Rpc,
    score: i64,
    now: u64,
)
    ensures
        index_sound(v) ==> index_sound(after_rpc(v, peer, rpc, score, now)),
        all_disjoint(v) ==> all_disjoint(after_rpc(v, peer, rpc, score, now)),
{
    let a = after_subscriptions(v, peer, rpc.subscriptions@);
    lemma_messages_keep(v, peer, rpc.subscriptions@, Seq::empty());
    let b = after_publishes(a, peer, rpc.publish@);
    lemma_messages_keep(a, peer, Seq::empty(), rpc.publish@);
    let u = after_rpc(v, peer, rpc, score, now);
    assert(composites_kept(v, b));
    if let Some(c) = rpc.control {
        let s0 = Touched { v: b, composite: false };
        let s1 = after_grafts(s0, peer, score, now, views(c.graft@));
        lemma_grafts_keep(s0, peer, score, now, views(c.graft@));
        let s2 = after_prunes(s1, peer, views(c.prune@));
        lemma_prunes_keep(s1, peer, views(c.prune@));
        lemma_rebuilding_keeps(
            Rebuilding { v: s2.v, seen: Seq::empty() },
            Seq::empty(),
            views(c.graft@) + views(c.prune@),
        );
        let m = after_mesh_control(b, peer, c, score, now);
        assert(composites_kept(b, s2.v));
        assert(composites_kept(b, m));
        let start = Wanting { v: m, wanted: Seq::empty() };
        lemma_ihaves_keep(start, peer, now, c.ihave@);
        let w = after_ihaves(start, peer, now, c.ihave@);
        let asked = if w.wanted.len() > 0 {
            told(w.v, peer, OutView::Iwant(w.wanted))
        } else {
            w.v
        };
        lemma_iwants_keep(asked, peer, c.iwant@);
        assert(composites_kept(b, u));
    }
    assert(composites_kept(v, u));
    if index_sound(v) {
        assert forall|s: Seq<u8>, key: Seq<u8>|
            #![trigger names(value_of(u.slice_to_composite, s), key)]
            #![trigger manages(value_of(u.composites, key), s)]
            names(value_of(u.slice_to_composite, s), key) <==> manages(
                value_of(u.composites, key),
                s,
            ) by {
            assert(names(value_of(v.slice_to_composite, s), key) <==> manages(
                value_of(v.composites, key),
                s,
            ));
        }
    }
}

} // verus!
