//! What a heartbeat does: which peers come into a mesh and which leave it, who is told, and
//! what runs out.

use vstd::prelude::*;
use vstd::relations::*;
use vstd::seq_lib::*;

use crate::assoc::{
    has_key, lemma_key_index_is, lemma_value_dropped, lemma_with_items, lemma_with_value, value_of,
    value_or, with_items,
};
use crate::behaviour::{BehaviourView, BlossomsubParams};
use crate::gossip::{
    chosen, law_chosen_are_wanted, score_of, wanted_in, BackoffRule, BackoffsView, ScoreRule,
    SubsView, WantedView,
};
use crate::heartbeat::{
    direct_missing, directs_kept, expired, grafts_sent, not_fresh, prunes_sent, stale_fanout,
    still_on, with_direct, without_keys, ScoreTable,
};
use crate::packet_laws::backed_off_until;
use crate::rounds::{
    announced, beat_begun, beat_kept, better_peer, better_peers, fanout_of, fanouts_kept,
    gossip_candidate, ihaves_sent, improved, is_connected, median, peers_asked, starved, taken_in,
};
use crate::sorting::ascending;
use crate::upkeep::{
    graft_candidate, is_not_in, is_protected, is_welcome, mesh_upkeep, meshes_kept, rank, trimmed,
    unprotected, upkeep,
};
use crate::wire::{EventView, OutView};

verus! {

/// Is the peer, by what is known of its subscriptions, one that may be chosen?
pub open spec fn may_be_chosen(subs: SubsView, w: WantedView, peer: u64) -> bool {
    exists|i: int|
        0 <= i < subs.len() && (#[trigger] subs[i]).0 == peer && {
            &&& subs[i].1.contains(w.bitmask)
            &&& !w.exclude.contains(peer)
            &&& match w.backoff_rule {
                BackoffRule::Ignored => true,
                BackoffRule::AnyEntry => crate::gossip::backoff_of(w.backoffs, w.bitmask, peer) is None,
                BackoffRule::LiveAt(now) => !(crate::gossip::backoff_of(
                    w.backoffs,
                    w.bitmask,
                    peer,
                ) matches Some(t) && t > now),
            }
            &&& match w.score_rule {
                ScoreRule::Any => true,
                ScoreRule::AtLeast(min) => value_or(w.scores, peer, 0i64) >= min,
                ScoreRule::Above(low) => value_or(w.scores, peer, 0i64) > low,
            }
        }
}

/// As many peers are chosen as asked for, if there are as many, and only such that may be:
/// those that subscribe to the bitmask, are not excluded, are not backed off by the rule, and
/// have a score that is good enough. If fewer are chosen, nobody who might be was left out.
pub proof fn law_choosing(subs: SubsView, w: WantedView, n: nat, peer: u64)
    ensures
        ({
            let c = chosen(subs, w, n);
            &&& c.len() <= n
            &&& c.contains(peer) ==> may_be_chosen(subs, w, peer)
            &&& c.len() < n && may_be_chosen(subs, w, peer) ==> c.contains(peer)
        }),
{
    let p = |e: (u64, Seq<Seq<u8>>)| w.admits(e.0, e.1);
    let f = subs.filter(p);
    let c = chosen(subs, w, n);
    law_chosen_are_wanted(subs, w, n);
    if c.contains(peer) {
        let i = choose|i: int| 0 <= i < c.len() && c[i] == peer;
        assert(wanted_in(subs, w, c[i]));
        let e = choose|e: (u64, Seq<Seq<u8>>)| #[trigger]
            subs.contains(e) && e.0 == peer && w.admits(e.0, e.1);
        let k = choose|k: int| 0 <= k < subs.len() && subs[k] == e;
        assert(subs[k].0 == peer);
    }
    if c.len() < n && may_be_chosen(subs, w, peer) {
        let i = choose|i: int|
            0 <= i < subs.len() && (#[trigger] subs[i]).0 == peer && w.admits(peer, subs[i].1);
        assert(p(subs[i]));
        subs.lemma_filter_contains(p, i);
        let k = choose|k: int| 0 <= k < f.len() && f[k] == subs[i];
        assert(c[k] == peer);
    }
}

/// How many places of a mesh are those of peers that stay: whose score is not negative, or
/// that are direct.
pub open spec fn welcome_count(mesh: Seq<u64>, scores: ScoreTable, directs: Seq<u64>) -> nat
    decreases mesh.len(),
{
    if mesh.len() == 0 {
        0
    } else {
        welcome_count(mesh.drop_last(), scores, directs) + if value_or(
            scores,
            mesh.last(),
            0i64,
        ) >= 0 || directs.contains(mesh.last()) {
            1nat
        } else {
            0nat
        }
    }
}

proof fn lemma_welcome(mesh: Seq<u64>, scores: ScoreTable, directs: Seq<u64>)
    ensures
        mesh.filter(is_welcome(scores, directs)).len() == welcome_count(mesh, scores, directs),
    decreases mesh.len(),
{
    reveal(Seq::filter);
    if mesh.len() > 0 {
        lemma_welcome(mesh.drop_last(), scores, directs);
    }
}

/// A mesh in which fewer than `d_lo` peers stay is filled up to `d`: as many peers are
/// grafted as are missing, or all there are that subscribe, are not in the mesh, have no
/// backoff and no negative score. A mesh with enough peers grafts nobody. Those grafted are
/// in the mesh from then on, if the target is no more than the upper bound.
pub proof fn law_small_meshes_are_filled(
    params: BlossomsubParams,
    subs: SubsView,
    backoffs: BackoffsView,
    scores: ScoreTable,
    bitmask: Seq<u8>,
    mesh: Seq<u64>,
    outbound: Seq<u64>,
    directs: Seq<u64>,
    peer: u64,
)
    requires
        params.d_lo <= params.d + 1,
    ensures
        ({
            let u = mesh_upkeep(params, subs, backoffs, scores, bitmask, mesh, outbound, directs);
            let n = welcome_count(mesh, scores, directs);
            let eligible = exists|i: int|
                0 <= i < subs.len() && (#[trigger] subs[i]).0 == peer && subs[i].1.contains(bitmask)
                    && crate::gossip::backoff_of(backoffs, bitmask, peer) is None && value_or(
                    scores,
                    peer,
                    0i64,
                ) >= 0;
            &&& n >= params.d_lo ==> u.grafts.len() == 0
            &&& n < params.d_lo ==> u.grafts.len() <= params.d - n
            &&& n < params.d_lo && u.grafts.len() < params.d - n && eligible && !mesh.contains(peer)
                ==> u.grafts.contains(peer)
            &&& u.grafts.contains(peer) ==> eligible
            &&& u.grafts.contains(peer) && params.d <= params.d_hi ==> u.mesh.contains(peer)
        }),
{
    let u = mesh_upkeep(params, subs, backoffs, scores, bitmask, mesh, outbound, directs);
    let p = is_welcome(scores, directs);
    let kept = mesh.filter(p);
    lemma_welcome(mesh, scores, directs);
    let w = graft_candidate(backoffs, scores, bitmask, kept);
    let n = (params.d - kept.len()) as nat;
    law_choosing(subs, w, n, peer);
    if !mesh.contains(peer) && kept.contains(peer) {
        mesh.lemma_filter_contains_rev(p, peer);
    }
    let all = with_items(kept, u.grafts);
    if u.grafts.contains(peer) {
        lemma_with_items(kept, u.grafts, peer);
        crate::blossomsub::lemma_with_items_len(kept, u.grafts);
    }
}

/// How many peers of a mesh, from its start to the place `n`, are no worse than the one at
/// the place.
pub open spec fn not_worse(scores: ScoreTable, m: Seq<u64>, i: int, n: int) -> nat
    decreases n,
{
    if n <= 0 {
        0
    } else {
        not_worse(scores, m, i, n - 1) + if n - 1 != i && value_or(scores, m[n - 1], 0i64)
            >= value_or(scores, m[i], 0i64) {
            1nat
        } else {
            0nat
        }
    }
}

proof fn lemma_rank(scores: ScoreTable, m: Seq<u64>, i: int, n: int)
    ensures
        rank(scores, m, i, n) <= not_worse(scores, m, i, n),
    decreases n,
{
    if n > 0 {
        lemma_rank(scores, m, i, n - 1);
    }
}

proof fn lemma_unprotected(scores: ScoreTable, m: Seq<u64>, safe: Seq<u64>, d_score: nat, n: int, p: u64)
    requires
        0 <= n <= m.len(),
    ensures
        unprotected(scores, m, safe, d_score, n).contains(p) <==> exists|i: int|
            0 <= i < n && #[trigger] m[i] == p && !is_protected(scores, m, safe, d_score, i),
        m.no_duplicates() ==> unprotected(scores, m, safe, d_score, n).no_duplicates(),
        forall|k: int|
            0 <= k < unprotected(scores, m, safe, d_score, n).len() ==> exists|i: int|
                0 <= i < n && m[i] == #[trigger] unprotected(scores, m, safe, d_score, n)[k],
    decreases n,
{
    if n > 0 {
        lemma_unprotected(scores, m, safe, d_score, n - 1, p);
        let before = unprotected(scores, m, safe, d_score, n - 1);
        let after = unprotected(scores, m, safe, d_score, n);
        if is_protected(scores, m, safe, d_score, n - 1) {
            if exists|i: int|
                0 <= i < n && #[trigger] m[i] == p && !is_protected(scores, m, safe, d_score, i) {
                let i = choose|i: int|
                    0 <= i < n && #[trigger] m[i] == p && !is_protected(
                        scores,
                        m,
                        safe,
                        d_score,
                        i,
                    );
                assert(i < n - 1);
            }
        } else {
            assert(after == before.push(m[n - 1]));
            if after.contains(p) {
                let k = choose|k: int| 0 <= k < after.len() && after[k] == p;
                if k < before.len() {
                    assert(before[k] == p);
                } else {
                    assert(m[n - 1] == p);
                }
            }
            if before.contains(p) {
                let k = choose|k: int| 0 <= k < before.len() && before[k] == p;
                assert(after[k] == p);
            }
            if exists|i: int|
                0 <= i < n && #[trigger] m[i] == p && !is_protected(scores, m, safe, d_score, i) {
                let i = choose|i: int|
                    0 <= i < n && #[trigger] m[i] == p && !is_protected(
                        scores,
                        m,
                        safe,
                        d_score,
                        i,
                    );
                if i == n - 1 {
                    assert(after.last() == p);
                }
            }
            if m.no_duplicates() {
                assert forall|a: int, b: int|
                    0 <= a < after.len() && 0 <= b < after.len() && a != b implies after[a]
                    != after[b] by {
                    if a < before.len() && b < before.len() {
                    } else {
                        let k = if a < before.len() {
                            a
                        } else {
                            b
                        };
                        assert(before[k] == after[k]);
                        let i = choose|i: int| 0 <= i < n - 1 && m[i] == before[k];
                        assert(m[i] != m[n - 1]);
                    }
                }
            }
        }
        assert forall|k: int| 0 <= k < after.len() implies exists|i: int|
            0 <= i < n && m[i] == #[trigger] after[k] by {
            if k < before.len() {
                assert(before[k] == after[k]);
                let i = choose|i: int| 0 <= i < n - 1 && m[i] == before[k];
                assert(m[i] == after[k]);
            } else {
                assert(m[n - 1] == after[k]);
            }
        }
    }
}

/// Filtering out a list of distinct members of a list without repetitions makes it shorter by
/// as many.
proof fn lemma_left_over(m: Seq<u64>, gone: Seq<u64>)
    requires
        m.no_duplicates(),
        gone.no_duplicates(),
        forall|k: int| 0 <= k < gone.len() ==> m.contains(#[trigger] gone[k]),
    ensures
        m.filter(is_not_in(gone)).len() == m.len() - gone.len(),
    decreases m.len(),
{
    reveal(Seq::filter);
    if m.len() == 0 {
        if gone.len() > 0 {
            assert(m.contains(gone[0]));
        }
    } else {
        let rest = m.drop_last();
        let x = m.last();
        assert(m[m.len() - 1] == x);
        if gone.contains(x) {
            let k = choose|k: int| 0 <= k < gone.len() && gone[k] == x;
            let fewer = gone.remove(k);
            assert forall|a: int, b: int|
                0 <= a < fewer.len() && 0 <= b < fewer.len() && a != b implies fewer[a]
                != fewer[b] by {
                let a2 = if a < k {
                    a
                } else {
                    a + 1
                };
                let b2 = if b < k {
                    b
                } else {
                    b + 1
                };
                assert(fewer[a] == gone[a2] && fewer[b] == gone[b2]);
            }
            assert forall|a: int| 0 <= a < fewer.len() implies rest.contains(
                #[trigger] fewer[a],
            ) by {
                let a2 = if a < k {
                    a
                } else {
                    a + 1
                };
                assert(fewer[a] == gone[a2]);
                assert(m.contains(gone[a2]));
                let i = choose|i: int| 0 <= i < m.len() && m[i] == gone[a2];
                assert(gone[a2] != x);
                assert(rest[i] == gone[a2]);
            }
            lemma_left_over(rest, fewer);
            assert forall|i: int| 0 <= i < rest.len() implies is_not_in(fewer)(
                #[trigger] rest[i],
            ) == is_not_in(gone)(rest[i]) by {
                assert(m[i] == rest[i]);
                assert(rest[i] != x);
                if gone.contains(rest[i]) {
                    let a = choose|a: int| 0 <= a < gone.len() && gone[a] == rest[i];
                    let b = if a < k {
                        a
                    } else {
                        a - 1
                    };
                    assert(fewer[b] == rest[i]);
                }
                if fewer.contains(rest[i]) {
                    let a = choose|a: int| 0 <= a < fewer.len() && fewer[a] == rest[i];
                    let b = if a < k {
                        a
                    } else {
                        a + 1
                    };
                    assert(gone[b] == rest[i]);
                }
            }
            lemma_same_filter(rest, is_not_in(fewer), is_not_in(gone));
        } else {
            assert forall|a: int| 0 <= a < gone.len() implies rest.contains(#[trigger] gone[a]) by {
                assert(m.contains(gone[a]));
                let i = choose|i: int| 0 <= i < m.len() && m[i] == gone[a];
                assert(gone.contains(gone[a]));
                assert(rest[i] == gone[a]);
            }
            lemma_left_over(rest, gone);
        }
    }
}

proof fn lemma_same_filter(s: Seq<u64>, p: spec_fn(u64) -> bool, q: spec_fn(u64) -> bool)
    requires
        forall|i: int| 0 <= i < s.len() ==> p(#[trigger] s[i]) == q(s[i]),
    ensures
        s.filter(p) == s.filter(q),
    decreases s.len(),
{
    reveal(Seq::filter);
    if s.len() > 0 {
        let rest = s.drop_last();
        assert forall|i: int| 0 <= i < rest.len() implies p(#[trigger] rest[i]) == q(rest[i]) by {
            assert(rest[i] == s[i]);
        }
        lemma_same_filter(rest, p, q);
        assert(s[s.len() - 1] == s.last());
    }
}

/// A mesh of more than `d_hi` peers is cut back to `d`, unless too many of them are safe. Safe
/// are those on the list, and those than which fewer than `d_score` are no worse; they stay.
/// Who is cut is told so; who is not cut stays. A mesh within its bound stays as it is.
pub proof fn law_large_meshes_are_cut(
    params: BlossomsubParams,
    scores: ScoreTable,
    m: Seq<u64>,
    safe: Seq<u64>,
    i: int,
    p: u64,
)
    requires
        m.no_duplicates(),
        params.d <= params.d_hi + 1,
    ensures
        ({
            let (left, pruned) = trimmed(params, scores, m, safe);
            &&& m.len() <= params.d_hi ==> left == m && pruned.len() == 0
            &&& m.len() > params.d_hi ==> {
                &&& left.len() == m.len() - pruned.len()
                &&& left.len() >= params.d
                &&& 0 <= i < m.len() && (safe.contains(m[i]) || not_worse(
                    scores,
                    m,
                    i,
                    m.len() as int,
                ) < params.d_score) ==> left.contains(m[i]) && !pruned.contains(m[i])
                &&& left.len() > params.d && 0 <= i < m.len() && left.contains(m[i])
                    ==> safe.contains(m[i]) || rank(scores, m, i, m.len() as int) < params.d_score
            }
            &&& m.contains(p) ==> (left.contains(p) <==> !pruned.contains(p))
            &&& !m.contains(p) ==> !left.contains(p) && !pruned.contains(p)
        }),
{
    let n = m.len() as int;
    let ds = params.d_score as nat;
    let u = unprotected(scores, m, safe, ds, n);
    let (left, pruned) = trimmed(params, scores, m, safe);
    if n > params.d_hi {
        let excess = (n - params.d) as nat;
        lemma_unprotected(scores, m, safe, ds, n, p);
        assert(pruned == crate::gossip::at_most(u, excess));
        assert forall|k: int| 0 <= k < pruned.len() implies m.contains(#[trigger] pruned[k]) by {
            assert(pruned[k] == u[k]);
        }
        assert forall|a: int, b: int|
            0 <= a < pruned.len() && 0 <= b < pruned.len() && a != b implies pruned[a]
            != pruned[b] by {
            assert(pruned[a] == u[a] && pruned[b] == u[b]);
        }
        lemma_left_over(m, pruned);
        let f = is_not_in(pruned);
        if m.contains(p) && !pruned.contains(p) {
            let k = choose|k: int| 0 <= k < m.len() && m[k] == p;
            m.lemma_filter_contains(f, k);
        }
        if left.contains(p) {
            m.lemma_filter_contains_rev(f, p);
            let k = choose|k: int| 0 <= k < left.len() && left[k] == p;
            m.lemma_filter_pred(f, k);
        }
        if pruned.contains(p) {
            let k = choose|k: int| 0 <= k < pruned.len() && pruned[k] == p;
            assert(m.contains(pruned[k]));
        }
        if 0 <= i < n {
            lemma_rank(scores, m, i, n);
            lemma_unprotected(scores, m, safe, ds, n, m[i]);
            if is_protected(scores, m, safe, ds, i) {
                if pruned.contains(m[i]) {
                    let k = choose|k: int| 0 <= k < pruned.len() && pruned[k] == m[i];
                    assert(u[k] == m[i]);
                    assert(u.contains(m[i]));
                    let j = choose|j: int|
                        0 <= j < n && #[trigger] m[j] == m[i] && !is_protected(
                            scores,
                            m,
                            safe,
                            ds,
                            j,
                        );
                    assert(j == i);
                }
                m.lemma_filter_contains(f, i);
            } else if left.len() > params.d {
                assert(u.contains(m[i]));
                assert(pruned == u);
                if left.contains(m[i]) {
                    let k = choose|k: int| 0 <= k < left.len() && left[k] == m[i];
                    m.lemma_filter_pred(f, k);
                }
            }
        }
    }
}

/// The upkeep of a mesh: those with a negative score leave unless they are direct, those
/// grafted come, and the mesh is then cut if it is too large, while dialed and direct peers
/// are safe. Who leaves by its score, and who is cut, is pruned; nobody else is.
pub proof fn law_upkeep_of_a_mesh(
    params: BlossomsubParams,
    subs: SubsView,
    backoffs: BackoffsView,
    scores: ScoreTable,
    bitmask: Seq<u8>,
    mesh: Seq<u64>,
    outbound: Seq<u64>,
    directs: Seq<u64>,
    p: u64,
)
    requires
        mesh.no_duplicates(),
        params.d <= params.d_hi + 1,
    ensures
        ({
            let u = mesh_upkeep(params, subs, backoffs, scores, bitmask, mesh, outbound, directs);
            let bad = value_or(scores, p, 0i64) < 0 && !directs.contains(p);
            &&& mesh.contains(p) && bad ==> u.prunes.contains(p)
            &&& (mesh.contains(p) && !bad) || u.grafts.contains(p) ==> (u.mesh.contains(p)
                || u.prunes.contains(p))
            &&& u.mesh.contains(p) ==> (mesh.contains(p) && !bad) || u.grafts.contains(p)
            &&& u.prunes.contains(p) ==> mesh.contains(p) || u.grafts.contains(p)
            &&& (mesh.contains(p) && !bad) && (outbound.contains(p) || directs.contains(p))
                ==> u.mesh.contains(p)
            &&& u.mesh.no_duplicates()
        }),
{
    let u = mesh_upkeep(params, subs, backoffs, scores, bitmask, mesh, outbound, directs);
    let good = is_welcome(scores, directs);
    let kept = mesh.filter(good);
    let bad = mesh.filter(crate::upkeep::is_unwanted(scores, directs));
    let all = with_items(kept, u.grafts);
    let safe = outbound + directs;
    lemma_filter_distinct(mesh, good);
    lemma_with_items(kept, u.grafts, p);
    let (left, pruned) = trimmed(params, scores, all, safe);
    law_large_meshes_are_cut(params, scores, all, safe, 0, p);
    if kept.contains(p) {
        mesh.lemma_filter_contains_rev(good, p);
        let k = choose|k: int| 0 <= k < kept.len() && kept[k] == p;
        mesh.lemma_filter_pred(good, k);
    }
    if mesh.contains(p) {
        let k = choose|k: int| 0 <= k < mesh.len() && mesh[k] == p;
        if value_or(scores, p, 0i64) < 0 && !directs.contains(p) {
            mesh.lemma_filter_contains(crate::upkeep::is_unwanted(scores, directs), k);
            let j = choose|j: int| 0 <= j < bad.len() && bad[j] == p;
            assert(u.prunes[j] == p);
        } else {
            assert(good(p));
            mesh.lemma_filter_contains(good, k);
        }
    }
    if pruned.contains(p) {
        let j = choose|j: int| 0 <= j < pruned.len() && pruned[j] == p;
        assert(u.prunes[bad.len() + j] == p);
    }
    if u.prunes.contains(p) {
        let j = choose|j: int| 0 <= j < u.prunes.len() && u.prunes[j] == p;
        if j < bad.len() {
            assert(bad[j] == p);
            mesh.lemma_filter_contains_rev(crate::upkeep::is_unwanted(scores, directs), p);
        } else {
            assert(pruned[j - bad.len()] == p);
        }
    }
    if all.contains(p) {
        let k = choose|k: int| 0 <= k < all.len() && all[k] == p;
        law_large_meshes_are_cut(params, scores, all, safe, k, p);
        if outbound.contains(p) {
            let j = choose|j: int| 0 <= j < outbound.len() && outbound[j] == p;
            assert(safe[j] == p);
        }
        if directs.contains(p) {
            let j = choose|j: int| 0 <= j < directs.len() && directs[j] == p;
            assert(safe[outbound.len() + j] == p);
        }
    }
    if all.len() > params.d_hi {
        lemma_filter_distinct(all, is_not_in(pruned));
    }
}

proof fn lemma_filter_distinct(s: Seq<u64>, p: spec_fn(u64) -> bool)
    requires
        s.no_duplicates(),
    ensures
        s.filter(p).no_duplicates(),
    decreases s.len(),
{
    reveal(Seq::filter);
    if s.len() > 0 {
        let rest = s.drop_last();
        lemma_filter_distinct(rest, p);
        let f = rest.filter(p);
        let t = s.filter(p);
        if p(s.last()) {
            assert forall|a: int, b: int|
                0 <= a < t.len() && 0 <= b < t.len() && a != b implies t[a] != t[b] by {
                if a < f.len() && b < f.len() {
                } else {
                    let k = if a < f.len() {
                        a
                    } else {
                        b
                    };
                    assert(f[k] == t[k]);
                    assert(f.contains(f[k]));
                    rest.lemma_filter_contains_rev(p, f[k]);
                    let i = choose|i: int| 0 <= i < rest.len() && rest[i] == f[k];
                    assert(s[i] == f[k]);
                    assert(s[s.len() - 1] == s.last());
                }
            }
        }
    }
}

/// The meshes are kept up bitmask by bitmask: one more gets the mesh, and the grafts and
/// prunes, of its own upkeep; dialed peers that are not in the mesh any more are no longer
/// counted. Every other mesh stays.
pub proof fn law_meshes_one_by_one(
    v: BehaviourView,
    scores: ScoreTable,
    bs: Seq<Seq<u8>>,
    b: Seq<u8>,
    other: Seq<u8>,
    i: int,
    x: u64,
)
    ensures
        ({
            let before = upkeep(v, scores, bs);
            let after = upkeep(v, scores, bs.push(b));
            let mesh = value_or(before.mesh, b, Seq::empty());
            let out = value_or(before.outbound, b, Seq::empty());
            let m = mesh_upkeep(
                v.params,
                v.peer_subscriptions,
                v.backoffs,
                scores,
                b,
                mesh,
                out,
                v.direct_peers,
            );
            let none = upkeep(v, scores, Seq::empty());
            &&& none.mesh == v.mesh && none.outbound == v.outbound_peers && none.grafts.len() == 0
                && none.prunes.len() == 0
            &&& value_of(after.mesh, b) == Some(m.mesh)
            &&& other != b ==> value_of(after.mesh, other) == value_of(before.mesh, other)
            &&& after.grafts.len() == before.grafts.len() + m.grafts.len()
            &&& before.grafts.is_prefix_of(after.grafts)
            &&& 0 <= i < m.grafts.len() ==> after.grafts[before.grafts.len() + i] == (m.grafts[i], b)
            &&& after.prunes.len() == before.prunes.len() + m.prunes.len()
            &&& before.prunes.is_prefix_of(after.prunes)
            &&& 0 <= i < m.prunes.len() ==> after.prunes[before.prunes.len() + i] == (m.prunes[i], b)
            &&& value_of(after.outbound, b) is Some
            &&& value_of(after.outbound, b)->Some_0.contains(x) <==> out.contains(x)
                && m.mesh.contains(x)
        }),
{
    assert(bs.push(b).drop_last() =~= bs);
    let before = upkeep(v, scores, bs);
    let mesh = value_or(before.mesh, b, Seq::empty());
    let out = value_or(before.outbound, b, Seq::empty());
    let m = mesh_upkeep(
        v.params,
        v.peer_subscriptions,
        v.backoffs,
        scores,
        b,
        mesh,
        out,
        v.direct_peers,
    );
    lemma_with_value(before.mesh, b, m.mesh, b);
    lemma_with_value(before.mesh, b, m.mesh, other);
    let p = crate::upkeep::is_in(m.mesh);
    let f = out.filter(p);
    lemma_with_value(before.outbound, b, f, b);
    if out.contains(x) && m.mesh.contains(x) {
        let k = choose|k: int| 0 <= k < out.len() && out[k] == x;
        out.lemma_filter_contains(p, k);
    }
    if f.contains(x) {
        out.lemma_filter_contains_rev(p, x);
        let k = choose|k: int| 0 <= k < f.len() && f[k] == x;
        out.lemma_filter_pred(p, k);
    }
}

/// A peer that is to join or leave a mesh is told so over its oldest connection, if it has
/// one. One that is told to leave is told for how many seconds it is backed off, and is
/// backed off from then on. A peer without a connection is told nothing.
pub proof fn law_peers_are_told(
    v: BehaviourView,
    now: u64,
    ps: Seq<(u64, Seq<u8>)>,
    peer: u64,
    bitmask: Seq<u8>,
    other: u64,
)
    requires
        now + v.params.prune_backoff <= u64::MAX,
    ensures
        ({
            let a = grafts_sent(v, ps);
            let b = grafts_sent(v, ps.push((peer, bitmask)));
            let c = prunes_sent(v, now, ps);
            let d = prunes_sent(v, now, ps.push((peer, bitmask)));
            let line = value_of(v.connected_peers, peer);
            let linked = line is Some && line->Some_0.len() > 0;
            &&& grafts_sent(v, Seq::empty()) == v && prunes_sent(v, now, Seq::empty()) == v
            &&& linked ==> b.events == a.events.push(
                EventView::Send {
                    peer_id: peer,
                    connection: Some(line->Some_0[0]),
                    rpc: OutView::Graft(bitmask),
                },
            )
            &&& !linked ==> b == a && d == c
            &&& linked ==> d.events == c.events.push(
                EventView::Send {
                    peer_id: peer,
                    connection: Some(line->Some_0[0]),
                    rpc: OutView::Prune { bitmask, backoff: v.params.prune_backoff / 1000 },
                },
            )
            &&& linked ==> backed_off_until(d, bitmask, peer) == Some(
                (now + v.params.prune_backoff) as u64,
            )
            &&& other != peer ==> backed_off_until(d, bitmask, other) == backed_off_until(
                c,
                bitmask,
                other,
            )
            &&& b == (BehaviourView { events: b.events, ..v })
            &&& d == (BehaviourView { events: d.events, backoffs: d.backoffs, ..v })
        }),
{
    assert(ps.push((peer, bitmask)).drop_last() =~= ps);
    crate::heartbeat::lemma_grafts_frame(v, ps);
    crate::heartbeat::lemma_prunes_frame(v, now, ps);
    let c = prunes_sent(v, now, ps);
    let until = (now + v.params.prune_backoff) as u64;
    let m = value_or(c.backoffs, bitmask, Seq::empty());
    lemma_with_value(m, peer, until, peer);
    lemma_with_value(m, peer, until, other);
    lemma_with_value(
        c.backoffs,
        bitmask,
        crate::assoc::with_value(m, peer, until),
        bitmask,
    );
    lemma_key_index_is(Seq::<(u64, u64)>::empty(), other, 0);
}

/// After the upkeep, the meshes are those that the upkeep of the subscribed bitmasks gives,
/// and its grafts and then its prunes are told.
pub proof fn law_upkeep_is_told(v: BehaviourView, scores: ScoreTable, now: u64)
    ensures
        ({
            let u = upkeep(v, scores, v.subscriptions);
            let w = meshes_kept(v, scores, now);
            let g = grafts_sent(v, u.grafts);
            &&& w.mesh == u.mesh
            &&& w.outbound_peers == u.outbound
            &&& w.events == prunes_sent(g, now, u.prunes).events
            &&& w.backoffs == prunes_sent(g, now, u.prunes).backoffs
        }),
{
    let u = upkeep(v, scores, v.subscriptions);
    let v1 = BehaviourView { mesh: u.mesh, outbound_peers: u.outbound, ..v };
    lemma_told_alike(v1, v, now, u.grafts, u.prunes);
}

proof fn lemma_told_alike(
    a: BehaviourView,
    b: BehaviourView,
    now: u64,
    gs: Seq<(u64, Seq<u8>)>,
    ps: Seq<(u64, Seq<u8>)>,
)
    requires
        a == (BehaviourView { mesh: a.mesh, outbound_peers: a.outbound_peers, ..b }),
    ensures
        ({
            let x = prunes_sent(grafts_sent(a, gs), now, ps);
            let y = prunes_sent(grafts_sent(b, gs), now, ps);
            x == (BehaviourView { mesh: a.mesh, outbound_peers: a.outbound_peers, ..y })
        }),
    decreases ps.len(), gs.len(),
{
    if ps.len() > 0 {
        lemma_told_alike(a, b, now, gs, ps.drop_last());
    } else if gs.len() > 0 {
        lemma_told_alike(a, b, now, gs.drop_last(), ps);
    }
}

/// A connected direct peer that is in the mesh of a subscribed bitmask by the care for direct
/// peers, and was not before, is told so; and if a direct peer is not connected, more peers
/// are asked for first.
pub proof fn law_direct_peers_are_told(v: BehaviourView)
    ensures
        ({
            let u = directs_kept(v);
            let g = with_direct(v, v.subscriptions);
            let missing = exists|i: int|
                0 <= i < v.direct_peers.len() && value_of(
                    v.connected_peers,
                    #[trigger] v.direct_peers[i],
                ) is None;
            let first = if missing {
                v.events.push(
                    EventView::NeedPeers {
                        subscriptions: v.subscriptions,
                        connected: v.connected_peers.len(),
                    },
                )
            } else {
                v.events
            };
            &&& v.direct_peers.len() == 0 ==> u == v
            &&& v.direct_peers.len() > 0 ==> u.mesh == g.mesh && u.events == grafts_sent(
                BehaviourView { events: first, ..v },
                g.grafts,
            ).events
        }),
{
    if v.direct_peers.len() > 0 {
        let g = with_direct(v, v.subscriptions);
        let asked = if direct_missing(v) {
            v.emit(crate::heartbeat::need_peers(v))
        } else {
            v
        };
        if exists|i: int|
            0 <= i < v.direct_peers.len() && value_of(
                v.connected_peers,
                #[trigger] v.direct_peers[i],
            ) is None {
            let i = choose|i: int|
                0 <= i < v.direct_peers.len() && value_of(
                    v.connected_peers,
                    #[trigger] v.direct_peers[i],
                ) is None;
            assert(!has_key(v.connected_peers, v.direct_peers[i]));
        }
        let a = BehaviourView { mesh: g.mesh, ..asked };
        lemma_told_alike(a, asked, 0, g.grafts, Seq::empty());
        crate::heartbeat::lemma_grafts_frame(a, g.grafts);
        assert(prunes_sent(grafts_sent(a, g.grafts), 0, Seq::empty()) == grafts_sent(a, g.grafts));
        assert(prunes_sent(grafts_sent(asked, g.grafts), 0, Seq::empty()) == grafts_sent(
            asked,
            g.grafts,
        ));
    }
}

/// Direct peers are brought in bitmask by bitmask: one more gets every direct peer that is
/// connected and not in its mesh, behind those that are there, and each of them is grafted.
pub proof fn law_direct_peers_one_by_one(
    v: BehaviourView,
    bs: Seq<Seq<u8>>,
    b: Seq<u8>,
    other: Seq<u8>,
    p: u64,
)
    ensures
        ({
            let before = with_direct(v, bs);
            let after = with_direct(v, bs.push(b));
            let mesh = value_or(before.mesh, b, Seq::empty());
            let comes = v.direct_peers.contains(p) && value_of(v.connected_peers, p) is Some
                && !mesh.contains(p);
            let none = with_direct(v, Seq::empty());
            &&& none.mesh == v.mesh && none.grafts.len() == 0
            &&& value_of(after.mesh, b) matches Some(m) && (m.contains(p) <==> mesh.contains(p)
                || comes)
            &&& other != b ==> value_of(after.mesh, other) == value_of(before.mesh, other)
            &&& before.grafts.is_prefix_of(after.grafts)
            &&& comes <==> exists|k: int|
                before.grafts.len() <= k < after.grafts.len() && #[trigger] after.grafts[k] == (p, b)
        }),
{
    assert(bs.push(b).drop_last() =~= bs);
    let before = with_direct(v, bs);
    let after = with_direct(v, bs.push(b));
    let mesh = value_or(before.mesh, b, Seq::empty());
    let q = crate::heartbeat::missing_direct(v.connected_peers, mesh);
    let more = v.direct_peers.filter(q);
    lemma_with_value(before.mesh, b, with_items(mesh, more), b);
    lemma_with_value(before.mesh, b, with_items(mesh, more), other);
    lemma_with_items(mesh, more, p);
    if v.direct_peers.contains(p) && value_of(v.connected_peers, p) is Some && !mesh.contains(p) {
        let i = choose|i: int| 0 <= i < v.direct_peers.len() && v.direct_peers[i] == p;
        assert(q(p));
        v.direct_peers.lemma_filter_contains(q, i);
        let k = choose|k: int| 0 <= k < more.len() && more[k] == p;
        assert(after.grafts[before.grafts.len() + k] == (p, b));
    }
    if more.contains(p) {
        v.direct_peers.lemma_filter_contains_rev(q, p);
        let k = choose|k: int| 0 <= k < more.len() && more[k] == p;
        v.direct_peers.lemma_filter_pred(q, k);
    }
    if exists|k: int|
        before.grafts.len() <= k < after.grafts.len() && #[trigger] after.grafts[k] == (p, b) {
        let k = choose|k: int|
            before.grafts.len() <= k < after.grafts.len() && #[trigger] after.grafts[k] == (p, b);
        assert(more[k - before.grafts.len()] == p);
    }
}

/// At a heartbeat the cache gets a new window; of more than ten thousand seen messages all
/// are forgotten; and a backoff stays exactly where it ends later than now.
pub proof fn law_what_runs_out(v: BehaviourView, now: u64, i: int, e: (u64, u64))
    ensures
        ({
            let u = expired(v, now);
            &&& u.mcache == v.mcache.shifted()
            &&& u.seen_messages == (if v.seen_messages.len() > 10_000 {
                Seq::empty()
            } else {
                v.seen_messages
            })
            &&& u.backoffs.len() == v.backoffs.len()
            &&& 0 <= i < v.backoffs.len() ==> u.backoffs[i].0 == v.backoffs[i].0 && (
            u.backoffs[i].1.contains(e) <==> v.backoffs[i].1.contains(e) && e.1 > now)
            &&& u == (BehaviourView {
                mcache: u.mcache,
                seen_messages: u.seen_messages,
                backoffs: u.backoffs,
                fanout: u.fanout,
                fanout_last_pub: u.fanout_last_pub,
                ..v
            })
        }),
{
    if 0 <= i < v.backoffs.len() {
        let s = v.backoffs[i].1;
        let p = still_on(now);
        if s.contains(e) && e.1 > now {
            let k = choose|k: int| 0 <= k < s.len() && s[k] == e;
            s.lemma_filter_contains(p, k);
        }
        if s.filter(p).contains(e) {
            s.lemma_filter_contains_rev(p, e);
            let k = choose|k: int| 0 <= k < s.filter(p).len() && s.filter(p)[k] == e;
            s.lemma_filter_pred(p, k);
        }
    }
}

proof fn lemma_without_keys<V>(s: Seq<(Seq<u8>, V)>, ks: Seq<Seq<u8>>, k: Seq<u8>)
    ensures
        value_of(without_keys(s, ks), k) == if ks.contains(k) {
            None
        } else {
            value_of(s, k)
        },
    decreases ks.len(),
{
    if ks.len() > 0 {
        let rest = ks.drop_last();
        lemma_without_keys(s, rest, k);
        lemma_value_dropped(without_keys(s, rest), ks.last(), k);
        assert(ks[ks.len() - 1] == ks.last());
        if rest.contains(k) {
            let i = choose|i: int| 0 <= i < rest.len() && rest[i] == k;
            assert(ks[i] == k);
        }
        if ks.contains(k) && ks.last() != k {
            let i = choose|i: int| 0 <= i < ks.len() && ks[i] == k;
            assert(rest[i] == k);
        }
    }
}

/// The fanout of a bitmask is let go at a heartbeat exactly where the bitmask was last
/// published to longer ago than its time.
pub proof fn law_fanouts_run_out(v: BehaviourView, now: u64, b: Seq<u8>)
    ensures
        ({
            let u = expired(v, now);
            let old = exists|i: int|
                0 <= i < v.fanout_last_pub.len() && (#[trigger] v.fanout_last_pub[i]).0 == b && now
                    >= v.fanout_last_pub[i].1 && now - v.fanout_last_pub[i].1 > v.params.fanout_ttl;
            &&& old ==> value_of(u.fanout, b) is None && value_of(u.fanout_last_pub, b) is None
            &&& !old ==> value_of(u.fanout, b) == value_of(v.fanout, b) && value_of(
                u.fanout_last_pub,
                b,
            ) == value_of(v.fanout_last_pub, b)
        }),
{
    let gone = stale_fanout(v.fanout_last_pub, now, v.params.fanout_ttl);
    lemma_without_keys(v.fanout, gone, b);
    lemma_without_keys(v.fanout_last_pub, gone, b);
    let p = not_fresh(now, v.params.fanout_ttl);
    let f = v.fanout_last_pub.filter(p);
    if gone.contains(b) {
        let k = choose|k: int| 0 <= k < gone.len() && gone[k] == b;
        v.fanout_last_pub.lemma_filter_pred(p, k);
        v.fanout_last_pub.lemma_filter_contains_rev(p, f[k]);
        let i = choose|i: int|
            0 <= i < v.fanout_last_pub.len() && v.fanout_last_pub[i] == f[k];
        assert(v.fanout_last_pub[i].0 == b);
    }
    if exists|i: int|
        0 <= i < v.fanout_last_pub.len() && (#[trigger] v.fanout_last_pub[i]).0 == b && now
            >= v.fanout_last_pub[i].1 && now - v.fanout_last_pub[i].1 > v.params.fanout_ttl {
        let i = choose|i: int|
            0 <= i < v.fanout_last_pub.len() && (#[trigger] v.fanout_last_pub[i]).0 == b && now
                >= v.fanout_last_pub[i].1 && now - v.fanout_last_pub[i].1 > v.params.fanout_ttl;
        assert(p(v.fanout_last_pub[i]));
        v.fanout_last_pub.lemma_filter_contains(p, i);
        let k = choose|k: int| 0 <= k < f.len() && f[k] == v.fanout_last_pub[i];
        assert(gone[k] == b);
    }
}

/// The recent messages of a bitmask are announced to peers outside its mesh: one more
/// bitmask, if it has any, is announced to each of up to `d_lazy` peers that subscribe, are
/// not in the mesh and whose score is not below the threshold, over the oldest connection.
pub proof fn law_announcing_one_by_one(
    v: BehaviourView,
    scores: ScoreTable,
    bs: Seq<Seq<u8>>,
    b: Seq<u8>,
    peer: u64,
)
    ensures
        ({
            let before = announced(v, scores, bs);
            let after = announced(v, scores, bs.push(b));
            let ids = v.mcache.gossip_ids(b);
            let mesh = value_or(v.mesh, b, Seq::empty());
            let to = chosen(
                v.peer_subscriptions,
                WantedView {
                    bitmask: b,
                    exclude: mesh,
                    backoffs: Seq::empty(),
                    backoff_rule: BackoffRule::Ignored,
                    scores,
                    score_rule: ScoreRule::AtLeast(v.params.gossip_threshold),
                },
                v.params.d_lazy as nat,
            );
            let line = value_of(v.connected_peers, peer);
            &&& announced(v, scores, Seq::empty()) == v
            &&& ids.len() == 0 ==> after == before
            &&& before.events.is_prefix_of(after.events)
            &&& ids.len() > 0 && to.contains(peer) && line is Some && line->Some_0.len() > 0
                ==> after.events.contains(
                EventView::Send {
                    peer_id: peer,
                    connection: Some(line->Some_0[0]),
                    rpc: OutView::Ihave { bitmask: b, ids },
                },
            )
            &&& after == (BehaviourView { events: after.events, ..v })
        }),
{
    assert(bs.push(b).drop_last() =~= bs);
    lemma_announced_events(v, scores, bs);
    let u = announced(v, scores, bs);
    let ids = u.mcache.gossip_ids(b);
    let to = chosen(
        u.peer_subscriptions,
        gossip_candidate(u, scores, b),
        u.params.d_lazy as nat,
    );
    lemma_ihaves(u, to, b, ids, peer);
}

proof fn lemma_announced_events(v: BehaviourView, scores: ScoreTable, bs: Seq<Seq<u8>>)
    ensures
        announced(v, scores, bs) == (BehaviourView { events: announced(v, scores, bs).events, ..v }),
        v.events.is_prefix_of(announced(v, scores, bs).events),
    decreases bs.len(),
{
    if bs.len() > 0 {
        lemma_announced_events(v, scores, bs.drop_last());
        let u = announced(v, scores, bs.drop_last());
        lemma_ihaves(
            u,
            chosen(
                u.peer_subscriptions,
                gossip_candidate(u, scores, bs.last()),
                u.params.d_lazy as nat,
            ),
            bs.last(),
            u.mcache.gossip_ids(bs.last()),
            0,
        );
    }
}

proof fn lemma_ihaves(v: BehaviourView, peers: Seq<u64>, b: Seq<u8>, ids: Seq<Seq<u8>>, peer: u64)
    ensures
        ({
            let u = ihaves_sent(v, peers, b, ids);
            let line = value_of(v.connected_peers, peer);
            &&& u == (BehaviourView { events: u.events, ..v })
            &&& v.events.is_prefix_of(u.events)
            &&& peers.contains(peer) && line is Some && line->Some_0.len() > 0 ==> u.events.contains(
                EventView::Send {
                    peer_id: peer,
                    connection: Some(line->Some_0[0]),
                    rpc: OutView::Ihave { bitmask: b, ids },
                },
            )
        }),
    decreases peers.len(),
{
    if peers.len() > 0 {
        let rest = peers.drop_last();
        lemma_ihaves(v, rest, b, ids, peer);
        let u = ihaves_sent(v, rest, b, ids);
        let w = ihaves_sent(v, peers, b, ids);
        let line = value_of(v.connected_peers, peer);
        if peers.contains(peer) && line is Some && line->Some_0.len() > 0 {
            let e = EventView::Send {
                peer_id: peer,
                connection: Some(line->Some_0[0]),
                rpc: OutView::Ihave { bitmask: b, ids },
            };
            if peers.last() == peer {
                assert(w.events.last() == e);
                assert(w.events[w.events.len() - 1] == e);
            } else {
                let i = choose|i: int| 0 <= i < peers.len() && peers[i] == peer;
                assert(rest[i] == peer);
                let k = choose|k: int| 0 <= k < u.events.len() && u.events[k] == e;
                assert(w.events[k] == e);
            }
        }
    }
}

/// The fanout of a bitmask keeps its connected peers, and takes in others that subscribe until
/// there are `d`, or all there are.
pub proof fn law_fanout_is_kept(v: BehaviourView, bitmask: Seq<u8>, peers: Seq<u64>, p: u64, i: int)
    ensures
        ({
            let f = fanout_of(v, bitmask, peers);
            let knows = exists|j: int|
                0 <= j < v.peer_subscriptions.len() && (#[trigger] v.peer_subscriptions[j]).0 == p
                    && v.peer_subscriptions[j].1.contains(bitmask);
            &&& peers.contains(p) && value_of(v.connected_peers, p) is Some ==> f.contains(p)
            &&& f.contains(p) ==> (peers.contains(p) && value_of(v.connected_peers, p) is Some)
                || knows
            &&& f.len() < v.params.d && knows && (forall|a: int, c: int|
                0 <= a < c < v.peer_subscriptions.len() ==> (#[trigger] v.peer_subscriptions[a]).0
                    != (#[trigger] v.peer_subscriptions[c]).0) ==> f.contains(p)
        }),
        ({
            let u = fanouts_kept(v);
            &&& u.fanout.len() == v.fanout.len()
            &&& 0 <= i < v.fanout.len() ==> u.fanout[i].0 == v.fanout[i].0 && u.fanout[i].1
                == fanout_of(v, v.fanout[i].0, v.fanout[i].1)
            &&& u == (BehaviourView { fanout: u.fanout, ..v })
        }),
{
    let q = is_connected(v.connected_peers);
    let kept = peers.filter(q);
    if peers.contains(p) && value_of(v.connected_peers, p) is Some {
        let k = choose|k: int| 0 <= k < peers.len() && peers[k] == p;
        assert(q(p));
        peers.lemma_filter_contains(q, k);
    }
    if kept.contains(p) {
        peers.lemma_filter_contains_rev(q, p);
        let k = choose|k: int| 0 <= k < kept.len() && kept[k] == p;
        peers.lemma_filter_pred(q, k);
    }
    if kept.len() < v.params.d {
        let w = WantedView {
            bitmask,
            exclude: kept,
            backoffs: Seq::empty(),
            backoff_rule: BackoffRule::Ignored,
            scores: Seq::empty(),
            score_rule: ScoreRule::Any,
        };
        let n = (v.params.d - kept.len()) as nat;
        let c = chosen(v.peer_subscriptions, w, n);
        law_choosing(v.peer_subscriptions, w, n, p);
        lemma_with_items(kept, c, p);
        if forall|a: int, c: int|
            0 <= a < c < v.peer_subscriptions.len() ==> (#[trigger] v.peer_subscriptions[a]).0 != (
            #[trigger] v.peer_subscriptions[c]).0 {
            lemma_chosen_distinct(v.peer_subscriptions, w, n);
            assert forall|k: int| 0 <= k < c.len() implies !kept.contains(#[trigger] c[k]) by {
                law_choosing(v.peer_subscriptions, w, n, c[k]);
                assert(c.contains(c[k]));
            }
            lemma_grown(kept, c);
        }
        if exists|j: int|
            0 <= j < v.peer_subscriptions.len() && (#[trigger] v.peer_subscriptions[j]).0 == p
                && v.peer_subscriptions[j].1.contains(bitmask) {
            let j = choose|j: int|
                0 <= j < v.peer_subscriptions.len() && (#[trigger] v.peer_subscriptions[j]).0 == p
                    && v.peer_subscriptions[j].1.contains(bitmask);
            if !kept.contains(p) {
                assert(v.peer_subscriptions[j].0 == p);
                assert(may_be_chosen(v.peer_subscriptions, w, p));
            }
        }
    }
}

pub proof fn lemma_chosen_distinct(subs: SubsView, w: WantedView, n: nat)
    requires
        forall|a: int, c: int|
            0 <= a < c < subs.len() ==> (#[trigger] subs[a]).0 != (#[trigger] subs[c]).0,
    ensures
        chosen(subs, w, n).no_duplicates(),
{
    let p = |e: (u64, Seq<Seq<u8>>)| w.admits(e.0, e.1);
    lemma_keys_distinct(subs, p);
    let f = subs.filter(p);
    let c = chosen(subs, w, n);
    assert forall|a: int, b: int|
        0 <= a < c.len() && 0 <= b < c.len() && a != b implies c[a] != c[b] by {
        assert(c[a] == f[a].0 && c[b] == f[b].0);
    }
}

proof fn lemma_keys_distinct(s: SubsView, p: spec_fn((u64, Seq<Seq<u8>>)) -> bool)
    requires
        forall|a: int, c: int| 0 <= a < c < s.len() ==> (#[trigger] s[a]).0 != (#[trigger] s[c]).0,
    ensures
        forall|a: int, c: int|
            0 <= a < s.filter(p).len() && 0 <= c < s.filter(p).len() && a != c ==> (
            #[trigger] s.filter(p)[a]).0 != (#[trigger] s.filter(p)[c]).0,
    decreases s.len(),
{
    reveal(Seq::filter);
    if s.len() > 0 {
        let rest = s.drop_last();
        assert forall|a: int, c: int| 0 <= a < c < rest.len() implies (#[trigger] rest[a]).0 != (
        #[trigger] rest[c]).0 by {
            assert(s[a].0 != s[c].0);
        }
        lemma_keys_distinct(rest, p);
        let f = rest.filter(p);
        let t = s.filter(p);
        if p(s.last()) {
            assert forall|a: int, c: int| 0 <= a < t.len() && 0 <= c < t.len() && a != c implies (
            #[trigger] t[a]).0 != (#[trigger] t[c]).0 by {
                if a < f.len() && c < f.len() {
                    assert(f[a].0 != f[c].0);
                } else {
                    let k = if a < f.len() {
                        a
                    } else {
                        c
                    };
                    assert(t[k] == f[k]);
                    assert(f.contains(f[k]));
                    rest.lemma_filter_contains_rev(p, f[k]);
                    let i = choose|i: int| 0 <= i < rest.len() && rest[i] == f[k];
                    assert(s[i].0 != s[s.len() - 1].0);
                }
            }
        }
    }
}

pub proof fn lemma_grown(s: Seq<u64>, c: Seq<u64>)
    requires
        c.no_duplicates(),
        forall|k: int| 0 <= k < c.len() ==> !s.contains(#[trigger] c[k]),
    ensures
        with_items(s, c).len() == s.len() + c.len(),
    decreases c.len(),
{
    if c.len() > 0 {
        let rest = c.drop_last();
        assert forall|k: int| 0 <= k < rest.len() implies !s.contains(#[trigger] rest[k]) by {
            assert(rest[k] == c[k]);
        }
        lemma_grown(s, rest);
        lemma_with_items(s, rest, c.last());
        assert(c[c.len() - 1] == c.last());
        if rest.contains(c.last()) {
            let i = choose|i: int| 0 <= i < rest.len() && rest[i] == c.last();
            assert(c[i] == c[c.len() - 1]);
        }
    }
}

/// More peers are asked for, with all subscriptions and the number of connected peers,
/// exactly where the mesh of a subscribed bitmask has fewer than `d_lo` peers.
pub proof fn law_more_peers_are_asked_for(v: BehaviourView)
    ensures
        ({
            let u = peers_asked(v);
            let few = exists|i: int|
                0 <= i < v.subscriptions.len() && (match value_of(
                    v.mesh,
                    #[trigger] v.subscriptions[i],
                ) {
                    Some(m) => m.len(),
                    None => 0,
                }) < v.params.d_lo;
            &&& few ==> u == (BehaviourView {
                events: v.events.push(
                    EventView::NeedPeers {
                        subscriptions: v.subscriptions,
                        connected: v.connected_peers.len(),
                    },
                ),
                ..v
            })
            &&& !few ==> u == v
        }),
{
    if exists|i: int|
        0 <= i < v.subscriptions.len() && (match value_of(v.mesh, #[trigger] v.subscriptions[i]) {
            Some(m) => m.len(),
            None => 0,
        }) < v.params.d_lo {
        let i = choose|i: int|
            0 <= i < v.subscriptions.len() && (match value_of(
                v.mesh,
                #[trigger] v.subscriptions[i],
            ) {
                Some(m) => m.len(),
                None => 0,
            }) < v.params.d_lo;
        assert(value_or(v.mesh, v.subscriptions[i], Seq::empty()).len() < v.params.d_lo);
    }
    if starved(v) {
        let i = choose|i: int|
            0 <= i < v.subscriptions.len() && value_or(
                v.mesh,
                #[trigger] v.subscriptions[i],
                Seq::empty(),
            ).len() < v.params.d_lo;
        assert((match value_of(v.mesh, v.subscriptions[i]) {
            Some(m) => m.len(),
            None => 0,
        }) < v.params.d_lo);
    }
}

/// The scores of the peers of a mesh.
pub open spec fn scores_in(scores: ScoreTable, mesh: Seq<u64>) -> Seq<i64> {
    Seq::new(mesh.len(), |i: int| value_or(scores, mesh[i], 0i64))
}

/// The median of a mesh's scores is the one in the middle, the upper of two, however they are
/// put in ascending order.
pub proof fn law_median_is_in_the_middle(scores: ScoreTable, mesh: Seq<u64>, s: Seq<i64>)
    requires
        mesh.len() > 0,
        s.to_multiset() == scores_in(scores, mesh).to_multiset(),
        forall|i: int, j: int| 0 <= i < j < s.len() ==> s[i] <= s[j],
    ensures
        s.len() == mesh.len(),
        median(scores, mesh) == s[mesh.len() as int / 2],
{
    let all = scores_in(scores, mesh);
    assert(all =~= Seq::new(mesh.len(), |i: int| score_of(scores, mesh[i])));
    let leq = ascending();
    assert(total_ordering(leq)) by {
        assert(reflexive(leq));
        assert(antisymmetric(leq));
        assert(transitive(leq));
        assert(strongly_connected(leq));
    }
    let t = all.sort_by(leq);
    all.lemma_sort_by_ensures(leq);
    all.to_multiset_ensures();
    s.to_multiset_ensures();
    t.to_multiset_ensures();
    assert(sorted_by(s, leq));
    lemma_sorted_unique(s, t, leq);
}

/// Every sixty heartbeats, and only then, a mesh whose median score is below the threshold
/// takes in one peer that subscribes to its bitmask, is not in it, has no backoff, and whose
/// score exceeds the median and is not negative, if there is one.
pub proof fn law_better_peers(v: BehaviourView, scores: ScoreTable, b: Seq<u8>, p: u64)
    ensures
        ({
            let c = better_peer(v, scores, b);
            let mesh = value_or(v.mesh, b, Seq::empty());
            let low = median(scores, mesh);
            let better = exists|i: int|
                0 <= i < v.peer_subscriptions.len() && (#[trigger] v.peer_subscriptions[i]).0 == p
                    && v.peer_subscriptions[i].1.contains(b) && !mesh.contains(p)
                    && backed_off_until(v, b, p) is None && value_or(scores, p, 0i64) > low
                    && value_or(scores, p, 0i64) >= 0;
            &&& mesh.len() == 0 || low >= v.params.opportunistic_graft_threshold ==> c.len() == 0
            &&& c.len() <= 1
            &&& c.contains(p) ==> better
            &&& mesh.len() > 0 && low < v.params.opportunistic_graft_threshold && better
                ==> c.len() == 1
            &&& v.heartbeat_ticks % 60 != 0 ==> improved(v, scores) == v
            &&& v.heartbeat_ticks % 60 == 0 ==> improved(v, scores) == taken_in(
                v,
                better_peers(v, scores, v.subscriptions),
            )
        }),
{
    let mesh = value_or(v.mesh, b, Seq::empty());
    let low = median(scores, mesh);
    let w = WantedView {
        bitmask: b,
        exclude: mesh,
        backoffs: v.backoffs,
        backoff_rule: BackoffRule::AnyEntry,
        scores,
        score_rule: ScoreRule::Above(crate::rounds::graft_floor(low)),
    };
    law_choosing(v.peer_subscriptions, w, 1, p);
    if exists|i: int|
        0 <= i < v.peer_subscriptions.len() && (#[trigger] v.peer_subscriptions[i]).0 == p
            && v.peer_subscriptions[i].1.contains(b) && !mesh.contains(p) && backed_off_until(
            v,
            b,
            p,
        ) is None && value_or(scores, p, 0i64) > low && value_or(scores, p, 0i64) >= 0 {
        assert(may_be_chosen(v.peer_subscriptions, w, p));
    }
    if may_be_chosen(v.peer_subscriptions, w, p) {
        let i = choose|i: int|
            0 <= i < v.peer_subscriptions.len() && (#[trigger] v.peer_subscriptions[i]).0 == p
                && v.peer_subscriptions[i].1.contains(b) && !mesh.contains(p)
                && crate::gossip::backoff_of(v.backoffs, b, p) is None && value_or(scores, p, 0i64)
                > crate::rounds::graft_floor(low);
        assert(v.peer_subscriptions[i].0 == p);
    }
}

/// The better peers are found bitmask by bitmask; and each of them comes into its mesh, and
/// is told so over its oldest connection.
pub proof fn law_better_peers_come(
    v: BehaviourView,
    scores: ScoreTable,
    bs: Seq<Seq<u8>>,
    b: Seq<u8>,
    ps: Seq<(u64, Seq<u8>)>,
    p: u64,
    other: Seq<u8>,
)
    ensures
        better_peers(v, scores, Seq::empty()).len() == 0,
        better_peers(v, scores, bs.push(b)) == better_peers(v, scores, bs) + Seq::new(
            better_peer(v, scores, b).len(),
            |i: int| (better_peer(v, scores, b)[i], b),
        ),
        taken_in(v, Seq::empty()) == v,
        ({
            let before = taken_in(v, ps);
            let after = taken_in(v, ps.push((p, b)));
            let line = value_of(v.connected_peers, p);
            let linked = line is Some && line->Some_0.len() > 0;
            &&& value_of(after.mesh, b) matches Some(m) && m.contains(p)
            &&& other != b ==> value_of(after.mesh, other) == value_of(before.mesh, other)
            &&& linked ==> after.events == before.events.push(
                EventView::Send {
                    peer_id: p,
                    connection: Some(line->Some_0[0]),
                    rpc: OutView::Graft(b),
                },
            )
            &&& !linked ==> after.events == before.events
        }),
{
    assert(bs.push(b).drop_last() =~= bs);
    assert(ps.push((p, b)).drop_last() =~= ps);
    assert(better_peers(v, scores, bs.push(b)) =~= better_peers(v, scores, bs) + Seq::new(
        better_peer(v, scores, b).len(),
        |i: int| (better_peer(v, scores, b)[i], b),
    ));
    let before = taken_in(v, ps);
    lemma_taken_keeps_peers(v, ps);
    let m = value_or(before.mesh, b, Seq::empty());
    crate::assoc::lemma_with_item(m, p, p);
    lemma_with_value(before.mesh, b, crate::assoc::with_item(m, p), b);
    lemma_with_value(before.mesh, b, crate::assoc::with_item(m, p), other);
}

proof fn lemma_taken_keeps_peers(v: BehaviourView, ps: Seq<(u64, Seq<u8>)>)
    ensures
        taken_in(v, ps).connected_peers == v.connected_peers,
    decreases ps.len(),
{
    if ps.len() > 0 {
        lemma_taken_keeps_peers(v, ps.drop_last());
    }
}

/// A heartbeat is counted, and follows up what is overdue; it then cares for the direct
/// peers, lets go what has run out, keeps the meshes up, announces, keeps the fanouts up, asks
/// for peers, and looks for better ones, each step on what the one before left.
pub proof fn law_heartbeat_in_order(v: BehaviourView, scores: ScoreTable, now: u64)
    requires
        v.heartbeat_ticks < u64::MAX,
    ensures
        ({
            let a = beat_begun(v, now);
            let b = expired(directs_kept(a), now);
            let c = meshes_kept(b, scores, now);
            let d = fanouts_kept(announced(c, scores, c.subscriptions));
            &&& a.heartbeat_ticks == v.heartbeat_ticks + 1
            &&& a == crate::followups::followed_up(
                BehaviourView { heartbeat_ticks: a.heartbeat_ticks, ..v },
                now,
            )
            &&& beat_kept(a, scores, now) == improved(peers_asked(d), scores)
        }),
{
    let w = BehaviourView { heartbeat_ticks: (v.heartbeat_ticks + 1) as u64, ..v };
    crate::membership_laws::law_followed_up(w, now, Seq::empty(), (0, Seq::empty()));
}

} // verus!
