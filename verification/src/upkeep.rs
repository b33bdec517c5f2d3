//! The upkeep of the meshes at a heartbeat: who leaves, who comes, and who hears
//! of new messages.

use vstd::prelude::*;

use crate::assoc::{key_views, lemma_with_items, value_or, with_items, with_value, KeySet};
use crate::behaviour::{BehaviourView, BlossomSubBehaviour, BlossomsubParams};
use crate::blossomsub::{for_bitmask, lemma_concat_contains, pair_views, push_pairs};
use crate::bytes::{copy_all, copy_bytes, views};
use crate::gossip::{
    choose_peers, chosen, score_of, BackoffRule, BackoffsView, ScoreRule, Scores, SubsView,
    Wanted, WantedView,
};
use crate::heartbeat::{
    grafts_sent, lemma_grafts_frame, lemma_prunes_frame, prunes_sent, ScoreTable,
};

verus! {

/// Does a peer have to leave? Its score is negative, and it is not a direct peer.
pub open spec fn is_unwanted(scores: ScoreTable, directs: Seq<u64>) -> spec_fn(u64) -> bool {
    |p: u64| score_of(scores, p) < 0 && !directs.contains(p)
}

/// May a peer stay? Its score is not negative, or it is a direct peer.
pub open spec fn is_welcome(scores: ScoreTable, directs: Seq<u64>) -> spec_fn(u64) -> bool {
    |p: u64| score_of(scores, p) >= 0 || directs.contains(p)
}

/// Is a peer one of the list?
pub open spec fn is_in(list: Seq<u64>) -> spec_fn(u64) -> bool {
    |p: u64| list.contains(p)
}

/// Is a peer none of the list?
pub open spec fn is_not_in(list: Seq<u64>) -> spec_fn(u64) -> bool {
    |p: u64| !list.contains(p)
}

/// Does the peer at place `j` of a mesh come before the one at place `i`? The
/// better score does, and of equal ones the one that was there first.
pub open spec fn comes_before(scores: ScoreTable, m: Seq<u64>, j: int, i: int) -> bool {
    score_of(scores, m[j]) > score_of(scores, m[i]) || (score_of(scores, m[j]) == score_of(
        scores,
        m[i],
    ) && j < i)
}

/// How many of the first `n` peers of a mesh come before the one at place `i`.
pub open spec fn rank(scores: ScoreTable, m: Seq<u64>, i: int, n: int) -> nat
    decreases n,
{
    if n <= 0 {
        0
    } else {
        rank(scores, m, i, n - 1) + if comes_before(scores, m, n - 1, i) {
            1nat
        } else {
            0nat
        }
    }
}

/// Is the peer at place `i` safe from pruning? The `d_score` best ones are, and
/// those of the list.
pub open spec fn is_protected(scores: ScoreTable, m: Seq<u64>, safe: Seq<u64>, d_score: nat, i: int) -> bool {
    rank(scores, m, i, m.len() as int) < d_score || safe.contains(m[i])
}

/// The first `n` peers of a mesh that are not safe from pruning.
pub open spec fn unprotected(
    scores: ScoreTable,
    m: Seq<u64>,
    safe: Seq<u64>,
    d_score: nat,
    n: int,
) -> Seq<u64>
    decreases n,
{
    if n <= 0 {
        Seq::empty()
    } else {
        let before = unprotected(scores, m, safe, d_score, n - 1);
        if is_protected(scores, m, safe, d_score, n - 1) {
            before
        } else {
            before.push(m[n - 1])
        }
    }
}

/// What is asked of a peer that a heartbeat may graft: it subscribes, is not in
/// the mesh, has no backoff, and its score is not negative.
pub open spec fn graft_candidate(
    backoffs: BackoffsView,
    scores: ScoreTable,
    bitmask: Seq<u8>,
    mesh: Seq<u64>,
) -> WantedView {
    WantedView {
        bitmask,
        exclude: mesh,
        backoffs,
        backoff_rule: BackoffRule::AnyEntry,
        scores,
        score_rule: ScoreRule::AtLeast(0),
    }
}

/// The upkeep of one mesh: its peers, those grafted, those pruned.
pub struct MeshUpkeep {
    pub mesh: Seq<u64>,
    pub grafts: Seq<u64>,
    pub prunes: Seq<u64>,
}

/// The upkeep of a mesh that has grown too large: peers that are not safe are
/// pruned, in order, until `d` are left.
pub open spec fn trimmed(params: BlossomsubParams, scores: ScoreTable, m: Seq<u64>, safe: Seq<u64>) -> (
    Seq<u64>,
    Seq<u64>,
) {
    if m.len() > params.d_hi {
        let pruned = crate::gossip::at_most(
            unprotected(scores, m, safe, params.d_score as nat, m.len() as int),
            (m.len() - params.d) as nat,
        );
        (m.filter(is_not_in(pruned)), pruned)
    } else {
        (m, Seq::empty())
    }
}

/// The upkeep of a mesh. Peers with a negative score leave. If fewer than `d_lo`
/// are left, candidates come until there are `d`; if more than `d_hi`, some are
/// pruned, but none that was dialed. Direct peers stay whatever their score, and
/// however large the mesh is.
pub open spec fn mesh_upkeep(
    params: BlossomsubParams,
    subs: SubsView,
    backoffs: BackoffsView,
    scores: ScoreTable,
    bitmask: Seq<u8>,
    mesh: Seq<u64>,
    outbound: Seq<u64>,
    directs: Seq<u64>,
) -> MeshUpkeep {
    let kept = mesh.filter(is_welcome(scores, directs));
    let bad = mesh.filter(is_unwanted(scores, directs));
    let grafts = if kept.len() < params.d_lo {
        chosen(
            subs,
            graft_candidate(backoffs, scores, bitmask, kept),
            (params.d - kept.len()) as nat,
        )
    } else {
        Seq::empty()
    };
    let (left, pruned) = trimmed(params, scores, with_items(kept, grafts), outbound + directs);
    MeshUpkeep { mesh: left, grafts, prunes: bad + pruned }
}

/// The meshes, the dialed peers in them, and what to tell the peers.
#[verifier::ext_equal]
pub struct Upkeep {
    pub mesh: Seq<(Seq<u8>, Seq<u64>)>,
    pub outbound: Seq<(Seq<u8>, Seq<u64>)>,
    pub grafts: Seq<(u64, Seq<u8>)>,
    pub prunes: Seq<(u64, Seq<u8>)>,
}

/// The upkeep of the mesh of each of the bitmasks, in order. Dialed peers that are
/// not in the mesh any more are no longer counted.
pub open spec fn upkeep(v: BehaviourView, scores: ScoreTable, bs: Seq<Seq<u8>>) -> Upkeep
    decreases bs.len(),
{
    if bs.len() == 0 {
        Upkeep {
            mesh: v.mesh,
            outbound: v.outbound_peers,
            grafts: Seq::empty(),
            prunes: Seq::empty(),
        }
    } else {
        let u = upkeep(v, scores, bs.drop_last());
        let b = bs.last();
        let out = value_or(u.outbound, b, Seq::empty());
        let m = mesh_upkeep(
            v.params,
            v.peer_subscriptions,
            v.backoffs,
            scores,
            b,
            value_or(u.mesh, b, Seq::empty()),
            out,
            v.direct_peers,
        );
        Upkeep {
            mesh: with_value(u.mesh, b, m.mesh),
            outbound: with_value(u.outbound, b, out.filter(is_in(m.mesh))),
            grafts: u.grafts + for_bitmask(m.grafts, b),
            prunes: u.prunes + for_bitmask(m.prunes, b),
        }
    }
}

/// The state after the upkeep of the meshes of all subscriptions.
pub open spec fn meshes_kept(v: BehaviourView, scores: ScoreTable, now: u64) -> BehaviourView {
    let u = upkeep(v, scores, v.subscriptions);
    prunes_sent(
        grafts_sent(BehaviourView { mesh: u.mesh, outbound_peers: u.outbound, ..v }, u.grafts),
        now,
        u.prunes,
    )
}

fn split_by_score(scores: &Scores, directs: &KeySet<u64>, mesh: &KeySet<u64>) -> (r: (Vec<u64>, Vec<u64>))
    ensures
        r.0@ == mesh@.filter(is_welcome(scores@, directs@)),
        r.1@ == mesh@.filter(is_unwanted(scores@, directs@)),
{
    let ghost s = mesh@;
    let ghost yes = is_welcome(scores@, directs@);
    let ghost no = is_unwanted(scores@, directs@);
    let mut kept: Vec<u64> = Vec::new();
    let mut bad: Vec<u64> = Vec::new();
    let mut i: usize = 0;
    reveal(Seq::filter);
    assert(kept@ =~= s.take(0).filter(yes));
    assert(bad@ =~= s.take(0).filter(no));
    while i < mesh.items.len()
        invariant
            i <= mesh.items@.len(),
            s == mesh@,
            yes == is_welcome(scores@, directs@),
            no == is_unwanted(scores@, directs@),
            kept@ == s.take(i as int).filter(yes),
            bad@ == s.take(i as int).filter(no),
        decreases mesh.items@.len() - i,
    {
        proof {
            assert(s.take(i + 1).drop_last() =~= s.take(i as int));
            assert(s.take(i + 1).last() == s[i as int]);
            reveal(Seq::filter);
        }
        let p: u64 = mesh.items[i];
        if scores.score(p) < 0 && !directs.contains(&p) {
            bad.push(p);
        } else {
            kept.push(p);
        }
        i += 1;
    }
    assert(s.take(i as int) =~= s);
    (kept, bad)
}

fn count_before(scores: &Scores, m: &Vec<u64>, i: usize) -> (r: usize)
    requires
        i < m@.len(),
    ensures
        r == rank(scores@, m@, i as int, m@.len() as int),
{
    let mine: i64 = scores.score(m[i]);
    let mut n: usize = 0;
    let mut count: usize = 0;
    while n < m.len()
        invariant
            i < m@.len(),
            n <= m@.len(),
            mine == score_of(scores@, m@[i as int]),
            count <= n,
            count == rank(scores@, m@, i as int, n as int),
        decreases m@.len() - n,
    {
        let theirs: i64 = scores.score(m[n]);
        if theirs > mine || (theirs == mine && n < i) {
            count += 1;
        }
        n += 1;
    }
    count
}

fn filter_peers(m: &Vec<u64>, list: &KeySet<u64>, keep_listed: bool) -> (r: KeySet<u64>)
    ensures
        keep_listed ==> r@ == m@.filter(is_in(list@)),
        !keep_listed ==> r@ == m@.filter(is_not_in(list@)),
{
    let ghost s = m@;
    let ghost p = if keep_listed {
        is_in(list@)
    } else {
        is_not_in(list@)
    };
    let mut out: Vec<u64> = Vec::new();
    let mut i: usize = 0;
    reveal(Seq::filter);
    assert(out@ =~= s.take(0).filter(p));
    while i < m.len()
        invariant
            i <= m@.len(),
            s == m@,
            p == (if keep_listed {
                is_in(list@)
            } else {
                is_not_in(list@)
            }),
            out@ == s.take(i as int).filter(p),
        decreases m@.len() - i,
    {
        proof {
            assert(s.take(i + 1).drop_last() =~= s.take(i as int));
            assert(s.take(i + 1).last() == s[i as int]);
            reveal(Seq::filter);
        }
        if list.contains(&m[i]) == keep_listed {
            out.push(m[i]);
        }
        i += 1;
    }
    assert(s.take(i as int) =~= s);
    let r = KeySet { items: out };
    assert(r@ =~= out@);
    r
}

fn trim(
    params: &BlossomsubParams,
    scores: &Scores,
    m: KeySet<u64>,
    outbound: &KeySet<u64>,
    directs: &KeySet<u64>,
) -> (r: (KeySet<u64>, Vec<u64>))
    requires
        params.d <= params.d_hi + 1,
    ensures
        ({
            let t = trimmed(*params, scores@, m@, outbound@ + directs@);
            &&& r.0@ == t.0
            &&& r.1@ == t.1
        }),
{
    if m.items.len() <= params.d_hi {
        assert(m@.len() == m.items@.len());
        return (m, Vec::new());
    }
    let ghost mv = m@;
    assert(mv =~= m.items@);
    let mut open: Vec<u64> = Vec::new();
    let mut i: usize = 0;
    while i < m.items.len()
        invariant
            i <= m.items@.len(),
            mv == m.items@,
            open@ == unprotected(
                scores@,
                mv,
                outbound@ + directs@,
                params.d_score as nat,
                i as int,
            ),
        decreases m.items@.len() - i,
    {
        proof {
            lemma_concat_contains(outbound@, directs@, mv[i as int]);
        }
        if !(count_before(scores, &m.items, i) < params.d_score || outbound.contains(&m.items[i])
            || directs.contains(&m.items[i])) {
            open.push(m.items[i]);
        }
        i += 1;
    }
    let excess: usize = m.items.len() - params.d;
    let ghost all = open@;
    open.truncate(excess);
    let ghost pruned = crate::gossip::at_most(all, excess as nat);
    assert(open@ =~= pruned);
    let gone = KeySet { items: open };
    assert(gone@ =~= pruned);
    let left = filter_peers(&m.items, &gone, false);
    (left, gone.items)
}

impl BlossomSubBehaviour {
    /// A mesh below its lower bound does not exceed the target, and one above its upper
    /// bound does not fall short of it.
    pub open spec fn bounds_ok(&self) -> bool {
        self.params.d_lo <= self.params.d + 1 && self.params.d <= self.params.d_hi + 1
    }

    fn upkeep_one(&self, scores: &Scores, bitmask: &Vec<u8>, mesh: &KeySet<u64>, outbound: &KeySet<u64>) -> (r:
        (KeySet<u64>, Vec<u64>, Vec<u64>))
        requires
            self.bounds_ok(),
        ensures
            ({
                let m = mesh_upkeep(
                    self.params,
                    self@.peer_subscriptions,
                    self@.backoffs,
                    scores@,
                    bitmask@,
                    mesh@,
                    outbound@,
                    self@.direct_peers,
                );
                &&& r.0@ == m.mesh
                &&& r.1@ == m.grafts
                &&& r.2@ == m.prunes
            }),
    {
        let (kept, bad) = split_by_score(scores, &self.direct_peers, mesh);
        let ghost kv = kept@;
        let n: usize = kept.len();
        let mut set = KeySet { items: kept };
        assert(set@ =~= kv);
        let grafts: Vec<u64> = if n < self.params.d_lo {
            choose_peers(
                &self.peer_subscriptions,
                &Wanted {
                    bitmask,
                    exclude: &set,
                    backoffs: &self.backoffs,
                    backoff_rule: BackoffRule::AnyEntry,
                    scores,
                    score_rule: ScoreRule::AtLeast(0),
                },
                self.params.d - n,
            )
        } else {
            Vec::new()
        };
        assert(key_views(grafts@) =~= grafts@);
        set.insert_all(&grafts);
        let (left, pruned) = trim(&self.params, scores, set, outbound, &self.direct_peers);
        let mut prunes = bad;
        let mut more = pruned;
        let ghost (bv, pv) = (prunes@, more@);
        prunes.append(&mut more);
        assert(prunes@ =~= bv + pv);
        (left, grafts, prunes)
    }

    /// Keeps the mesh of every subscription within its bounds.
    pub(crate) fn keep_meshes(&mut self, scores: &Scores, now: u64)
        requires
            old(self).bounds_ok(),
            now + old(self).params.prune_backoff <= u64::MAX,
        ensures
            final(self)@ == meshes_kept(old(self)@, scores@, now),
            final(self).params == old(self).params,
            old(self).wf() ==> final(self).wf(),
    {
        let ghost start = self@;
        let ghost bs = start.subscriptions;
        let bitmasks = copy_all(&self.subscriptions.items);
        assert(views(bitmasks@) =~= bs);
        let mut grafts: Vec<(u64, Vec<u8>)> = Vec::new();
        let mut prunes: Vec<(u64, Vec<u8>)> = Vec::new();
        let mut i: usize = 0;
        proof {
            assert(bs.take(0) =~= Seq::<Seq<u8>>::empty());
            assert(pair_views(grafts@) =~= Seq::<(u64, Seq<u8>)>::empty());
            assert(pair_views(prunes@) =~= Seq::<(u64, Seq<u8>)>::empty());
        }
        while i < bitmasks.len()
            invariant
                i <= bitmasks@.len(),
                bs == views(bitmasks@),
                start == old(self)@,
                self.params == old(self).params,
                self.params == start.params,
                self.bounds_ok(),
                old(self).wf() ==> self.wf(),
                ({
                    let u = upkeep(start, scores@, bs.take(i as int));
                    &&& self@ == (BehaviourView {
                        mesh: u.mesh,
                        outbound_peers: u.outbound,
                        ..start
                    })
                    &&& pair_views(grafts@) == u.grafts
                    &&& pair_views(prunes@) == u.prunes
                }),
            decreases bitmasks@.len() - i,
        {
            proof {
                assert(bs.take(i + 1).drop_last() =~= bs.take(i as int));
                assert(bs.take(i + 1).last() == bs[i as int]);
            }
            let bitmask = &bitmasks[i];
            let m = match self.mesh.get(bitmask) {
                Some(m) => m.dup(),
                None => KeySet::new(),
            };
            let out = match self.outbound_peers.get(bitmask) {
                Some(o) => o.dup(),
                None => KeySet::new(),
            };
            let (left, g, p) = self.upkeep_one(scores, bitmask, &m, &out);
            let dialed = filter_peers(&out.items, &left, true);
            assert(out@ =~= out.items@);
            push_pairs(&mut grafts, &g, bitmask);
            push_pairs(&mut prunes, &p, bitmask);
            self.mesh.insert(copy_bytes(bitmask.as_slice()), left);
            self.outbound_peers.insert(copy_bytes(bitmask.as_slice()), dialed);
            i += 1;
        }
        assert(bs.take(i as int) =~= bs);
        let ghost u = upkeep(start, scores@, bs);
        let ghost v1 = BehaviourView { mesh: u.mesh, outbound_peers: u.outbound, ..start };
        proof {
            lemma_grafts_frame(v1, u.grafts);
            lemma_prunes_frame(grafts_sent(v1, u.grafts), now, u.prunes);
        }
        let ghost before = self@;
        self.send_grafts(&grafts);
        assert(self@.params == before.params);
        self.send_prunes(now, &prunes);
    }
}

/// The upkeep keeps a peer with a negative score out of the mesh, prunes it, and
/// does not graft it, unless it is a direct peer.
pub proof fn law_negative_score_leaves(
    params: BlossomsubParams,
    subs: SubsView,
    backoffs: BackoffsView,
    scores: ScoreTable,
    bitmask: Seq<u8>,
    mesh: Seq<u64>,
    outbound: Seq<u64>,
    directs: Seq<u64>,
    peer: u64,
)
    requires
        score_of(scores, peer) < 0,
        !directs.contains(peer),
    ensures
        ({
            let u = mesh_upkeep(params, subs, backoffs, scores, bitmask, mesh, outbound, directs);
            &&& !u.mesh.contains(peer)
            &&& !u.grafts.contains(peer)
            &&& mesh.contains(peer) ==> u.prunes.contains(peer)
        }),
{
    let u = mesh_upkeep(params, subs, backoffs, scores, bitmask, mesh, outbound, directs);
    let kept = mesh.filter(is_welcome(scores, directs));
    let bad = mesh.filter(is_unwanted(scores, directs));
    let w = graft_candidate(backoffs, scores, bitmask, kept);
    if u.grafts.contains(peer) {
        let i = choose|i: int| 0 <= i < u.grafts.len() && u.grafts[i] == peer;
        crate::gossip::law_chosen_are_wanted(subs, w, (params.d - kept.len()) as nat);
        assert(crate::gossip::wanted_in(subs, w, u.grafts[i]));
        assert(false);
    }
    let all = with_items(kept, u.grafts);
    if all.contains(peer) {
        lemma_with_items(kept, u.grafts, peer);
        let i = choose|i: int| 0 <= i < kept.len() && kept[i] == peer;
        mesh.lemma_filter_pred(is_welcome(scores, directs), i);
        assert(false);
    }
    if u.mesh.contains(peer) {
        let t = trimmed(params, scores, all, outbound + directs);
        if all.len() > params.d_hi {
            all.lemma_filter_contains_rev(is_not_in(t.1), peer);
        }
        assert(false);
    }
    if mesh.contains(peer) {
        let i = choose|i: int| 0 <= i < mesh.len() && mesh[i] == peer;
        mesh.lemma_filter_contains(is_unwanted(scores, directs), i);
        let j = choose|j: int| 0 <= j < bad.len() && bad[j] == peer;
        assert(u.prunes[j] == peer);
    }
}

/// The upkeep leaves a direct peer in the mesh, whatever its score and however large the
/// mesh is, and does not prune it.
pub proof fn law_direct_peers_stay(
    params: BlossomsubParams,
    subs: SubsView,
    backoffs: BackoffsView,
    scores: ScoreTable,
    bitmask: Seq<u8>,
    mesh: Seq<u64>,
    outbound: Seq<u64>,
    directs: Seq<u64>,
    peer: u64,
)
    requires
        directs.contains(peer),
        mesh.contains(peer),
    ensures
        ({
            let u = mesh_upkeep(params, subs, backoffs, scores, bitmask, mesh, outbound, directs);
            u.mesh.contains(peer) && !u.prunes.contains(peer)
        }),
{
    let u = mesh_upkeep(params, subs, backoffs, scores, bitmask, mesh, outbound, directs);
    let kept = mesh.filter(is_welcome(scores, directs));
    let bad = mesh.filter(is_unwanted(scores, directs));
    let i = choose|i: int| 0 <= i < mesh.len() && mesh[i] == peer;
    mesh.lemma_filter_contains(is_welcome(scores, directs), i);
    let all = with_items(kept, u.grafts);
    lemma_with_items(kept, u.grafts, peer);
    let safe = outbound + directs;
    lemma_concat_contains(outbound, directs, peer);
    let t = trimmed(params, scores, all, safe);
    let open = unprotected(scores, all, safe, params.d_score as nat, all.len() as int);
    lemma_safe_is_not_open(scores, all, safe, params.d_score as nat, all.len() as int, peer);
    if t.1.contains(peer) {
        let j = choose|j: int| 0 <= j < t.1.len() && t.1[j] == peer;
        assert(open[j] == peer);
    }
    if all.len() > params.d_hi {
        let k = choose|k: int| 0 <= k < all.len() && all[k] == peer;
        all.lemma_filter_contains(is_not_in(t.1), k);
    }
    if bad.contains(peer) {
        let j = choose|j: int| 0 <= j < bad.len() && bad[j] == peer;
        mesh.lemma_filter_pred(is_unwanted(scores, directs), j);
    }
    lemma_concat_contains(bad, t.1, peer);
}

proof fn lemma_safe_is_not_open(
    scores: ScoreTable,
    m: Seq<u64>,
    safe: Seq<u64>,
    d_score: nat,
    n: int,
    peer: u64,
)
    requires
        safe.contains(peer),
        n <= m.len(),
    ensures
        !unprotected(scores, m, safe, d_score, n).contains(peer),
    decreases n,
{
    if n > 0 {
        lemma_safe_is_not_open(scores, m, safe, d_score, n - 1, peer);
        let before = unprotected(scores, m, safe, d_score, n - 1);
        if unprotected(scores, m, safe, d_score, n).contains(peer) {
            let j = choose|j: int|
                0 <= j < unprotected(scores, m, safe, d_score, n).len() && unprotected(
                    scores,
                    m,
                    safe,
                    d_score,
                    n,
                )[j] == peer;
            if j < before.len() {
                assert(before[j] == peer);
            }
        }
    }
}

} // verus!
