//! The mesh router: which peers a node exchanges messages with, per bitmask.

use vstd::prelude::*;

use crate::assoc::{
    has_key, key_views, lemma_key_index, lemma_with_items, lemma_with_value, lemma_without_key,
    value_of, value_or, with_items, with_value, without_key, KeyMap, KeySet,
};
use crate::bytes::{copy_bytes, views};
use crate::gossip::{
    at_most, build_composite, choose_peers, chosen, composite_of, keys_of, BackoffRule, Backoffs,
    BackoffsView, ByteList, CompositeMeshEntry, CompositeView, PeerSubscriptions, ScoreRule, Scores,
    SubsView, Wanted, WantedView,
};
use crate::message_cache::{CacheView, MessageCache};

verus! {

/// How large a mesh is meant to be: `d` peers, no fewer than `d_lo` and no more
/// than `d_hi`.
#[derive(Clone, Copy, Debug)]
pub struct MeshParams {
    pub d: usize,
    pub d_lo: usize,
    pub d_hi: usize,
}

impl MeshParams {
    /// A mesh below the lower bound does not exceed the target, and one above the upper
    /// bound does not fall short of it.
    pub open spec fn wf(&self) -> bool {
        self.d_lo <= self.d + 1 && self.d <= self.d_hi + 1
    }
}

/// The router's state.
pub struct BlossomSubRouter {
    pub params: MeshParams,
    /// The protocol version of each tracked peer.
    pub peers: KeyMap<u64, String>,
    pub peer_subscriptions: PeerSubscriptions,
    pub direct: KeySet<u64>,
    pub mesh: KeyMap<Vec<u8>, KeySet<u64>>,
    /// The peers for bitmasks that are published to without being joined.
    pub fanout: KeyMap<Vec<u8>, KeySet<u64>>,
    pub composites: KeyMap<Vec<u8>, CompositeMeshEntry>,
    /// Which composites a slice belongs to.
    pub slice_to_composite: KeyMap<Vec<u8>, ByteList>,
    pub last_pub: KeyMap<Vec<u8>, u64>,
    pub backoff: Backoffs,
    pub outbound: KeyMap<u64, bool>,
    pub mcache: MessageCache,
}

/// The mathematical value of a [`BlossomSubRouter`].
#[verifier::ext_equal]
pub struct MeshView {
    pub peers: Seq<(u64, Seq<char>)>,
    pub peer_subscriptions: SubsView,
    pub direct: Seq<u64>,
    pub mesh: Seq<(Seq<u8>, Seq<u64>)>,
    pub fanout: Seq<(Seq<u8>, Seq<u64>)>,
    pub composites: Seq<(Seq<u8>, CompositeView)>,
    pub slice_to_composite: Seq<(Seq<u8>, Seq<Seq<u8>>)>,
    pub last_pub: Seq<(Seq<u8>, u64)>,
    pub backoff: BackoffsView,
    pub outbound: Seq<(u64, bool)>,
    pub mcache: CacheView,
}

impl View for BlossomSubRouter {
    type V = MeshView;

    open spec fn view(&self) -> MeshView {
        MeshView {
            peers: self.peers@,
            peer_subscriptions: self.peer_subscriptions@,
            direct: self.direct@,
            mesh: self.mesh@,
            fanout: self.fanout@,
            composites: self.composites@,
            slice_to_composite: self.slice_to_composite@,
            last_pub: self.last_pub@,
            backoff: self.backoff@,
            outbound: self.outbound@,
            mcache: self.mcache@,
        }
    }
}

/// The same bitmask for each of the peers.
pub open spec fn for_bitmask(peers: Seq<u64>, bitmask: Seq<u8>) -> Seq<(u64, Seq<u8>)> {
    Seq::new(peers.len(), |i: int| (peers[i], bitmask))
}

/// The views of pairs of a peer and a bitmask.
pub open spec fn pair_views(v: Seq<(u64, Vec<u8>)>) -> Seq<(u64, Seq<u8>)> {
    Seq::new(v.len(), |i: int| (v[i].0, v[i].1@))
}

/// What is asked of a peer that may join the mesh of a bitmask: it subscribes,
/// is none of `exclude`, and is not backed off at the time.
pub open spec fn mesh_candidate(
    backoff: BackoffsView,
    bitmask: Seq<u8>,
    exclude: Seq<u64>,
    now: u64,
) -> WantedView {
    WantedView {
        bitmask,
        exclude,
        backoffs: backoff,
        backoff_rule: BackoffRule::LiveAt(now),
        scores: Seq::empty(),
        score_rule: ScoreRule::Any,
    }
}

/// The peers that a new mesh starts with: those of the fanout, up to `d`, and
/// then candidates until there are `d`.
pub open spec fn first_mesh(v: MeshView, d: nat, bitmask: Seq<u8>, now: u64) -> Seq<u64> {
    let from_fanout = at_most(value_or(v.fanout, bitmask, Seq::empty()), d);
    with_items(
        from_fanout,
        chosen(
            v.peer_subscriptions,
            mesh_candidate(v.backoff, bitmask, from_fanout, now),
            (d - from_fanout.len()) as nat,
        ),
    )
}

/// The router after it joined the mesh of a single slice.
pub open spec fn joined_simple(v: MeshView, d: nat, bitmask: Seq<u8>, now: u64) -> MeshView {
    if has_key(v.mesh, bitmask) {
        v
    } else {
        MeshView {
            fanout: without_key(v.fanout, bitmask),
            mesh: with_value(v.mesh, bitmask, first_mesh(v, d, bitmask, now)),
            ..v
        }
    }
}

/// The reverse index with a composite noted for each of its slices.
pub open spec fn indexed(
    index: Seq<(Seq<u8>, Seq<Seq<u8>>)>,
    slices: Seq<Seq<u8>>,
    bitmask: Seq<u8>,
) -> Seq<(Seq<u8>, Seq<Seq<u8>>)>
    decreases slices.len(),
{
    if slices.len() == 0 {
        index
    } else {
        let before = indexed(index, slices.drop_last(), bitmask);
        with_value(
            before,
            slices.last(),
            value_or(before, slices.last(), Seq::empty()).push(bitmask),
        )
    }
}

/// The composite mesh that joining a bitmask of several slices makes.
pub open spec fn joined_entry(v: MeshView, d: nat, bitmask: Seq<u8>, slices: Seq<Seq<u8>>, now: u64) -> CompositeView {
    composite_of(v.peer_subscriptions, v.backoff, BackoffRule::LiveAt(now), bitmask, slices, d)
}

/// The router after it joined a bitmask of several slices.
pub open spec fn joined_composite(
    v: MeshView,
    d: nat,
    bitmask: Seq<u8>,
    slices: Seq<Seq<u8>>,
    now: u64,
) -> MeshView {
    MeshView {
        composites: with_value(v.composites, bitmask, joined_entry(v, d, bitmask, slices, now)),
        slice_to_composite: indexed(v.slice_to_composite, slices, bitmask),
        ..v
    }
}

/// The peers that the router exchanges a bitmask's messages with, each once: those of
/// its mesh, and those of its composite mesh.
pub open spec fn mesh_members(v: MeshView, bitmask: Seq<u8>) -> Seq<u64> {
    let simple = with_items(Seq::empty(), value_or(v.mesh, bitmask, Seq::empty()));
    match value_of(v.composites, bitmask) {
        Some(c) => with_items(with_items(simple, c.same), c.broker),
        None => simple,
    }
}

/// The router after it left a bitmask.
pub open spec fn left(v: MeshView, bitmask: Seq<u8>) -> MeshView {
    MeshView {
        mesh: without_key(v.mesh, bitmask),
        composites: without_key(v.composites, bitmask),
        ..v
    }
}

/// One mesh through a heartbeat: the peers that stay or come, those that are
/// grafted, and those that are pruned.
pub struct MeshStep {
    pub peers: Seq<u64>,
    pub grafts: Seq<u64>,
    pub prunes: Seq<u64>,
}

/// What a heartbeat makes of one mesh. Peers that are no longer tracked go. If
/// too few are left, candidates are grafted until there are `d`; if too many, the
/// first ones are pruned until there are `d`.
pub open spec fn mesh_step(v: MeshView, params: MeshParams, bitmask: Seq<u8>, now: u64, peers: Seq<u64>) -> MeshStep {
    let stale = peers.filter(|p: u64| !has_key(v.peers, p));
    let kept = peers.filter(|p: u64| has_key(v.peers, p));
    if kept.len() < params.d_lo {
        let more = chosen(
            v.peer_subscriptions,
            mesh_candidate(v.backoff, bitmask, kept, now),
            (params.d - kept.len()) as nat,
        );
        MeshStep { peers: with_items(kept, more), grafts: more, prunes: stale }
    } else if kept.len() > params.d_hi {
        let excess = kept.len() - params.d;
        MeshStep {
            peers: kept.skip(excess),
            grafts: Seq::empty(),
            prunes: stale + kept.take(excess),
        }
    } else {
        MeshStep { peers: kept, grafts: Seq::empty(), prunes: stale }
    }
}

/// The meshes and actions of a heartbeat, over the first bitmasks of a list.
pub struct BeatView {
    pub mesh: Seq<(Seq<u8>, Seq<u64>)>,
    pub grafts: Seq<(u64, Seq<u8>)>,
    pub prunes: Seq<(u64, Seq<u8>)>,
}

/// The heartbeat over a list of bitmasks.
pub open spec fn beat(v: MeshView, params: MeshParams, now: u64, bitmasks: Seq<Seq<u8>>) -> BeatView
    decreases bitmasks.len(),
{
    if bitmasks.len() == 0 {
        BeatView { mesh: v.mesh, grafts: Seq::empty(), prunes: Seq::empty() }
    } else {
        let b = beat(v, params, now, bitmasks.drop_last());
        let bitmask = bitmasks.last();
        let step = mesh_step(v, params, bitmask, now, value_or(b.mesh, bitmask, Seq::empty()));
        BeatView {
            mesh: with_value(b.mesh, bitmask, step.peers),
            grafts: b.grafts + for_bitmask(step.grafts, bitmask),
            prunes: b.prunes + for_bitmask(step.prunes, bitmask),
        }
    }
}

/// What to do after a heartbeat.
pub struct HeartbeatActions {
    pub grafts: Vec<(u64, Vec<u8>)>,
    pub prunes: Vec<(u64, Vec<u8>)>,
    pub ihaves: Vec<(u64, Vec<u8>, Vec<Vec<u8>>)>,
}

/// Adds a pair of the bitmask and each of the peers.
pub(crate) fn push_pairs(out: &mut Vec<(u64, Vec<u8>)>, peers: &Vec<u64>, bitmask: &Vec<u8>)
    ensures
        pair_views(final(out)@) == pair_views(old(out)@) + for_bitmask(peers@, bitmask@),
{
    let ghost add = for_bitmask(peers@, bitmask@);
    let mut i: usize = 0;
    assert(pair_views(out@) =~= pair_views(old(out)@) + add.take(0));
    while i < peers.len()
        invariant
            i <= peers@.len(),
            add == for_bitmask(peers@, bitmask@),
            pair_views(out@) == pair_views(old(out)@) + add.take(i as int),
        decreases peers@.len() - i,
    {
        let ghost before = pair_views(out@);
        out.push((peers[i], copy_bytes(bitmask.as_slice())));
        assert(pair_views(out@) =~= before.push(add[i as int]));
        assert(pair_views(out@) =~= pair_views(old(out)@) + add.take(i + 1));
        i += 1;
    }
    assert(add.take(i as int) =~= add);
}

/// Notes a composite for each of its slices.
pub fn index_slices(index: &mut KeyMap<Vec<u8>, ByteList>, slices: &Vec<Vec<u8>>, bitmask: &Vec<u8>)
    ensures
        final(index)@ == indexed(old(index)@, views(slices@), bitmask@),
{
    let ghost sv = views(slices@);
    let mut i: usize = 0;
    assert(sv.take(0) =~= Seq::<Seq<u8>>::empty());
    while i < slices.len()
        invariant
            i <= slices@.len(),
            sv == views(slices@),
            index@ == indexed(old(index)@, sv.take(i as int), bitmask@),
        decreases slices@.len() - i,
    {
        proof {
            assert(sv.take(i + 1).drop_last() =~= sv.take(i as int));
            assert(sv.take(i + 1).last() == sv[i as int]);
        }
        let list = index.or_blank(&slices[i]);
        list.push(copy_bytes(bitmask.as_slice()));
        i += 1;
    }
    assert(sv.take(i as int) =~= sv);
}

impl BlossomSubRouter {
    /// The router that knows nothing yet.
    pub fn new(params: MeshParams, history_length: usize, history_gossip: usize) -> (r: Self)
        ensures
            r.params == params,
            r@.mcache.wf(),
            r@ == (MeshView {
                peers: Seq::empty(),
                peer_subscriptions: Seq::empty(),
                direct: Seq::empty(),
                mesh: Seq::empty(),
                fanout: Seq::empty(),
                composites: Seq::empty(),
                slice_to_composite: Seq::empty(),
                last_pub: Seq::empty(),
                backoff: Seq::empty(),
                outbound: Seq::empty(),
                mcache: CacheView {
                    windows: seq![Seq::<Seq<u8>>::empty()],
                    messages: Seq::empty(),
                    history_length: history_length as nat,
                    history_gossip: history_gossip as nat,
                },
            }),
    {
        BlossomSubRouter {
            params,
            peers: KeyMap::new(),
            peer_subscriptions: KeyMap::new(),
            direct: KeySet::new(),
            mesh: KeyMap::new(),
            fanout: KeyMap::new(),
            composites: KeyMap::new(),
            slice_to_composite: KeyMap::new(),
            last_pub: KeyMap::new(),
            backoff: KeyMap::new(),
            outbound: KeyMap::new(),
            mcache: MessageCache::new(history_length, history_gossip),
        }
    }

    /// Joins the mesh of a bitmask with the given slices; gives the peers to graft.
    pub fn join(&mut self, bitmask: &Vec<u8>, slices: &Vec<Vec<u8>>, now: u64) -> (r: Vec<
        (u64, Vec<u8>),
    >)
        ensures
            final(self).params == old(self).params,
            slices@.len() <= 1 ==> {
                &&& final(self)@ == joined_simple(
                    old(self)@,
                    old(self).params.d as nat,
                    bitmask@,
                    now,
                )
                &&& pair_views(r@) == if has_key(old(self)@.mesh, bitmask@) {
                    Seq::empty()
                } else {
                    for_bitmask(
                        first_mesh(old(self)@, old(self).params.d as nat, bitmask@, now),
                        bitmask@,
                    )
                }
            },
            slices@.len() > 1 ==> {
                let e = joined_entry(
                    old(self)@,
                    old(self).params.d as nat,
                    bitmask@,
                    views(slices@),
                    now,
                );
                &&& final(self)@ == joined_composite(
                    old(self)@,
                    old(self).params.d as nat,
                    bitmask@,
                    views(slices@),
                    now,
                )
                &&& pair_views(r@) == for_bitmask(e.same + e.broker, bitmask@)
            },
    {
        if slices.len() <= 1 {
            self.join_simple(bitmask, now)
        } else {
            self.join_composite(bitmask, slices, now)
        }
    }

    fn join_simple(&mut self, bitmask: &Vec<u8>, now: u64) -> (r: Vec<(u64, Vec<u8>)>)
        ensures
            final(self).params == old(self).params,
            final(self)@ == joined_simple(old(self)@, old(self).params.d as nat, bitmask@, now),
            pair_views(r@) == if has_key(old(self)@.mesh, bitmask@) {
                Seq::empty()
            } else {
                for_bitmask(
                    first_mesh(old(self)@, old(self).params.d as nat, bitmask@, now),
                    bitmask@,
                )
            },
    {
        let mut grafts: Vec<(u64, Vec<u8>)> = Vec::new();
        assert(pair_views(grafts@) =~= Seq::<(u64, Seq<u8>)>::empty());
        if self.mesh.contains_key(bitmask) {
            return grafts;
        }
        let d: usize = self.params.d;
        let mut selected: KeySet<u64> = KeySet::new();
        if let Some(f) = self.fanout.get(bitmask) {
            selected = f.dup();
            selected.items.truncate(d);
        }
        let ghost from_fanout = at_most(
            value_or(self@.fanout, bitmask@, Seq::empty()),
            d as nat,
        );
        assert(selected@ =~= from_fanout);
        self.fanout.remove(bitmask);
        let scores = Scores { table: KeyMap::new() };
        let more = choose_peers(
            &self.peer_subscriptions,
            &Wanted {
                bitmask,
                exclude: &selected,
                backoffs: &self.backoff,
                backoff_rule: BackoffRule::LiveAt(now),
                scores: &scores,
                score_rule: ScoreRule::Any,
            },
            d - selected.len(),
        );
        assert(key_views(more@) =~= more@);
        selected.insert_all(&more);
        push_pairs(&mut grafts, &selected.items, bitmask);
        assert(selected@ =~= selected.items@);
        assert(Seq::<(u64, Seq<u8>)>::empty() + for_bitmask(selected@, bitmask@) =~= for_bitmask(
            selected@,
            bitmask@,
        ));
        self.mesh.insert(copy_bytes(bitmask.as_slice()), selected);
        grafts
    }

    fn join_composite(&mut self, bitmask: &Vec<u8>, slices: &Vec<Vec<u8>>, now: u64) -> (r: Vec<
        (u64, Vec<u8>),
    >)
        ensures
            final(self).params == old(self).params,
            final(self)@ == joined_composite(
                old(self)@,
                old(self).params.d as nat,
                bitmask@,
                views(slices@),
                now,
            ),
            ({
                let e = joined_entry(
                    old(self)@,
                    old(self).params.d as nat,
                    bitmask@,
                    views(slices@),
                    now,
                );
                pair_views(r@) == for_bitmask(e.same + e.broker, bitmask@)
            }),
    {
        let entry = build_composite(
            &self.peer_subscriptions,
            &self.backoff,
            BackoffRule::LiveAt(now),
            bitmask,
            slices,
            self.params.d,
        );
        index_slices(&mut self.slice_to_composite, slices, bitmask);
        let mut grafts: Vec<(u64, Vec<u8>)> = Vec::new();
        push_pairs(&mut grafts, &entry.same.items, bitmask);
        push_pairs(&mut grafts, &entry.broker.items, bitmask);
        proof {
            assert(entry@.same =~= entry.same.items@);
            assert(entry@.broker =~= entry.broker.items@);
            assert(pair_views(grafts@) =~= for_bitmask(entry@.same + entry@.broker, bitmask@));
        }
        self.composites.insert(copy_bytes(bitmask.as_slice()), entry);
        grafts
    }

    /// Leaves the mesh of a bitmask, of one slice or several; gives the peers to prune.
    pub fn leave(&mut self, bitmask: &Vec<u8>) -> (r: Vec<(u64, Vec<u8>)>)
        ensures
            final(self).params == old(self).params,
            final(self)@ == left(old(self)@, bitmask@),
            pair_views(r@) == for_bitmask(mesh_members(old(self)@, bitmask@), bitmask@),
    {
        let mut members: KeySet<u64> = KeySet::new();
        if let Some(peers) = self.mesh.get(bitmask) {
            members.insert_all(&peers.items);
            assert(peers@ =~= key_views(peers.items@));
        }
        if let Some(c) = self.composites.get(bitmask) {
            members.insert_all(&c.same.items);
            members.insert_all(&c.broker.items);
            assert(c@.same =~= key_views(c.same.items@));
            assert(c@.broker =~= key_views(c.broker.items@));
        }
        let mut prunes: Vec<(u64, Vec<u8>)> = Vec::new();
        push_pairs(&mut prunes, &members.items, bitmask);
        proof {
            assert(members@ =~= members.items@);
            assert(pair_views(prunes@) =~= for_bitmask(members@, bitmask@));
        }
        self.mesh.remove(bitmask);
        self.composites.remove(bitmask);
        prunes
    }

    /// Splits a mesh into the peers that are still tracked and those that are not.
    fn split_tracked(&self, peers: &KeySet<u64>) -> (r: (Vec<u64>, Vec<u64>))
        ensures
            r.0@ == peers@.filter(|p: u64| has_key(self@.peers, p)),
            r.1@ == peers@.filter(|p: u64| !has_key(self@.peers, p)),
    {
        let ghost yes = |p: u64| has_key(self@.peers, p);
        let ghost no = |p: u64| !has_key(self@.peers, p);
        let ghost s = peers@;
        let mut kept: Vec<u64> = Vec::new();
        let mut stale: Vec<u64> = Vec::new();
        let mut i: usize = 0;
        reveal(Seq::filter);
        assert(kept@ =~= s.take(0).filter(yes));
        assert(stale@ =~= s.take(0).filter(no));
        while i < peers.items.len()
            invariant
                i <= peers.items@.len(),
                s == peers@,
                yes == (|p: u64| has_key(self@.peers, p)),
                no == (|p: u64| !has_key(self@.peers, p)),
                kept@ == s.take(i as int).filter(yes),
                stale@ == s.take(i as int).filter(no),
            decreases peers.items@.len() - i,
        {
            proof {
                assert(s.take(i + 1).drop_last() =~= s.take(i as int));
                assert(s.take(i + 1).last() == s[i as int]);
                reveal(Seq::filter);
            }
            let p: u64 = peers.items[i];
            if self.peers.contains_key(&p) {
                kept.push(p);
            } else {
                stale.push(p);
            }
            i += 1;
        }
        assert(s.take(i as int) =~= s);
        (kept, stale)
    }

    /// One mesh through a heartbeat.
    fn step(&self, bitmask: &Vec<u8>, now: u64, peers: &KeySet<u64>) -> (r: (
        KeySet<u64>,
        Vec<u64>,
        Vec<u64>,
    ))
        requires
            self.params.wf(),
        ensures
            ({
                let m = mesh_step(self@, self.params, bitmask@, now, peers@);
                &&& r.0@ == m.peers
                &&& r.1@ == m.grafts
                &&& r.2@ == m.prunes
            }),
    {
        let (kept, stale) = self.split_tracked(peers);
        let params = self.params;
        let mut prunes = stale;
        let n: usize = kept.len();
        let ghost kv = kept@;
        let mut set = KeySet { items: kept };
        assert(set@ =~= kv);
        if n < params.d_lo {
            let scores = Scores { table: KeyMap::new() };
            let more = choose_peers(
                &self.peer_subscriptions,
                &Wanted {
                    bitmask,
                    exclude: &set,
                    backoffs: &self.backoff,
                    backoff_rule: BackoffRule::LiveAt(now),
                    scores: &scores,
                    score_rule: ScoreRule::Any,
                },
                params.d - n,
            );
            assert(key_views(more@) =~= more@);
            set.insert_all(&more);
            (set, more, prunes)
        } else if n > params.d_hi {
            let excess: usize = n - params.d;
            let rest = set.items.split_off(excess);
            assert(set.items@ =~= kv.take(excess as int));
            assert(rest@ =~= kv.skip(excess as int));
            let ghost before = prunes@;
            prunes.append(&mut set.items);
            assert(prunes@ =~= before + kv.take(excess as int));
            let r = KeySet { items: rest };
            assert(r@ =~= kv.skip(excess as int));
            (r, Vec::new(), prunes)
        } else {
            (set, Vec::new(), prunes)
        }
    }

    fn bitmasks(&self) -> (r: Vec<Vec<u8>>)
        ensures
            views(r@) == keys_of(self@.mesh),
    {
        let mut out: Vec<Vec<u8>> = Vec::new();
        let mut i: usize = 0;
        while i < self.mesh.entries.len()
            invariant
                i <= self.mesh.entries@.len(),
                out@.len() == i,
                forall|j: int| 0 <= j < i ==> out@[j]@ == self@.mesh[j].0,
            decreases self.mesh.entries@.len() - i,
        {
            out.push(copy_bytes(self.mesh.entries[i].0.as_slice()));
            i += 1;
        }
        assert(views(out@) =~= keys_of(self@.mesh));
        out
    }

    /// Keeps each mesh within its bounds and moves the message cache on.
    pub fn heartbeat(&mut self, now: u64) -> (r: HeartbeatActions)
        requires
            old(self).params.wf(),
            old(self)@.mcache.wf(),
        ensures
            final(self).params == old(self).params,
            ({
                let b = beat(old(self)@, old(self).params, now, keys_of(old(self)@.mesh));
                &&& final(self)@ == (MeshView {
                    mesh: b.mesh,
                    mcache: old(self)@.mcache.shifted(),
                    ..old(self)@
                })
                &&& pair_views(r.grafts@) == b.grafts
                &&& pair_views(r.prunes@) == b.prunes
            }),
            r.ihaves@.len() == 0,
    {
        let mut grafts: Vec<(u64, Vec<u8>)> = Vec::new();
        let mut prunes: Vec<(u64, Vec<u8>)> = Vec::new();
        let keys = self.bitmasks();
        let ghost kv = views(keys@);
        let ghost params = self.params;
        let mut i: usize = 0;
        proof {
            assert(kv.take(0) =~= Seq::<Seq<u8>>::empty());
            assert(pair_views(grafts@) =~= Seq::<(u64, Seq<u8>)>::empty());
            assert(pair_views(prunes@) =~= Seq::<(u64, Seq<u8>)>::empty());
            assert forall|j: int| 0 <= j < kv.len() implies has_key(
                self@.mesh,
                #[trigger] kv[j],
            ) by {
                lemma_key_index(self@.mesh, kv[j]);
                assert(self@.mesh[j].0 == kv[j]);
            }
        }
        while i < keys.len()
            invariant
                i <= keys@.len(),
                kv == views(keys@),
                kv == keys_of(old(self)@.mesh),
                params == self.params,
                params == old(self).params,
                params.wf(),
                self.mcache == old(self).mcache,
                self.mcache@.wf(),
                ({
                    let b = beat(old(self)@, params, now, kv.take(i as int));
                    &&& self@ == (MeshView { mesh: b.mesh, ..old(self)@ })
                    &&& pair_views(grafts@) == b.grafts
                    &&& pair_views(prunes@) == b.prunes
                }),
                forall|j: int| 0 <= j < kv.len() ==> has_key(self@.mesh, #[trigger] kv[j]),
            decreases keys@.len() - i,
        {
            let bitmask = &keys[i];
            proof {
                assert(kv.take(i + 1).drop_last() =~= kv.take(i as int));
                assert(kv.take(i + 1).last() == kv[i as int]);
                assert(has_key(self@.mesh, kv[i as int]));
            }
            let ghost before = self@;
            let (peers, g, p) = match self.mesh.get(bitmask) {
                Some(m) => self.step(bitmask, now, m),
                None => (KeySet::new(), Vec::new(), Vec::new()),
            };
            push_pairs(&mut grafts, &g, bitmask);
            push_pairs(&mut prunes, &p, bitmask);
            self.mesh.insert(copy_bytes(bitmask.as_slice()), peers);
            proof {
                lemma_step_frame(before, old(self)@, params, bitmask@, now, value_or(
                    before.mesh,
                    bitmask@,
                    Seq::empty(),
                ));
                assert forall|j: int| 0 <= j < kv.len() implies has_key(
                    self@.mesh,
                    #[trigger] kv[j],
                ) by {
                    lemma_with_value(before.mesh, bitmask@, peers@, kv[j]);
                    lemma_key_index(self@.mesh, kv[j]);
                    assert(value_of(before.mesh, kv[j]) is Some);
                }
            }
            i += 1;
        }
        assert(kv.take(i as int) =~= kv);
        self.mcache.shift();
        HeartbeatActions { grafts, prunes, ihaves: Vec::new() }
    }
}

/// The step of one mesh does not look at the meshes.
proof fn lemma_step_frame(a: MeshView, b: MeshView, params: MeshParams, bitmask: Seq<u8>, now: u64, peers: Seq<u64>)
    requires
        a.peers == b.peers,
        a.peer_subscriptions == b.peer_subscriptions,
        a.backoff == b.backoff,
    ensures
        mesh_step(a, params, bitmask, now, peers) == mesh_step(b, params, bitmask, now, peers),
{
}

/// The peers that joining a bitmask grafts.
pub open spec fn grafted(v: MeshView, d: nat, bitmask: Seq<u8>, slices: Seq<Seq<u8>>, now: u64) -> Seq<
    u64,
> {
    if slices.len() > 1 {
        let e = joined_entry(v, d, bitmask, slices, now);
        e.same + e.broker
    } else {
        first_mesh(v, d, bitmask, now)
    }
}

/// The router after it joined a bitmask.
pub open spec fn joined(v: MeshView, d: nat, bitmask: Seq<u8>, slices: Seq<Seq<u8>>, now: u64) -> MeshView {
    if slices.len() > 1 {
        joined_composite(v, d, bitmask, slices, now)
    } else {
        joined_simple(v, d, bitmask, now)
    }
}

/// Leaving a bitmask prunes exactly the peers that joining it grafted, each once; and
/// leaving it again prunes nobody.
pub proof fn law_leave_prunes_the_grafted(
    v: MeshView,
    d: nat,
    bitmask: Seq<u8>,
    slices: Seq<Seq<u8>>,
    now: u64,
)
    requires
        !has_key(v.mesh, bitmask),
        !has_key(v.composites, bitmask),
    ensures
        ({
            let after = joined(v, d, bitmask, slices, now);
            let pruned = mesh_members(after, bitmask);
            &&& pruned.no_duplicates()
            &&& forall|p: u64| #[trigger]
                pruned.contains(p) <==> grafted(v, d, bitmask, slices, now).contains(p)
            &&& !has_key(left(after, bitmask).mesh, bitmask)
            &&& !has_key(left(after, bitmask).composites, bitmask)
            &&& mesh_members(left(after, bitmask), bitmask).len() == 0
        }),
{
    let after = joined(v, d, bitmask, slices, now);
    let pruned = mesh_members(after, bitmask);
    let all = grafted(v, d, bitmask, slices, now);
    lemma_without_key(after.mesh, bitmask);
    lemma_without_key(after.composites, bitmask);
    let e = joined_entry(v, d, bitmask, slices, now);
    let none = Seq::<u64>::empty();
    if slices.len() > 1 {
        lemma_with_value(v.composites, bitmask, e, bitmask);
        lemma_with_items(none, e.same, 0);
        lemma_with_items(with_items(none, e.same), e.broker, 0);
        assert forall|p: u64| #[trigger] pruned.contains(p) <==> all.contains(p) by {
            lemma_with_items(none, e.same, p);
            lemma_with_items(with_items(none, e.same), e.broker, p);
            lemma_concat_contains(e.same, e.broker, p);
        }
    } else {
        lemma_with_value(v.mesh, bitmask, all, bitmask);
        lemma_with_items(none, all, 0);
        assert forall|p: u64| #[trigger] pruned.contains(p) <==> all.contains(p) by {
            lemma_with_items(none, all, p);
        }
    }
}

/// A list that was put together holds what its two parts hold.
pub proof fn lemma_concat_contains(a: Seq<u64>, b: Seq<u64>, p: u64)
    ensures
        (a + b).contains(p) <==> a.contains(p) || b.contains(p),
{
    let s = a + b;
    if a.contains(p) {
        let i = choose|i: int| 0 <= i < a.len() && a[i] == p;
        assert(s[i] == p);
    }
    if b.contains(p) {
        let i = choose|i: int| 0 <= i < b.len() && b[i] == p;
        assert(s[a.len() + i] == p);
    }
    if s.contains(p) {
        let i = choose|i: int| 0 <= i < s.len() && s[i] == p;
        if i < a.len() {
            assert(a[i] == p);
        } else {
            assert(b[i - a.len()] == p);
        }
    }
}

/// A heartbeat leaves no mesh above its upper bound, or above the target where that is
/// beyond the bound.
pub proof fn law_mesh_within_bound(v: MeshView, params: MeshParams, bitmask: Seq<u8>, now: u64, peers: Seq<u64>)
    requires
        params.wf(),
    ensures
        mesh_step(v, params, bitmask, now, peers).peers.len() <= if params.d <= params.d_hi {
            params.d_hi
        } else {
            params.d
        },
{
    let kept = peers.filter(|p: u64| has_key(v.peers, p));
    let more = chosen(
        v.peer_subscriptions,
        mesh_candidate(v.backoff, bitmask, kept, now),
        (params.d - kept.len()) as nat,
    );
    lemma_with_items_len(kept, more);
}

/// A heartbeat drops the peers that are no longer tracked.
pub proof fn law_untracked_peer_leaves(
    v: MeshView,
    params: MeshParams,
    bitmask: Seq<u8>,
    now: u64,
    peers: Seq<u64>,
    peer: u64,
)
    requires
        params.wf(),
        peers.contains(peer),
        !has_key(v.peers, peer),
    ensures
        mesh_step(v, params, bitmask, now, peers).prunes.contains(peer),
{
    let no = |p: u64| !has_key(v.peers, p);
    let i = choose|i: int| 0 <= i < peers.len() && peers[i] == peer;
    peers.lemma_filter_contains(no, i);
    let stale = peers.filter(no);
    let j = choose|j: int| 0 <= j < stale.len() && stale[j] == peer;
    let prunes = mesh_step(v, params, bitmask, now, peers).prunes;
    assert(prunes[j] == peer);
}

/// Adding items adds at most as many as there are.
pub proof fn lemma_with_items_len<K>(s: Seq<K>, ks: Seq<K>)
    ensures
        s.len() <= with_items(s, ks).len() <= s.len() + ks.len(),
    decreases ks.len(),
{
    if ks.len() > 0 {
        lemma_with_items_len(s, ks.drop_last());
    }
}

} // verus!
