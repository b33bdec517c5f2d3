//! The rest of a heartbeat: announcing messages, keeping the fanout, asking for
//! peers, and looking for better ones; and the heartbeat as a whole.

use vstd::prelude::*;

use crate::assoc::{
    has_key, key_views, lemma_with_item, lemma_with_items, lemma_with_value, value_of, value_or,
    with_item, with_items, with_value, KeyMap, KeySet,
};
use crate::behaviour::{connection_of, BehaviourView, BlossomSubBehaviour};
use crate::blossomsub::pair_views;
use crate::bytes::{copy_all, copy_bytes, views};
use crate::followups::{asked_again, by_peer, follow_up, followed_up};
use crate::gossip::{
    choose_peers, chosen, law_chosen_are_wanted, score_of, wanted_in, BackoffRule, Backoffs, ScoreRule,
    Scores, Wanted, WantedView,
};
use crate::heartbeat::{
    direct_missing, directs_kept, expired, graft_sent, grafts_sent, lemma_grafts_frame,
    lemma_prunes_frame, missing_direct, need_peers, with_direct, ScoreTable,
    OPPORTUNISTIC_GRAFT_TICKS,
};
use crate::sorting::{ascending, sort_scores};
use crate::upkeep::{
    law_direct_peers_stay, law_negative_score_leaves, mesh_upkeep, meshes_kept, upkeep,
};
use crate::wire::{event_views, BlossomSubEvent, EventView, OutRpc, OutView};

verus! {

/// An announcement to each of the peers that is connected.
pub open spec fn ihaves_sent(v: BehaviourView, peers: Seq<u64>, bitmask: Seq<u8>, ids: Seq<Seq<u8>>) -> BehaviourView
    decreases peers.len(),
{
    if peers.len() == 0 {
        v
    } else {
        let u = ihaves_sent(v, peers.drop_last(), bitmask, ids);
        match connection_of(u.connected_peers, peers.last()) {
            Some(c) => u.emit(
                EventView::Send {
                    peer_id: peers.last(),
                    connection: Some(c),
                    rpc: OutView::Ihave { bitmask, ids },
                },
            ),
            None => u,
        }
    }
}

/// What is asked of a peer that hears of messages: it subscribes, is not in the
/// mesh, and its score allows it.
pub open spec fn gossip_candidate(v: BehaviourView, scores: ScoreTable, bitmask: Seq<u8>) -> WantedView {
    WantedView {
        bitmask,
        exclude: value_or(v.mesh, bitmask, Seq::empty()),
        backoffs: Seq::empty(),
        backoff_rule: BackoffRule::Ignored,
        scores,
        score_rule: ScoreRule::AtLeast(v.params.gossip_threshold),
    }
}

/// The state after the recent messages of each bitmask were announced to some
/// peers outside its mesh.
pub open spec fn announced(v: BehaviourView, scores: ScoreTable, bs: Seq<Seq<u8>>) -> BehaviourView
    decreases bs.len(),
{
    if bs.len() == 0 {
        v
    } else {
        let u = announced(v, scores, bs.drop_last());
        let ids = u.mcache.gossip_ids(bs.last());
        if ids.len() == 0 {
            u
        } else {
            ihaves_sent(
                u,
                chosen(
                    u.peer_subscriptions,
                    gossip_candidate(u, scores, bs.last()),
                    u.params.d_lazy as nat,
                ),
                bs.last(),
                ids,
            )
        }
    }
}

/// Is a peer connected?
pub open spec fn is_connected(connected: Seq<(u64, Seq<u64>)>) -> spec_fn(u64) -> bool {
    |p: u64| has_key(connected, p)
}

/// The fanout of a bitmask: its connected peers, and others that subscribe until
/// there are `d`.
pub open spec fn fanout_of(v: BehaviourView, bitmask: Seq<u8>, peers: Seq<u64>) -> Seq<u64> {
    let kept = peers.filter(is_connected(v.connected_peers));
    if kept.len() < v.params.d {
        with_items(
            kept,
            chosen(
                v.peer_subscriptions,
                WantedView {
                    bitmask,
                    exclude: kept,
                    backoffs: Seq::empty(),
                    backoff_rule: BackoffRule::Ignored,
                    scores: Seq::empty(),
                    score_rule: ScoreRule::Any,
                },
                (v.params.d - kept.len()) as nat,
            ),
        )
    } else {
        kept
    }
}

/// The state after the fanout of every bitmask was kept up.
pub open spec fn fanouts_kept(v: BehaviourView) -> BehaviourView {
    BehaviourView {
        fanout: Seq::new(
            v.fanout.len(),
            |i: int| (v.fanout[i].0, fanout_of(v, v.fanout[i].0, v.fanout[i].1)),
        ),
        ..v
    }
}

/// Is there a subscription whose mesh is too small?
pub open spec fn starved(v: BehaviourView) -> bool {
    exists|i: int|
        0 <= i < v.subscriptions.len() && value_or(
            v.mesh,
            #[trigger] v.subscriptions[i],
            Seq::empty(),
        ).len() < v.params.d_lo
}

/// The state after more peers were asked for where they are needed.
pub open spec fn peers_asked(v: BehaviourView) -> BehaviourView {
    if starved(v) {
        v.emit(need_peers(v))
    } else {
        v
    }
}

/// The median score of a mesh: the one in the middle of the sorted scores, the
/// upper one of two.
pub open spec fn median(scores: ScoreTable, mesh: Seq<u64>) -> i64 {
    Seq::new(mesh.len(), |i: int| score_of(scores, mesh[i])).sort_by(ascending())[mesh.len() as int
        / 2]
}

/// The score that a peer must exceed to be taken in for it: the median, and never less
/// than what keeps a negative score out.
pub open spec fn graft_floor(median: i64) -> i64 {
    if median < 0 {
        (-1) as i64
    } else {
        median
    }
}

/// The peer that a mesh takes in for its better score, if any: where the median is
/// below the threshold, the first candidate above the median whose score is not
/// negative.
pub open spec fn better_peer(v: BehaviourView, scores: ScoreTable, bitmask: Seq<u8>) -> Seq<u64> {
    let mesh = value_or(v.mesh, bitmask, Seq::empty());
    if mesh.len() == 0 || median(scores, mesh) >= v.params.opportunistic_graft_threshold {
        Seq::empty()
    } else {
        chosen(
            v.peer_subscriptions,
            WantedView {
                bitmask,
                exclude: mesh,
                backoffs: v.backoffs,
                backoff_rule: BackoffRule::AnyEntry,
                scores,
                score_rule: ScoreRule::Above(graft_floor(median(scores, mesh))),
            },
            1,
        )
    }
}

/// The better peers for each of the bitmasks.
pub open spec fn better_peers(v: BehaviourView, scores: ScoreTable, bs: Seq<Seq<u8>>) -> Seq<
    (u64, Seq<u8>),
>
    decreases bs.len(),
{
    if bs.len() == 0 {
        Seq::empty()
    } else {
        better_peers(v, scores, bs.drop_last()) + crate::blossomsub::for_bitmask(
            better_peer(v, scores, bs.last()),
            bs.last(),
        )
    }
}

/// Each of the peers taken into its mesh and told so.
pub open spec fn taken_in(v: BehaviourView, ps: Seq<(u64, Seq<u8>)>) -> BehaviourView
    decreases ps.len(),
{
    if ps.len() == 0 {
        v
    } else {
        let u = taken_in(v, ps.drop_last());
        let (p, b) = ps.last();
        graft_sent(
            BehaviourView {
                mesh: with_value(u.mesh, b, with_item(value_or(u.mesh, b, Seq::empty()), p)),
                ..u
            },
            p,
            b,
        )
    }
}

/// The state after better peers were looked for, which is not done at every
/// heartbeat.
pub open spec fn improved(v: BehaviourView, scores: ScoreTable) -> BehaviourView {
    if v.heartbeat_ticks % OPPORTUNISTIC_GRAFT_TICKS == 0 {
        taken_in(v, better_peers(v, scores, v.subscriptions))
    } else {
        v
    }
}

/// The start of a heartbeat: it is counted, and overdue messages are followed up.
pub open spec fn beat_begun(v: BehaviourView, now: u64) -> BehaviourView {
    followed_up(
        BehaviourView { heartbeat_ticks: (v.heartbeat_ticks + 1) as u64, ..v },
        now,
    )
}

/// The rest of a heartbeat, in its order.
pub open spec fn beat_kept(v: BehaviourView, scores: ScoreTable, now: u64) -> BehaviourView {
    let meshed = meshes_kept(expired(directs_kept(v), now), scores, now);
    improved(
        peers_asked(fanouts_kept(announced(meshed, scores, meshed.subscriptions))),
        scores,
    )
}

impl BlossomSubBehaviour {
    fn send_ihaves(&mut self, peers: &Vec<u64>, bitmask: &Vec<u8>, ids: &Vec<Vec<u8>>)
        ensures
            final(self)@ == ihaves_sent(old(self)@, peers@, bitmask@, views(ids@)),
    {
        let mut i: usize = 0;
        assert(peers@.take(0) =~= Seq::<u64>::empty());
        while i < peers.len()
            invariant
                i <= peers@.len(),
                self@ == ihaves_sent(old(self)@, peers@.take(i as int), bitmask@, views(ids@)),
            decreases peers@.len() - i,
        {
            proof {
                assert(peers@.take(i + 1).drop_last() =~= peers@.take(i as int));
                assert(peers@.take(i + 1).last() == peers@[i as int]);
            }
            if let Some(c) = self.first_connection(peers[i]) {
                self.emit(
                    BlossomSubEvent::Send {
                        peer_id: peers[i],
                        connection: Some(c),
                        rpc: OutRpc::Ihave {
                            bitmask: copy_bytes(bitmask.as_slice()),
                            ids: copy_all(ids),
                        },
                    },
                );
            }
            i += 1;
        }
        assert(peers@.take(i as int) =~= peers@);
    }

    fn announce(&mut self, scores: &Scores)
        ensures
            final(self)@ == announced(old(self)@, scores@, old(self)@.subscriptions),
    {
        let ghost start = self@;
        let ghost bs = start.subscriptions;
        let bitmasks = copy_all(&self.subscriptions.items);
        assert(views(bitmasks@) =~= bs);
        let no_backoffs: Backoffs = KeyMap::new();
        let mut i: usize = 0;
        assert(bs.take(0) =~= Seq::<Seq<u8>>::empty());
        while i < bitmasks.len()
            invariant
                i <= bitmasks@.len(),
                bs == views(bitmasks@),
                no_backoffs@ == Seq::<(Seq<u8>, Seq<(u64, u64)>)>::empty(),
                self@ == announced(start, scores@, bs.take(i as int)),
            decreases bitmasks@.len() - i,
        {
            proof {
                assert(bs.take(i + 1).drop_last() =~= bs.take(i as int));
                assert(bs.take(i + 1).last() == bs[i as int]);
            }
            let bitmask = &bitmasks[i];
            let ids = self.mcache.get_gossip_ids(bitmask.as_slice());
            assert(views(ids@).len() == ids@.len());
            if ids.len() > 0 {
                let mesh = match self.mesh.get(bitmask) {
                    Some(m) => m.dup(),
                    None => KeySet::new(),
                };
                let peers = choose_peers(
                    &self.peer_subscriptions,
                    &Wanted {
                        bitmask,
                        exclude: &mesh,
                        backoffs: &no_backoffs,
                        backoff_rule: BackoffRule::Ignored,
                        scores,
                        score_rule: ScoreRule::AtLeast(self.params.gossip_threshold),
                    },
                    self.params.d_lazy,
                );
                self.send_ihaves(&peers, bitmask, &ids);
            }
            i += 1;
        }
        assert(bs.take(i as int) =~= bs);
    }

    fn keep_connected(&self, peers: &KeySet<u64>) -> (r: KeySet<u64>)
        ensures
            r@ == peers@.filter(is_connected(self@.connected_peers)),
    {
        let ghost s = peers@;
        let ghost p = is_connected(self@.connected_peers);
        let mut out: Vec<u64> = Vec::new();
        let mut i: usize = 0;
        reveal(Seq::filter);
        assert(out@ =~= s.take(0).filter(p));
        while i < peers.items.len()
            invariant
                i <= peers.items@.len(),
                s == peers@,
                p == is_connected(self@.connected_peers),
                out@ == s.take(i as int).filter(p),
            decreases peers.items@.len() - i,
        {
            proof {
                assert(s.take(i + 1).drop_last() =~= s.take(i as int));
                assert(s.take(i + 1).last() == s[i as int]);
                reveal(Seq::filter);
            }
            if self.connected_peers.contains_key(&peers.items[i]) {
                out.push(peers.items[i]);
            }
            i += 1;
        }
        assert(s.take(i as int) =~= s);
        let r = KeySet { items: out };
        assert(r@ =~= out@);
        r
    }

    fn fill_fanout(&self, bitmask: &Vec<u8>, peers: &KeySet<u64>) -> (r: KeySet<u64>)
        ensures
            r@ == fanout_of(self@, bitmask@, peers@),
    {
        let mut kept = self.keep_connected(peers);
        if kept.len() < self.params.d {
            let scores = Scores { table: KeyMap::new() };
            let no_backoffs: Backoffs = KeyMap::new();
            let more = choose_peers(
                &self.peer_subscriptions,
                &Wanted {
                    bitmask,
                    exclude: &kept,
                    backoffs: &no_backoffs,
                    backoff_rule: BackoffRule::Ignored,
                    scores: &scores,
                    score_rule: ScoreRule::Any,
                },
                self.params.d - kept.len(),
            );
            assert(key_views(more@) =~= more@);
            kept.insert_all(&more);
        }
        kept
    }

    fn keep_fanouts(&mut self)
        ensures
            final(self)@ == fanouts_kept(old(self)@),
    {
        let ghost start = self@;
        let ghost all = fanouts_kept(start).fanout;
        let mut i: usize = 0;
        while i < self.fanout.entries.len()
            invariant
                i <= self.fanout.entries@.len(),
                start == old(self)@,
                all == fanouts_kept(start).fanout,
                self.fanout.entries@.len() == start.fanout.len(),
                self@ == (BehaviourView { fanout: self@.fanout, ..start }),
                forall|j: int| 0 <= j < i ==> self@.fanout[j] == all[j],
                forall|j: int| i <= j < start.fanout.len() ==> self@.fanout[j] == start.fanout[j],
            decreases self.fanout.entries@.len() - i,
        {
            let ghost before = self@.fanout;
            let filled = self.fill_fanout(&self.fanout.entries[i].0, &self.fanout.entries[i].1);
            assert(filled@ == all[i as int].1);
            let f = &mut self.fanout.entries[i].1;
            *f = filled;
            assert(self@.fanout =~= before.update(i as int, all[i as int]));
            i += 1;
        }
        assert(self@.fanout =~= all);
    }

    fn is_starved(&self) -> (r: bool)
        ensures
            r == starved(self@),
    {
        let mut i: usize = 0;
        while i < self.subscriptions.items.len()
            invariant
                i <= self.subscriptions.items@.len(),
                forall|j: int|
                    0 <= j < i ==> value_or(
                        self@.mesh,
                        #[trigger] self@.subscriptions[j],
                        Seq::empty(),
                    ).len() >= self.params.d_lo,
            decreases self.subscriptions.items@.len() - i,
        {
            if self.mesh_peers(&self.subscriptions.items[i]) < self.params.d_lo {
                assert(value_or(
                    self@.mesh,
                    self@.subscriptions[i as int],
                    Seq::empty(),
                ).len() < self.params.d_lo);
                return true;
            }
            i += 1;
        }
        false
    }

    fn find_better(&self, scores: &Scores, bitmask: &Vec<u8>) -> (r: Vec<u64>)
        ensures
            r@ == better_peer(self@, scores@, bitmask@),
    {
        let mesh = match self.mesh.get(bitmask) {
            Some(m) => m,
            None => {
                return Vec::new();
            },
        };
        assert(mesh@.len() == mesh.items@.len());
        if mesh.items.len() == 0 {
            return Vec::new();
        }
        let ghost want = Seq::new(mesh@.len(), |i: int| score_of(scores@, mesh@[i]));
        let mut all: Vec<i64> = Vec::new();
        let mut i: usize = 0;
        while i < mesh.items.len()
            invariant
                i <= mesh.items@.len(),
                all@.len() == i,
                want == Seq::new(mesh@.len(), |i: int| score_of(scores@, mesh@[i])),
                forall|j: int| 0 <= j < i ==> all@[j] == want[j],
            decreases mesh.items@.len() - i,
        {
            all.push(scores.score(mesh.items[i]));
            i += 1;
        }
        assert(all@ =~= want);
        let sorted = sort_scores(&all);
        let mid: i64 = sorted[sorted.len() / 2];
        if mid >= self.params.opportunistic_graft_threshold {
            return Vec::new();
        }
        let floor: i64 = if mid < 0 {
            -1
        } else {
            mid
        };
        choose_peers(
            &self.peer_subscriptions,
            &Wanted {
                bitmask,
                exclude: mesh,
                backoffs: &self.backoffs,
                backoff_rule: BackoffRule::AnyEntry,
                scores,
                score_rule: ScoreRule::Above(floor),
            },
            1,
        )
    }

    fn improve(&mut self, scores: &Scores)
        ensures
            final(self)@ == improved(old(self)@, scores@),
    {
        if self.heartbeat_ticks % OPPORTUNISTIC_GRAFT_TICKS != 0 {
            return;
        }
        let ghost start = self@;
        let ghost bs = start.subscriptions;
        assert(views(self.subscriptions.items@) =~= bs);
        let mut found: Vec<(u64, Vec<u8>)> = Vec::new();
        let mut i: usize = 0;
        proof {
            assert(bs.take(0) =~= Seq::<Seq<u8>>::empty());
            assert(pair_views(found@) =~= Seq::<(u64, Seq<u8>)>::empty());
        }
        while i < self.subscriptions.items.len()
            invariant
                i <= self.subscriptions.items@.len(),
                bs == views(self.subscriptions.items@),
                self@ == start,
                pair_views(found@) == better_peers(start, scores@, bs.take(i as int)),
            decreases self.subscriptions.items@.len() - i,
        {
            proof {
                assert(bs.take(i + 1).drop_last() =~= bs.take(i as int));
                assert(bs.take(i + 1).last() == bs[i as int]);
            }
            let better = self.find_better(scores, &self.subscriptions.items[i]);
            crate::blossomsub::push_pairs(&mut found, &better, &self.subscriptions.items[i]);
            i += 1;
        }
        assert(bs.take(i as int) =~= bs);
        let ghost fv = pair_views(found@);
        let mut k: usize = 0;
        assert(fv.take(0) =~= Seq::<(u64, Seq<u8>)>::empty());
        while k < found.len()
            invariant
                k <= found@.len(),
                fv == pair_views(found@),
                self@ == taken_in(start, fv.take(k as int)),
            decreases found@.len() - k,
        {
            proof {
                assert(fv.take(k + 1).drop_last() =~= fv.take(k as int));
                assert(fv.take(k + 1).last() == fv[k as int]);
            }
            let m = self.mesh.or_blank(&found[k].1);
            m.insert(found[k].0);
            self.send_graft(found[k].0, &found[k].1);
            k += 1;
        }
        assert(fv.take(k as int) =~= fv);
    }

    /// Begins a heartbeat: counts it and follows overdue messages up.
    pub fn heartbeat_begin(&mut self, now: u64)
        requires
            old(self).heartbeat_ticks < u64::MAX,
        ensures
            final(self)@ == beat_begun(old(self)@, now),
            final(self).params == old(self).params,
            old(self).wf() ==> final(self).wf(),
    {
        self.heartbeat_ticks += 1;
        self.process_iwant_followups(now);
    }

    /// Goes through with a heartbeat that was begun. `scores` are the peers' scores
    /// once the charges of its beginning are accounted for.
    pub fn heartbeat_maintain(&mut self, scores: &Scores, now: u64)
        requires
            old(self).wf(),
            old(self).bounds_ok(),
            now + old(self).params.prune_backoff <= u64::MAX,
        ensures
            final(self)@ == beat_kept(old(self)@, scores@, now),
            final(self).params == old(self).params,
            final(self).wf(),
    {
        self.keep_directs();
        self.expire(now);
        self.keep_meshes(scores, now);
        let ghost meshed = self@;
        proof {
            lemma_announced_frame(meshed, scores@, meshed.subscriptions);
            let f = peers_asked(fanouts_kept(announced(meshed, scores@, meshed.subscriptions)));
            lemma_taken_frame(f, better_peers(f, scores@, f.subscriptions));
        }
        self.announce(scores);
        self.keep_fanouts();
        if self.is_starved() {
            self.ask_for_peers();
        }
        self.improve(scores);
        assert(self@.params == meshed.params && self@.mcache == meshed.mcache);
    }

    /// A whole heartbeat.
    pub fn heartbeat(&mut self, scores: &Scores, now: u64)
        requires
            old(self).wf(),
            old(self).bounds_ok(),
            old(self).heartbeat_ticks < u64::MAX,
            now + old(self).params.prune_backoff <= u64::MAX,
        ensures
            final(self)@ == beat_kept(beat_begun(old(self)@, now), scores@, now),
            final(self).wf(),
            final(self).params == old(self).params,
    {
        self.heartbeat_begin(now);
        self.heartbeat_maintain(scores, now);
    }

    /// Is it time for a heartbeat?
    pub fn heartbeat_due(&self, now: u64) -> (r: bool)
        ensures
            r == ((if now >= self@.last_heartbeat {
                now - self@.last_heartbeat
            } else {
                0
            }) >= self@.params.heartbeat_interval),
    {
        let passed: u64 = if now >= self.last_heartbeat {
            now - self.last_heartbeat
        } else {
            0
        };
        passed >= self.params.heartbeat_interval
    }

    /// Notes when the last heartbeat was.
    pub fn heartbeat_done(&mut self, now: u64)
        ensures
            final(self)@ == (BehaviourView { last_heartbeat: now, ..old(self)@ }),
            final(self).params == old(self).params,
            old(self).wf() ==> final(self).wf(),
    {
        self.last_heartbeat = now;
    }

    /// Takes the oldest event, if there is one.
    pub fn next_event(&mut self) -> (r: Option<BlossomSubEvent>)
        ensures
            match r {
                Some(e) => {
                    &&& old(self)@.events.len() > 0
                    &&& e@ == old(self)@.events[0]
                    &&& final(self)@ == (BehaviourView {
                        events: old(self)@.events.drop_first(),
                        ..old(self)@
                    })
                },
                None => old(self)@.events.len() == 0 && final(self)@ == old(self)@,
            },
            final(self).params == old(self).params,
            old(self).wf() ==> final(self).wf(),
    {
        assert(self@.events.len() == self.events@.len());
        if self.events.len() == 0 {
            return None;
        }
        let e = self.events.remove(0);
        assert(event_views(self.events@) =~= old(self)@.events.drop_first());
        Some(e)
    }
}

/// Announcing changes nothing but the events.
proof fn lemma_ihaves_frame(v: BehaviourView, peers: Seq<u64>, bitmask: Seq<u8>, ids: Seq<Seq<u8>>)
    ensures
        ihaves_sent(v, peers, bitmask, ids) == (BehaviourView {
            events: ihaves_sent(v, peers, bitmask, ids).events,
            ..v
        }),
    decreases peers.len(),
{
    if peers.len() > 0 {
        lemma_ihaves_frame(v, peers.drop_last(), bitmask, ids);
    }
}

proof fn lemma_announced_frame(v: BehaviourView, scores: ScoreTable, bs: Seq<Seq<u8>>)
    ensures
        announced(v, scores, bs) == (BehaviourView {
            events: announced(v, scores, bs).events,
            ..v
        }),
    decreases bs.len(),
{
    if bs.len() > 0 {
        lemma_announced_frame(v, scores, bs.drop_last());
        let u = announced(v, scores, bs.drop_last());
        lemma_ihaves_frame(
            u,
            chosen(
                u.peer_subscriptions,
                gossip_candidate(u, scores, bs.last()),
                u.params.d_lazy as nat,
            ),
            bs.last(),
            u.mcache.gossip_ids(bs.last()),
        );
    }
}

proof fn lemma_taken_frame(v: BehaviourView, ps: Seq<(u64, Seq<u8>)>)
    ensures
        taken_in(v, ps) == (BehaviourView {
            events: taken_in(v, ps).events,
            mesh: taken_in(v, ps).mesh,
            ..v
        }),
    decreases ps.len(),
{
    if ps.len() > 0 {
        lemma_taken_frame(v, ps.drop_last());
    }
}

proof fn lemma_asked_frame(v: BehaviourView, groups: Seq<(u64, Seq<Seq<u8>>)>)
    ensures
        asked_again(v, groups) == (BehaviourView { events: asked_again(v, groups).events, ..v }),
    decreases groups.len(),
{
    if groups.len() > 0 {
        lemma_asked_frame(v, groups.drop_last());
    }
}

/// Is the peer in the mesh of the bitmask?
pub open spec fn in_mesh(mesh: Seq<(Seq<u8>, Seq<u64>)>, bitmask: Seq<u8>, peer: u64) -> bool {
    value_or(mesh, bitmask, Seq::empty()).contains(peer)
}

/// Setting one mesh to one that holds a peer keeps the peer in every mesh.
proof fn lemma_mesh_set(
    mesh: Seq<(Seq<u8>, Seq<u64>)>,
    b: Seq<u8>,
    m: Seq<u64>,
    bitmask: Seq<u8>,
    peer: u64,
)
    requires
        b == bitmask ==> m.contains(peer),
        b != bitmask ==> in_mesh(mesh, bitmask, peer),
    ensures
        in_mesh(with_value(mesh, b, m), bitmask, peer),
{
    lemma_with_value(mesh, b, m, bitmask);
    lemma_value_or(mesh, bitmask);
    lemma_value_or(with_value(mesh, b, m), bitmask);
}

proof fn lemma_value_or(mesh: Seq<(Seq<u8>, Seq<u64>)>, bitmask: Seq<u8>)
    ensures
        value_or(mesh, bitmask, Seq::empty()) == match value_of(mesh, bitmask) {
            Some(m) => m,
            None => Seq::empty(),
        },
{
}

/// The connected direct peers are brought into the mesh of each of the bitmasks.
proof fn lemma_directs_come(v: BehaviourView, bs: Seq<Seq<u8>>, bitmask: Seq<u8>, peer: u64)
    requires
        v.direct_peers.contains(peer),
        has_key(v.connected_peers, peer),
        bs.contains(bitmask) || in_mesh(v.mesh, bitmask, peer),
    ensures
        in_mesh(with_direct(v, bs).mesh, bitmask, peer),
    decreases bs.len(),
{
    if bs.len() > 0 {
        let g = with_direct(v, bs.drop_last());
        let b = bs.last();
        let m = value_or(g.mesh, b, Seq::empty());
        let p = missing_direct(v.connected_peers, m);
        let more = v.direct_peers.filter(p);
        lemma_with_items(m, more, peer);
        if b == bitmask {
            if !m.contains(peer) {
                let i = choose|i: int| 0 <= i < v.direct_peers.len() && v.direct_peers[i] == peer;
                v.direct_peers.lemma_filter_contains(p, i);
            }
        } else {
            if bs.contains(bitmask) {
                let i = choose|i: int| 0 <= i < bs.len() && bs[i] == bitmask;
                assert(bs.drop_last()[i] == bitmask);
            }
            lemma_directs_come(v, bs.drop_last(), bitmask, peer);
        }
        lemma_mesh_set(g.mesh, b, with_items(m, more), bitmask, peer);
    }
}

/// The upkeep of the meshes leaves a direct peer where it is.
proof fn lemma_directs_stay(
    v: BehaviourView,
    scores: ScoreTable,
    bs: Seq<Seq<u8>>,
    bitmask: Seq<u8>,
    peer: u64,
)
    requires
        v.direct_peers.contains(peer),
        in_mesh(v.mesh, bitmask, peer),
    ensures
        in_mesh(upkeep(v, scores, bs).mesh, bitmask, peer),
    decreases bs.len(),
{
    if bs.len() > 0 {
        lemma_directs_stay(v, scores, bs.drop_last(), bitmask, peer);
        let u = upkeep(v, scores, bs.drop_last());
        let b = bs.last();
        let mesh = value_or(u.mesh, b, Seq::empty());
        let out = value_or(u.outbound, b, Seq::empty());
        let m = mesh_upkeep(
            v.params,
            v.peer_subscriptions,
            v.backoffs,
            scores,
            b,
            mesh,
            out,
            v.direct_peers,
        );
        if b == bitmask {
            law_direct_peers_stay(
                v.params,
                v.peer_subscriptions,
                v.backoffs,
                scores,
                b,
                mesh,
                out,
                v.direct_peers,
                peer,
            );
        }
        lemma_mesh_set(u.mesh, b, m.mesh, bitmask, peer);
    }
}

proof fn lemma_taken_keeps(v: BehaviourView, ps: Seq<(u64, Seq<u8>)>, bitmask: Seq<u8>, peer: u64)
    requires
        in_mesh(v.mesh, bitmask, peer),
    ensures
        in_mesh(taken_in(v, ps).mesh, bitmask, peer),
    decreases ps.len(),
{
    if ps.len() > 0 {
        lemma_taken_keeps(v, ps.drop_last(), bitmask, peer);
        let u = taken_in(v, ps.drop_last());
        let (p, b) = ps.last();
        let m = value_or(u.mesh, b, Seq::empty());
        lemma_with_item(m, p, peer);
        lemma_mesh_set(u.mesh, b, with_item(m, p), bitmask, peer);
    }
}

/// After a heartbeat, every connected direct peer is in the mesh of every subscribed
/// bitmask, whatever its score and however large the mesh is.
pub proof fn law_direct_peers_in_every_mesh(
    v: BehaviourView,
    scores: ScoreTable,
    now: u64,
    bitmask: Seq<u8>,
    peer: u64,
)
    requires
        v.direct_peers.contains(peer),
        has_key(v.connected_peers, peer),
        v.subscriptions.contains(bitmask),
    ensures
        in_mesh(beat_kept(beat_begun(v, now), scores, now).mesh, bitmask, peer),
{
    let counted = BehaviourView { heartbeat_ticks: (v.heartbeat_ticks + 1) as u64, ..v };
    let f = follow_up(
        counted.pending_iwants,
        counted.connected_peers,
        now,
        counted.params.iwant_followup_time,
    );
    lemma_asked_frame(
        BehaviourView { pending_iwants: f.pending, charges: counted.charges + f.late, ..counted },
        by_peer(f.retries),
    );
    let begun = beat_begun(v, now);
    let g = with_direct(begun, begun.subscriptions);
    lemma_directs_come(begun, begun.subscriptions, bitmask, peer);
    let asked = if direct_missing(begun) {
        begun.emit(need_peers(begun))
    } else {
        begun
    };
    lemma_grafts_frame(BehaviourView { mesh: g.mesh, ..asked }, g.grafts);
    let e = expired(directs_kept(begun), now);
    lemma_directs_stay(e, scores, e.subscriptions, bitmask, peer);
    let u = upkeep(e, scores, e.subscriptions);
    let v1 = BehaviourView { mesh: u.mesh, outbound_peers: u.outbound, ..e };
    lemma_grafts_frame(v1, u.grafts);
    lemma_prunes_frame(grafts_sent(v1, u.grafts), now, u.prunes);
    let meshed = meshes_kept(e, scores, now);
    lemma_announced_frame(meshed, scores, meshed.subscriptions);
    let p = peers_asked(fanouts_kept(announced(meshed, scores, meshed.subscriptions)));
    lemma_taken_keeps(p, better_peers(p, scores, p.subscriptions), bitmask, peer);
}

/// Setting one mesh to one without a peer keeps the peer out of a mesh.
proof fn lemma_mesh_set_without(
    mesh: Seq<(Seq<u8>, Seq<u64>)>,
    b: Seq<u8>,
    m: Seq<u64>,
    bitmask: Seq<u8>,
    peer: u64,
)
    requires
        b == bitmask ==> !m.contains(peer),
        b != bitmask ==> !in_mesh(mesh, bitmask, peer),
    ensures
        !in_mesh(with_value(mesh, b, m), bitmask, peer),
{
    lemma_with_value(mesh, b, m, bitmask);
    lemma_value_or(mesh, bitmask);
    lemma_value_or(with_value(mesh, b, m), bitmask);
}

/// The upkeep of the meshes takes a peer with a negative score out of each of them.
proof fn lemma_unwanted_leave(
    v: BehaviourView,
    scores: ScoreTable,
    bs: Seq<Seq<u8>>,
    bitmask: Seq<u8>,
    peer: u64,
)
    requires
        score_of(scores, peer) < 0,
        !v.direct_peers.contains(peer),
        bs.contains(bitmask),
    ensures
        !in_mesh(upkeep(v, scores, bs).mesh, bitmask, peer),
    decreases bs.len(),
{
    let u = upkeep(v, scores, bs.drop_last());
    let b = bs.last();
    let mesh = value_or(u.mesh, b, Seq::empty());
    let out = value_or(u.outbound, b, Seq::empty());
    let m = mesh_upkeep(
        v.params,
        v.peer_subscriptions,
        v.backoffs,
        scores,
        b,
        mesh,
        out,
        v.direct_peers,
    );
    if b == bitmask {
        law_negative_score_leaves(
            v.params,
            v.peer_subscriptions,
            v.backoffs,
            scores,
            b,
            mesh,
            out,
            v.direct_peers,
            peer,
        );
    } else {
        let i = choose|i: int| 0 <= i < bs.len() && bs[i] == bitmask;
        assert(bs.drop_last()[i] == bitmask);
        lemma_unwanted_leave(v, scores, bs.drop_last(), bitmask, peer);
    }
    lemma_mesh_set_without(u.mesh, b, m.mesh, bitmask, peer);
}

/// No peer with a negative score is taken in for its score.
proof fn lemma_better_is_welcome(v: BehaviourView, scores: ScoreTable, bs: Seq<Seq<u8>>, peer: u64)
    requires
        score_of(scores, peer) < 0,
    ensures
        forall|i: int|
            0 <= i < better_peers(v, scores, bs).len() ==> (#[trigger] better_peers(
                v,
                scores,
                bs,
            )[i]).0 != peer,
    decreases bs.len(),
{
    if bs.len() > 0 {
        let before = better_peers(v, scores, bs.drop_last());
        let found = better_peer(v, scores, bs.last());
        lemma_better_is_welcome(v, scores, bs.drop_last(), peer);
        let mesh = value_or(v.mesh, bs.last(), Seq::empty());
        let w = WantedView {
            bitmask: bs.last(),
            exclude: mesh,
            backoffs: v.backoffs,
            backoff_rule: BackoffRule::AnyEntry,
            scores,
            score_rule: ScoreRule::Above(graft_floor(median(scores, mesh))),
        };
        law_chosen_are_wanted(v.peer_subscriptions, w, 1);
        assert forall|i: int| 0 <= i < found.len() implies #[trigger] found[i] != peer by {
            assert(wanted_in(v.peer_subscriptions, w, found[i]));
        }
        assert forall|i: int|
            0 <= i < better_peers(v, scores, bs).len() implies (#[trigger] better_peers(
            v,
            scores,
            bs,
        )[i]).0 != peer by {
            if i < before.len() {
                assert(better_peers(v, scores, bs)[i] == before[i]);
            } else {
                assert(better_peers(v, scores, bs)[i].0 == found[i - before.len()]);
            }
        }
    }
}

proof fn lemma_taken_without(v: BehaviourView, ps: Seq<(u64, Seq<u8>)>, bitmask: Seq<u8>, peer: u64)
    requires
        !in_mesh(v.mesh, bitmask, peer),
        forall|i: int| 0 <= i < ps.len() ==> (#[trigger] ps[i]).0 != peer,
    ensures
        !in_mesh(taken_in(v, ps).mesh, bitmask, peer),
    decreases ps.len(),
{
    if ps.len() > 0 {
        let rest = ps.drop_last();
        assert forall|i: int| 0 <= i < rest.len() implies (#[trigger] rest[i]).0 != peer by {
            assert(rest[i] == ps[i]);
        }
        lemma_taken_without(v, rest, bitmask, peer);
        let u = taken_in(v, rest);
        let (p, b) = ps.last();
        assert(p != peer);
        let m = value_or(u.mesh, b, Seq::empty());
        lemma_with_item(m, p, peer);
        lemma_mesh_set_without(u.mesh, b, with_item(m, p), bitmask, peer);
    }
}

/// After a heartbeat, no peer with a negative score is in the mesh of a subscribed
/// bitmask, unless it is a direct peer.
pub proof fn law_negative_scores_in_no_mesh(
    v: BehaviourView,
    scores: ScoreTable,
    now: u64,
    bitmask: Seq<u8>,
    peer: u64,
)
    requires
        score_of(scores, peer) < 0,
        !v.direct_peers.contains(peer),
        v.subscriptions.contains(bitmask),
    ensures
        !in_mesh(beat_kept(beat_begun(v, now), scores, now).mesh, bitmask, peer),
{
    let counted = BehaviourView { heartbeat_ticks: (v.heartbeat_ticks + 1) as u64, ..v };
    let f = follow_up(
        counted.pending_iwants,
        counted.connected_peers,
        now,
        counted.params.iwant_followup_time,
    );
    lemma_asked_frame(
        BehaviourView { pending_iwants: f.pending, charges: counted.charges + f.late, ..counted },
        by_peer(f.retries),
    );
    let begun = beat_begun(v, now);
    let g = with_direct(begun, begun.subscriptions);
    let asked = if direct_missing(begun) {
        begun.emit(need_peers(begun))
    } else {
        begun
    };
    lemma_grafts_frame(BehaviourView { mesh: g.mesh, ..asked }, g.grafts);
    let e = expired(directs_kept(begun), now);
    lemma_unwanted_leave(e, scores, e.subscriptions, bitmask, peer);
    let u = upkeep(e, scores, e.subscriptions);
    let v1 = BehaviourView { mesh: u.mesh, outbound_peers: u.outbound, ..e };
    lemma_grafts_frame(v1, u.grafts);
    lemma_prunes_frame(grafts_sent(v1, u.grafts), now, u.prunes);
    let meshed = meshes_kept(e, scores, now);
    lemma_announced_frame(meshed, scores, meshed.subscriptions);
    let p = peers_asked(fanouts_kept(announced(meshed, scores, meshed.subscriptions)));
    lemma_better_is_welcome(p, scores, p.subscriptions, peer);
    lemma_taken_without(p, better_peers(p, scores, p.subscriptions), bitmask, peer);
}

/// A heartbeat leaves the composites and their index, what is subscribed to and who is
/// connected as they are.
pub proof fn law_heartbeat_keeps_the_composites(v: BehaviourView, scores: ScoreTable, now: u64)
    ensures
        ({
            let u = beat_kept(beat_begun(v, now), scores, now);
            &&& u.composites == v.composites
            &&& u.slice_to_composite == v.slice_to_composite
            &&& u.subscriptions == v.subscriptions
            &&& u.peer_subscriptions == v.peer_subscriptions
            &&& u.connected_peers == v.connected_peers
            &&& u.direct_peers == v.direct_peers
        }),
{
    let counted = BehaviourView { heartbeat_ticks: (v.heartbeat_ticks + 1) as u64, ..v };
    let f = follow_up(
        counted.pending_iwants,
        counted.connected_peers,
        now,
        counted.params.iwant_followup_time,
    );
    lemma_asked_frame(
        BehaviourView { pending_iwants: f.pending, charges: counted.charges + f.late, ..counted },
        by_peer(f.retries),
    );
    let begun = beat_begun(v, now);
    let g = with_direct(begun, begun.subscriptions);
    let asked = if direct_missing(begun) {
        begun.emit(need_peers(begun))
    } else {
        begun
    };
    lemma_grafts_frame(BehaviourView { mesh: g.mesh, ..asked }, g.grafts);
    let e = expired(directs_kept(begun), now);
    let u = upkeep(e, scores, e.subscriptions);
    let v1 = BehaviourView { mesh: u.mesh, outbound_peers: u.outbound, ..e };
    lemma_grafts_frame(v1, u.grafts);
    lemma_prunes_frame(grafts_sent(v1, u.grafts), now, u.prunes);
    let meshed = meshes_kept(e, scores, now);
    lemma_announced_frame(meshed, scores, meshed.subscriptions);
    let p = peers_asked(fanouts_kept(announced(meshed, scores, meshed.subscriptions)));
    lemma_taken_frame(p, better_peers(p, scores, p.subscriptions));
}

} // verus!
