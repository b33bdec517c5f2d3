//! The heartbeat of the gossip behaviour: keeping each mesh within its bounds.

use vstd::prelude::*;

use crate::assoc::{
    has_key, key_views, value_or, with_items, with_value, without_key, KeyMap, KeySet,
};
use crate::behaviour::{connection_of, BehaviourView, BlossomSubBehaviour};
use crate::blossomsub::{for_bitmask, pair_views};
use crate::bytes::{copy_all, copy_bytes, views};
use crate::control::with_backoff;
use crate::gossip::{keys_of, BackoffsView};
use crate::wire::{BlossomSubEvent, EventView, OutRpc, OutView};

verus! {

/// How many identifiers of seen messages are kept before all are forgotten.
pub const MAX_SEEN_MESSAGES: usize = 10_000;

/// Every how many heartbeats better peers are looked for.
pub const OPPORTUNISTIC_GRAFT_TICKS: u64 = 60;

/// A table of scores.
pub type ScoreTable = Seq<(u64, i64)>;

/// A request to a peer to join a mesh, where it is connected.
pub open spec fn graft_sent(v: BehaviourView, peer: u64, bitmask: Seq<u8>) -> BehaviourView {
    match connection_of(v.connected_peers, peer) {
        Some(c) => v.emit(
            EventView::Send { peer_id: peer, connection: Some(c), rpc: OutView::Graft(bitmask) },
        ),
        None => v,
    }
}

/// A notice to a peer that it left a mesh, where it is connected; it is then
/// backed off.
pub open spec fn prune_sent(v: BehaviourView, now: u64, peer: u64, bitmask: Seq<u8>) -> BehaviourView {
    match connection_of(v.connected_peers, peer) {
        Some(c) => {
            let told = v.emit(
                EventView::Send {
                    peer_id: peer,
                    connection: Some(c),
                    rpc: OutView::Prune { bitmask, backoff: v.params.prune_backoff / 1000 },
                },
            );
            BehaviourView {
                backoffs: with_backoff(
                    told.backoffs,
                    bitmask,
                    peer,
                    (now + v.params.prune_backoff) as u64,
                ),
                ..told
            }
        },
        None => v,
    }
}

/// Requests to join, in order.
pub open spec fn grafts_sent(v: BehaviourView, ps: Seq<(u64, Seq<u8>)>) -> BehaviourView
    decreases ps.len(),
{
    if ps.len() == 0 {
        v
    } else {
        graft_sent(grafts_sent(v, ps.drop_last()), ps.last().0, ps.last().1)
    }
}

/// Notices of leaving, in order.
pub open spec fn prunes_sent(v: BehaviourView, now: u64, ps: Seq<(u64, Seq<u8>)>) -> BehaviourView
    decreases ps.len(),
{
    if ps.len() == 0 {
        v
    } else {
        prune_sent(prunes_sent(v, now, ps.drop_last()), now, ps.last().0, ps.last().1)
    }
}

/// The event that asks for more peers.
pub open spec fn need_peers(v: BehaviourView) -> EventView {
    EventView::NeedPeers { subscriptions: v.subscriptions, connected: v.connected_peers.len() }
}

/// Is a direct peer connected, and not in the mesh?
pub open spec fn missing_direct(connected: Seq<(u64, Seq<u64>)>, mesh: Seq<u64>) -> spec_fn(
    u64,
) -> bool {
    |p: u64| has_key(connected, p) && !mesh.contains(p)
}

/// Meshes, and peers to graft.
pub struct Grafting {
    pub mesh: Seq<(Seq<u8>, Seq<u64>)>,
    pub grafts: Seq<(u64, Seq<u8>)>,
}

/// The connected direct peers brought into the mesh of each of the bitmasks.
pub open spec fn with_direct(v: BehaviourView, bs: Seq<Seq<u8>>) -> Grafting
    decreases bs.len(),
{
    if bs.len() == 0 {
        Grafting { mesh: v.mesh, grafts: Seq::empty() }
    } else {
        let g = with_direct(v, bs.drop_last());
        let m = value_or(g.mesh, bs.last(), Seq::empty());
        let more = v.direct_peers.filter(missing_direct(v.connected_peers, m));
        Grafting {
            mesh: with_value(g.mesh, bs.last(), with_items(m, more)),
            grafts: g.grafts + for_bitmask(more, bs.last()),
        }
    }
}

/// Is there a direct peer that is not connected?
pub open spec fn direct_missing(v: BehaviourView) -> bool {
    exists|i: int|
        0 <= i < v.direct_peers.len() && !has_key(v.connected_peers, #[trigger] v.direct_peers[i])
}

/// The state after the direct peers were looked after.
pub open spec fn directs_kept(v: BehaviourView) -> BehaviourView {
    if v.direct_peers.len() == 0 {
        v
    } else {
        let asked = if direct_missing(v) {
            v.emit(need_peers(v))
        } else {
            v
        };
        let g = with_direct(v, v.subscriptions);
        grafts_sent(BehaviourView { mesh: g.mesh, ..asked }, g.grafts)
    }
}

/// Is a backoff still on?
pub open spec fn still_on(now: u64) -> spec_fn((u64, u64)) -> bool {
    |e: (u64, u64)| e.1 > now
}

/// The backoffs that are still on.
pub open spec fn live_backoffs(b: BackoffsView, now: u64) -> BackoffsView {
    Seq::new(b.len(), |i: int| (b[i].0, b[i].1.filter(still_on(now))))
}

/// The bitmasks whose fanout has run out.
pub open spec fn stale_fanout(pubs: Seq<(Seq<u8>, u64)>, now: u64, ttl: u64) -> Seq<Seq<u8>> {
    keys_of(pubs.filter(not_fresh(now, ttl)))
}

/// Was a bitmask last published to too long ago?
pub open spec fn not_fresh(now: u64, ttl: u64) -> spec_fn((Seq<u8>, u64)) -> bool {
    |e: (Seq<u8>, u64)| now >= e.1 && now - e.1 > ttl
}

/// A map without each of the keys.
pub open spec fn without_keys<V>(s: Seq<(Seq<u8>, V)>, ks: Seq<Seq<u8>>) -> Seq<(Seq<u8>, V)>
    decreases ks.len(),
{
    if ks.len() == 0 {
        s
    } else {
        without_key(without_keys(s, ks.drop_last()), ks.last())
    }
}

/// The state after what has run out was let go: old messages, backoffs, and the
/// fanout of bitmasks that are no longer published to.
pub open spec fn expired(v: BehaviourView, now: u64) -> BehaviourView {
    let gone = stale_fanout(v.fanout_last_pub, now, v.params.fanout_ttl);
    BehaviourView {
        mcache: v.mcache.shifted(),
        seen_messages: if v.seen_messages.len() > MAX_SEEN_MESSAGES {
            Seq::empty()
        } else {
            v.seen_messages
        },
        backoffs: live_backoffs(v.backoffs, now),
        fanout: without_keys(v.fanout, gone),
        fanout_last_pub: without_keys(v.fanout_last_pub, gone),
        ..v
    }
}

impl BlossomSubBehaviour {
    /// Asks a peer to join a mesh.
    pub fn send_graft(&mut self, peer: u64, bitmask: &Vec<u8>)
        ensures
            final(self)@ == graft_sent(old(self)@, peer, bitmask@),
    {
        if let Some(c) = self.first_connection(peer) {
            self.emit(
                BlossomSubEvent::Send {
                    peer_id: peer,
                    connection: Some(c),
                    rpc: OutRpc::Graft(copy_bytes(bitmask.as_slice())),
                },
            );
        }
    }

    /// Tells a peer that it left a mesh, and backs it off.
    pub fn send_prune(&mut self, now: u64, peer: u64, bitmask: &Vec<u8>)
        requires
            now + old(self).params.prune_backoff <= u64::MAX,
        ensures
            final(self)@ == prune_sent(old(self)@, now, peer, bitmask@),
            final(self).params == old(self).params,
    {
        let backoff: u64 = self.params.prune_backoff;
        let ghost before = self@;
        if let Some(c) = self.first_connection(peer) {
            self.emit(
                BlossomSubEvent::Send {
                    peer_id: peer,
                    connection: Some(c),
                    rpc: OutRpc::Prune {
                        bitmask: copy_bytes(bitmask.as_slice()),
                        backoff: backoff / 1000,
                    },
                },
            );
            assert(self@.params == before.params);
            self.back_off(bitmask, peer, now + backoff);
        }
    }

    /// Asks each of the peers to join.
    pub(crate) fn send_grafts(&mut self, ps: &Vec<(u64, Vec<u8>)>)
        ensures
            final(self)@ == grafts_sent(old(self)@, pair_views(ps@)),
    {
        let ghost pv = pair_views(ps@);
        let mut i: usize = 0;
        assert(pv.take(0) =~= Seq::<(u64, Seq<u8>)>::empty());
        while i < ps.len()
            invariant
                i <= ps@.len(),
                pv == pair_views(ps@),
                self@ == grafts_sent(old(self)@, pv.take(i as int)),
            decreases ps@.len() - i,
        {
            proof {
                assert(pv.take(i + 1).drop_last() =~= pv.take(i as int));
                assert(pv.take(i + 1).last() == pv[i as int]);
            }
            self.send_graft(ps[i].0, &ps[i].1);
            i += 1;
        }
        assert(pv.take(i as int) =~= pv);
    }

    /// Tells each of the peers that it left.
    pub(crate) fn send_prunes(&mut self, now: u64, ps: &Vec<(u64, Vec<u8>)>)
        requires
            now + old(self).params.prune_backoff <= u64::MAX,
        ensures
            final(self)@ == prunes_sent(old(self)@, now, pair_views(ps@)),
    {
        let ghost pv = pair_views(ps@);
        let mut i: usize = 0;
        assert(pv.take(0) =~= Seq::<(u64, Seq<u8>)>::empty());
        while i < ps.len()
            invariant
                i <= ps@.len(),
                pv == pair_views(ps@),
                self@ == prunes_sent(old(self)@, now, pv.take(i as int)),
                self.params == old(self).params,
                now + self.params.prune_backoff <= u64::MAX,
            decreases ps@.len() - i,
        {
            proof {
                assert(pv.take(i + 1).drop_last() =~= pv.take(i as int));
                assert(pv.take(i + 1).last() == pv[i as int]);
            }
            self.send_prune(now, ps[i].0, &ps[i].1);
            i += 1;
        }
        assert(pv.take(i as int) =~= pv);
    }

    /// Asks the node for more peers.
    pub(crate) fn ask_for_peers(&mut self)
        ensures
            final(self)@ == old(self)@.emit(need_peers(old(self)@)),
    {
        let subscriptions = copy_all(&self.subscriptions.items);
        assert(views(subscriptions@) =~= self.subscriptions@);
        let connected: usize = self.connected_peers.len();
        self.emit(BlossomSubEvent::NeedPeers { subscriptions, connected });
    }

    fn missing_directs(&self, mesh: &KeySet<u64>) -> (r: Vec<u64>)
        ensures
            r@ == self@.direct_peers.filter(missing_direct(self@.connected_peers, mesh@)),
    {
        let ghost s = self@.direct_peers;
        let ghost p = missing_direct(self@.connected_peers, mesh@);
        let mut out: Vec<u64> = Vec::new();
        let mut i: usize = 0;
        reveal(Seq::filter);
        assert(out@ =~= s.take(0).filter(p));
        while i < self.direct_peers.items.len()
            invariant
                i <= self.direct_peers.items@.len(),
                s == self@.direct_peers,
                p == missing_direct(self@.connected_peers, mesh@),
                out@ == s.take(i as int).filter(p),
            decreases self.direct_peers.items@.len() - i,
        {
            proof {
                assert(s.take(i + 1).drop_last() =~= s.take(i as int));
                assert(s.take(i + 1).last() == s[i as int]);
                reveal(Seq::filter);
            }
            let x: u64 = self.direct_peers.items[i];
            if self.connected_peers.contains_key(&x) && !mesh.contains(&x) {
                out.push(x);
            }
            i += 1;
        }
        assert(s.take(i as int) =~= s);
        out
    }

    fn is_direct_missing(&self) -> (r: bool)
        ensures
            r == direct_missing(self@),
    {
        let mut i: usize = 0;
        while i < self.direct_peers.items.len()
            invariant
                i <= self.direct_peers.items@.len(),
                forall|j: int|
                    0 <= j < i ==> has_key(
                        self@.connected_peers,
                        #[trigger] self@.direct_peers[j],
                    ),
            decreases self.direct_peers.items@.len() - i,
        {
            if !self.connected_peers.contains_key(&self.direct_peers.items[i]) {
                assert(!has_key(self@.connected_peers, self@.direct_peers[i as int]));
                return true;
            }
            i += 1;
        }
        false
    }

    /// Brings the connected direct peers into the mesh of every subscription.
    pub(crate) fn keep_directs(&mut self)
        ensures
            final(self)@ == directs_kept(old(self)@),
            final(self).params == old(self).params,
            old(self).wf() ==> final(self).wf(),
    {
        if self.direct_peers.items.len() == 0 {
            assert(self@.direct_peers.len() == 0);
            return;
        }
        assert(self@.direct_peers.len() > 0);
        let ghost start = self@;
        if self.is_direct_missing() {
            self.ask_for_peers();
        }
        let ghost asked = self@;
        let ghost bs = start.subscriptions;
        let bitmasks = copy_all(&self.subscriptions.items);
        assert(views(bitmasks@) =~= bs);
        let mut grafts: Vec<(u64, Vec<u8>)> = Vec::new();
        let mut i: usize = 0;
        proof {
            assert(bs.take(0) =~= Seq::<Seq<u8>>::empty());
            assert(pair_views(grafts@) =~= Seq::<(u64, Seq<u8>)>::empty());
        }
        while i < bitmasks.len()
            invariant
                i <= bitmasks@.len(),
                bs == views(bitmasks@),
                ({
                    let g = with_direct(start, bs.take(i as int));
                    &&& self@ == (BehaviourView { mesh: g.mesh, ..asked })
                    &&& pair_views(grafts@) == g.grafts
                }),
                asked.direct_peers == start.direct_peers,
                asked.connected_peers == start.connected_peers,
                self.params == old(self).params,
                old(self).wf() ==> self.wf(),
            decreases bitmasks@.len() - i,
        {
            proof {
                assert(bs.take(i + 1).drop_last() =~= bs.take(i as int));
                assert(bs.take(i + 1).last() == bs[i as int]);
            }
            let bitmask = &bitmasks[i];
            let mut m = match self.mesh.get(bitmask) {
                Some(m) => m.dup(),
                None => KeySet::new(),
            };
            let more = self.missing_directs(&m);
            assert(key_views(more@) =~= more@);
            m.insert_all(&more);
            self.mesh.insert(copy_bytes(bitmask.as_slice()), m);
            crate::blossomsub::push_pairs(&mut grafts, &more, bitmask);
            i += 1;
        }
        assert(bs.take(i as int) =~= bs);
        proof {
            let g = with_direct(start, bs);
            lemma_grafts_frame(BehaviourView { mesh: g.mesh, ..asked }, g.grafts);
        }
        self.send_grafts(&grafts);
    }

    fn expire_backoffs(&mut self, now: u64)
        ensures
            final(self)@ == (BehaviourView {
                backoffs: live_backoffs(old(self)@.backoffs, now),
                ..old(self)@
            }),
    {
        let ghost all = live_backoffs(self@.backoffs, now);
        let mut i: usize = 0;
        while i < self.backoffs.entries.len()
            invariant
                i <= self.backoffs.entries@.len(),
                all == live_backoffs(old(self)@.backoffs, now),
                self.backoffs.entries@.len() == all.len(),
                self@ == (BehaviourView { backoffs: self@.backoffs, ..old(self)@ }),
                forall|j: int| 0 <= j < i ==> self@.backoffs[j] == all[j],
                forall|j: int|
                    i <= j < all.len() ==> self@.backoffs[j] == old(self)@.backoffs[j],
            decreases self.backoffs.entries@.len() - i,
        {
            let ghost before = self@.backoffs;
            let live = live_entries(&self.backoffs.entries[i].1, now);
            let m = &mut self.backoffs.entries[i].1;
            *m = live;
            assert(self@.backoffs =~= before.update(i as int, all[i as int]));
            i += 1;
        }
        assert(self@.backoffs =~= all);
    }

    fn stale_bitmasks(&self, now: u64) -> (r: Vec<Vec<u8>>)
        ensures
            views(r@) == stale_fanout(self@.fanout_last_pub, now, self.params.fanout_ttl),
    {
        let ttl: u64 = self.params.fanout_ttl;
        let ghost s = self@.fanout_last_pub;
        let ghost p = not_fresh(now, ttl);
        let mut out: Vec<Vec<u8>> = Vec::new();
        let mut i: usize = 0;
        reveal(Seq::filter);
        assert(views(out@) =~= keys_of(s.take(0).filter(p)));
        while i < self.fanout_last_pub.entries.len()
            invariant
                i <= self.fanout_last_pub.entries@.len(),
                s == self@.fanout_last_pub,
                p == not_fresh(now, ttl),
                views(out@) == keys_of(s.take(i as int).filter(p)),
            decreases self.fanout_last_pub.entries@.len() - i,
        {
            let ghost before = views(out@);
            proof {
                assert(s.take(i + 1).drop_last() =~= s.take(i as int));
                assert(s.take(i + 1).last() == s[i as int]);
                reveal(Seq::filter);
            }
            let last: u64 = self.fanout_last_pub.entries[i].1;
            if now >= last && now - last > ttl {
                out.push(copy_bytes(self.fanout_last_pub.entries[i].0.as_slice()));
                assert(views(out@) =~= before.push(s[i as int].0));
            }
            assert(views(out@) =~= keys_of(s.take(i + 1).filter(p)));
            i += 1;
        }
        assert(s.take(i as int) =~= s);
        out
    }

    /// Lets go of what has run out.
    pub(crate) fn expire(&mut self, now: u64)
        requires
            old(self).wf(),
        ensures
            final(self)@ == expired(old(self)@, now),
            final(self).params == old(self).params,
            final(self).wf(),
    {
        self.mcache.shift();
        if self.seen_messages.len() > MAX_SEEN_MESSAGES {
            self.seen_messages.clear();
        }
        let ghost before = self@;
        self.expire_backoffs(now);
        assert(self@.params == before.params);
        let gone = self.stale_bitmasks(now);
        let ghost gv = views(gone@);
        let ghost start = self@;
        let mut i: usize = 0;
        assert(gv.take(0) =~= Seq::<Seq<u8>>::empty());
        while i < gone.len()
            invariant
                i <= gone@.len(),
                gv == views(gone@),
                self@ == (BehaviourView {
                    fanout: without_keys(start.fanout, gv.take(i as int)),
                    fanout_last_pub: without_keys(start.fanout_last_pub, gv.take(i as int)),
                    ..start
                }),
            decreases gone@.len() - i,
        {
            proof {
                assert(gv.take(i + 1).drop_last() =~= gv.take(i as int));
                assert(gv.take(i + 1).last() == gv[i as int]);
            }
            self.fanout.remove(&gone[i]);
            self.fanout_last_pub.remove(&gone[i]);
            i += 1;
        }
        assert(gv.take(i as int) =~= gv);
        assert(self@.params == start.params);
    }
}

fn live_entries(m: &KeyMap<u64, u64>, now: u64) -> (r: KeyMap<u64, u64>)
    ensures
        r@ == m@.filter(still_on(now)),
{
    let ghost s = m@;
    let ghost p = still_on(now);
    let mut r: KeyMap<u64, u64> = KeyMap::new();
    let mut i: usize = 0;
    reveal(Seq::filter);
    assert(r@ =~= s.take(0).filter(p));
    while i < m.entries.len()
        invariant
            i <= m.entries@.len(),
            s == m@,
            p == still_on(now),
            r@ == s.take(i as int).filter(p),
        decreases m.entries@.len() - i,
    {
        let ghost before = r@;
        proof {
            assert(s.take(i + 1).drop_last() =~= s.take(i as int));
            assert(s.take(i + 1).last() == s[i as int]);
            reveal(Seq::filter);
        }
        if m.entries[i].1 > now {
            r.entries.push((m.entries[i].0, m.entries[i].1));
            assert(r@ =~= before.push(s[i as int]));
        }
        i += 1;
    }
    assert(s.take(i as int) =~= s);
    r
}

/// Requests to join change nothing but the events.
pub proof fn lemma_grafts_frame(v: BehaviourView, ps: Seq<(u64, Seq<u8>)>)
    ensures
        grafts_sent(v, ps) == (BehaviourView { events: grafts_sent(v, ps).events, ..v }),
    decreases ps.len(),
{
    if ps.len() > 0 {
        lemma_grafts_frame(v, ps.drop_last());
    }
}

/// Notices of leaving change nothing but the events and the backoffs.
pub proof fn lemma_prunes_frame(v: BehaviourView, now: u64, ps: Seq<(u64, Seq<u8>)>)
    ensures
        prunes_sent(v, now, ps) == (BehaviourView {
            events: prunes_sent(v, now, ps).events,
            backoffs: prunes_sent(v, now, ps).backoffs,
            ..v
        }),
    decreases ps.len(),
{
    if ps.len() > 0 {
        lemma_prunes_frame(v, now, ps.drop_last());
    }
}

} // verus!
