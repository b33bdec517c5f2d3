//! Following up on messages that were asked for and did not come.

use vstd::prelude::*;

use crate::assoc::{has_key, value_or, with_value, without_item, KeyMap};
use crate::behaviour::{BehaviourView, BlossomSubBehaviour, PendingIwant, PendingView};
use crate::bytes::{copy_all, copy_bytes, views};
use crate::control::told;
use crate::gossip::ByteList;
use crate::wire::{Charge, ChargeView, OutRpc, OutView};

verus! {

/// Has the answer been out for too long?
pub open spec fn overdue(e: PendingView, now: u64, timeout: u64) -> bool {
    let age = if now >= e.sent_at {
        now - e.sent_at
    } else {
        0
    };
    age >= timeout
}

/// May a peer be asked in place of the one that was?
pub open spec fn can_be_asked(connected: Seq<(u64, Seq<u64>)>, asked: u64) -> spec_fn(u64) -> bool {
    |p: u64| has_key(connected, p) && p != asked
}

/// The first other advertiser that can be asked.
pub open spec fn next_advertiser(connected: Seq<(u64, Seq<u64>)>, e: PendingView) -> Option<u64> {
    let able = e.other_advertisers.filter(can_be_asked(connected, e.asked));
    if able.len() > 0 {
        Some(able[0])
    } else {
        None
    }
}

/// The follow-up of all wanted messages: what is still wanted, who did not
/// deliver, and who is asked instead for what.
#[verifier::ext_equal]
pub struct FollowUp {
    pub pending: Seq<(Seq<u8>, PendingView)>,
    pub late: Seq<ChargeView>,
    pub retries: Seq<(u64, Seq<u8>)>,
}

/// The follow-up of the wanted messages, in order. A message that is not overdue
/// stays; an overdue one is asked of another advertiser, or given up.
pub open spec fn follow_up(
    pending: Seq<(Seq<u8>, PendingView)>,
    connected: Seq<(u64, Seq<u64>)>,
    now: u64,
    timeout: u64,
) -> FollowUp
    decreases pending.len(),
{
    if pending.len() == 0 {
        FollowUp { pending: Seq::empty(), late: Seq::empty(), retries: Seq::empty() }
    } else {
        let before = follow_up(pending.drop_last(), connected, now, timeout);
        let (id, e) = pending.last();
        if !overdue(e, now, timeout) {
            FollowUp { pending: before.pending.push((id, e)), ..before }
        } else {
            let late = before.late.push(
                ChargeView::Invalid { peer_id: e.asked, bitmask: Seq::empty() },
            );
            match next_advertiser(connected, e) {
                Some(p) => FollowUp {
                    pending: before.pending.push(
                        (
                            id,
                            PendingView {
                                asked: p,
                                sent_at: now,
                                other_advertisers: without_item(e.other_advertisers, p),
                                ..e
                            },
                        ),
                    ),
                    late,
                    retries: before.retries.push((p, id)),
                },
                None => FollowUp { late, ..before },
            }
        }
    }
}

/// The retries, gathered by peer in the order in which the peers first occur.
pub open spec fn by_peer(retries: Seq<(u64, Seq<u8>)>) -> Seq<(u64, Seq<Seq<u8>>)>
    decreases retries.len(),
{
    if retries.len() == 0 {
        Seq::empty()
    } else {
        let before = by_peer(retries.drop_last());
        let (p, id) = retries.last();
        with_value(before, p, value_or(before, p, Seq::empty()).push(id))
    }
}

/// One request to each of the peers.
pub open spec fn asked_again(v: BehaviourView, groups: Seq<(u64, Seq<Seq<u8>>)>) -> BehaviourView
    decreases groups.len(),
{
    if groups.len() == 0 {
        v
    } else {
        told(
            asked_again(v, groups.drop_last()),
            groups.last().0,
            OutView::Iwant(groups.last().1),
        )
    }
}

/// The state after the follow-up of the wanted messages.
pub open spec fn followed_up(v: BehaviourView, now: u64) -> BehaviourView {
    let f = follow_up(v.pending_iwants, v.connected_peers, now, v.params.iwant_followup_time);
    asked_again(
        BehaviourView { pending_iwants: f.pending, charges: v.charges + f.late, ..v },
        by_peer(f.retries),
    )
}

/// The views of retries.
pub open spec fn retry_views(v: Seq<(u64, Vec<u8>)>) -> Seq<(u64, Seq<u8>)> {
    Seq::new(v.len(), |i: int| (v[i].0, v[i].1@))
}

fn is_overdue(e: &PendingIwant, now: u64, timeout: u64) -> (r: bool)
    ensures
        r == overdue(e@, now, timeout),
{
    let age: u64 = if now >= e.sent_at {
        now - e.sent_at
    } else {
        0
    };
    age >= timeout
}

fn group_by_peer(retries: &Vec<(u64, Vec<u8>)>) -> (r: KeyMap<u64, ByteList>)
    ensures
        r@ == by_peer(retry_views(retries@)),
{
    let ghost rv = retry_views(retries@);
    let mut groups: KeyMap<u64, ByteList> = KeyMap::new();
    let mut i: usize = 0;
    assert(rv.take(0) =~= Seq::<(u64, Seq<u8>)>::empty());
    while i < retries.len()
        invariant
            i <= retries@.len(),
            rv == retry_views(retries@),
            groups@ == by_peer(rv.take(i as int)),
        decreases retries@.len() - i,
    {
        proof {
            assert(rv.take(i + 1).drop_last() =~= rv.take(i as int));
            assert(rv.take(i + 1).last() == rv[i as int]);
        }
        let list = groups.or_blank(&retries[i].0);
        list.push(copy_bytes(retries[i].1.as_slice()));
        i += 1;
    }
    assert(rv.take(i as int) =~= rv);
    groups
}

impl BlossomSubBehaviour {
    fn find_advertiser(&self, e: &PendingIwant) -> (r: Option<u64>)
        ensures
            r == next_advertiser(self@.connected_peers, e@),
    {
        let ghost s = e@.other_advertisers;
        let ghost p = can_be_asked(self@.connected_peers, e.asked);
        let mut i: usize = 0;
        reveal(Seq::filter);
        while i < e.other_advertisers.items.len()
            invariant
                i <= e.other_advertisers.items@.len(),
                s == e@.other_advertisers,
                p == can_be_asked(self@.connected_peers, e.asked),
                s.take(i as int).filter(p).len() == 0,
            decreases e.other_advertisers.items@.len() - i,
        {
            proof {
                assert(s.take(i + 1).drop_last() =~= s.take(i as int));
                assert(s.take(i + 1).last() == s[i as int]);
                reveal(Seq::filter);
            }
            let x: u64 = e.other_advertisers.items[i];
            if x != e.asked && self.connected_peers.contains_key(&x) {
                proof {
                    assert(s =~= s.take(i + 1) + s.skip(i + 1));
                    Seq::filter_distributes_over_add(s.take(i + 1), s.skip(i + 1), p);
                    assert(s.take(i + 1).filter(p)[0] == x);
                    assert(s.filter(p)[0] == x);
                }
                return Some(x);
            }
            i += 1;
        }
        assert(s.take(i as int) =~= s);
        None
    }

    /// Asks another advertiser for each message that is overdue, or gives the
    /// message up where there is none, and charges the peer that did not deliver.
    pub fn process_iwant_followups(&mut self, now: u64)
        ensures
            final(self)@ == followed_up(old(self)@, now),
            final(self).params == old(self).params,
            old(self).wf() ==> final(self).wf(),
    {
        let timeout: u64 = self.params.iwant_followup_time;
        let ghost s = self@.pending_iwants;
        let ghost conn = self@.connected_peers;
        let ghost start = self@;
        let mut retries: Vec<(u64, Vec<u8>)> = Vec::new();
        let ghost mut n: int = 0;
        let mut k: usize = 0;
        proof {
            assert(retry_views(retries@) =~= Seq::<(u64, Seq<u8>)>::empty());
            assert(s.take(0) =~= Seq::<(Seq<u8>, PendingView)>::empty());
            let f = follow_up(s.take(0), conn, now, timeout);
            assert(self@.pending_iwants =~= f.pending + s.skip(0));
            assert(self@.charges =~= start.charges + f.late);
        }
        while k < self.pending_iwants.entries.len()
            invariant
                0 <= n <= s.len(),
                s == start.pending_iwants,
                conn == start.connected_peers,
                start == old(self)@,
                timeout == start.params.iwant_followup_time,
                self.params == old(self).params,
                old(self).wf() ==> self.wf(),
                ({
                    let f = follow_up(s.take(n), conn, now, timeout);
                    &&& k == f.pending.len()
                    &&& self@ == (BehaviourView {
                        pending_iwants: f.pending + s.skip(n),
                        charges: start.charges + f.late,
                        ..start
                    })
                    &&& retry_views(retries@) == f.retries
                }),
            decreases s.len() - n,
        {
            let ghost before = self@;
            let ghost f = follow_up(s.take(n), conn, now, timeout);
            let ghost g = follow_up(s.take(n + 1), conn, now, timeout);
            let ghost old_retries = retry_views(retries@);
            proof {
                assert(before.pending_iwants[k as int] == s.skip(n)[0]);
                assert(s.take(n + 1).drop_last() =~= s.take(n));
                assert(s.take(n + 1).last() == s[n]);
            }
            let e = &self.pending_iwants.entries[k].1;
            if !is_overdue(e, now, timeout) {
                k += 1;
                assert(self@.pending_iwants =~= g.pending + s.skip(n + 1));
            } else {
                let asked: u64 = e.asked;
                let next = self.find_advertiser(e);
                let none: Vec<u8> = Vec::new();
                assert(none@ =~= Seq::<u8>::empty());
                self.charge(Charge::Invalid { peer_id: asked, bitmask: none });
                assert(self@.charges =~= start.charges + g.late);
                assert(self@.pending_iwants.len() == self.pending_iwants.entries@.len());
                match next {
                    Some(p) => {
                        let id = copy_bytes(self.pending_iwants.entries[k].0.as_slice());
                        let e = &mut self.pending_iwants.entries[k].1;
                        e.other_advertisers.remove(&p);
                        e.asked = p;
                        e.sent_at = now;
                        assert(self@.pending_iwants =~= before.pending_iwants.update(
                            k as int,
                            g.pending[k as int],
                        ));
                        assert(self@.pending_iwants =~= g.pending + s.skip(n + 1));
                        retries.push((p, id));
                        assert(retry_views(retries@) =~= old_retries.push((p, s[n].0)));
                        k += 1;
                    },
                    None => {
                        self.pending_iwants.entries.remove(k);
                        assert(self@.pending_iwants =~= before.pending_iwants.remove(k as int));
                        assert(self@.pending_iwants =~= g.pending + s.skip(n + 1));
                    },
                }
            }
            proof {
                n = n + 1;
            }
        }
        assert(self@.pending_iwants.len() == self.pending_iwants.entries@.len());
        assert(s.take(n) =~= s);
        assert(s.skip(n) =~= Seq::<(Seq<u8>, PendingView)>::empty());
        proof {
            let f = follow_up(s, conn, now, timeout);
            assert(f.pending + s.skip(n) =~= f.pending);
        }
        let groups = group_by_peer(&retries);
        let ghost mid = self@;
        let mut j: usize = 0;
        assert(groups@.take(0) =~= Seq::<(u64, Seq<Seq<u8>>)>::empty());
        while j < groups.entries.len()
            invariant
                j <= groups.entries@.len(),
                self@ == asked_again(mid, groups@.take(j as int)),
                self.params == old(self).params,
                old(self).wf() ==> self.wf(),
            decreases groups.entries@.len() - j,
        {
            proof {
                assert(groups@.take(j + 1).drop_last() =~= groups@.take(j as int));
                assert(groups@.take(j + 1).last() == groups@[j as int]);
            }
            self.tell(groups.entries[j].0, OutRpc::Iwant(copy_all(&groups.entries[j].1.items)));
            j += 1;
        }
        assert(groups@.take(j as int) =~= groups@);
    }
}

} // verus!
