//! What the gossip router knows of its peers, and how it chooses among them.
//!
//! A peer is a number that the network layer gave it. Its score is an integer
//! that keeps the order and the sign of the score it stands for.

use vstd::prelude::*;

use crate::assoc::{value_of, value_or, Blank, KeyMap, KeySet};
use crate::bytes::{copy_all, copy_bytes, views};

verus! {

/// The subscriptions of each known peer.
pub type PeerSubscriptions = KeyMap<u64, KeySet<Vec<u8>>>;

/// The view of [`PeerSubscriptions`].
pub type SubsView = Seq<(u64, Seq<Seq<u8>>)>;

/// Until when each peer is backed off, by bitmask.
pub type Backoffs = KeyMap<Vec<u8>, KeyMap<u64, u64>>;

/// The view of [`Backoffs`].
pub type BackoffsView = Seq<(Seq<u8>, Seq<(u64, u64)>)>;

/// The peers' scores. A peer without an entry has score zero.
pub struct Scores {
    pub table: KeyMap<u64, i64>,
}

/// The score of a peer in a table of scores.
pub open spec fn score_of(table: Seq<(u64, i64)>, peer: u64) -> i64 {
    value_or(table, peer, 0i64)
}

impl View for Scores {
    type V = Seq<(u64, i64)>;

    open spec fn view(&self) -> Seq<(u64, i64)> {
        self.table@
    }
}

impl Scores {
    /// The score of a peer.
    pub fn score(&self, peer: u64) -> (r: i64)
        ensures
            r == score_of(self@, peer),
    {
        match self.table.get(&peer) {
            Some(s) => *s,
            None => 0,
        }
    }
}

/// Until when a peer is backed off on a bitmask.
pub open spec fn backoff_of(b: BackoffsView, bitmask: Seq<u8>, peer: u64) -> Option<u64> {
    match value_of(b, bitmask) {
        Some(m) => value_of(m, peer),
        None => None,
    }
}

/// Looks up until when a peer is backed off on a bitmask.
pub fn backoff_until(b: &Backoffs, bitmask: &Vec<u8>, peer: u64) -> (r: Option<u64>)
    ensures
        r == backoff_of(b@, bitmask@, peer),
{
    match b.get(bitmask) {
        Some(m) => match m.get(&peer) {
            Some(t) => Some(*t),
            None => None,
        },
        None => None,
    }
}

/// Which backoffs keep a peer from being chosen.
#[derive(Clone, Copy, Debug)]
pub enum BackoffRule {
    /// None does.
    Ignored,
    /// Any entry does, whether it has run out or not.
    AnyEntry,
    /// An entry does that runs out after the given time.
    LiveAt(u64),
}

/// Which scores a peer may have to be chosen.
#[derive(Clone, Copy, Debug)]
pub enum ScoreRule {
    Any,
    AtLeast(i64),
    Above(i64),
}

/// Does a backoff keep a peer from being chosen?
pub open spec fn blocks(rule: BackoffRule, until: Option<u64>) -> bool {
    match rule {
        BackoffRule::Ignored => false,
        BackoffRule::AnyEntry => until is Some,
        BackoffRule::LiveAt(now) => until matches Some(t) && t > now,
    }
}

/// Is a score good enough?
pub open spec fn good(rule: ScoreRule, score: i64) -> bool {
    match rule {
        ScoreRule::Any => true,
        ScoreRule::AtLeast(min) => score >= min,
        ScoreRule::Above(low) => score > low,
    }
}

/// What is asked of a peer that is to be chosen for a bitmask.
pub struct Wanted<'a> {
    pub bitmask: &'a Vec<u8>,
    /// Peers that are not to be chosen.
    pub exclude: &'a KeySet<u64>,
    pub backoffs: &'a Backoffs,
    pub backoff_rule: BackoffRule,
    pub scores: &'a Scores,
    pub score_rule: ScoreRule,
}

/// The mathematical value of a [`Wanted`].
pub struct WantedView {
    pub bitmask: Seq<u8>,
    pub exclude: Seq<u64>,
    pub backoffs: BackoffsView,
    pub backoff_rule: BackoffRule,
    pub scores: Seq<(u64, i64)>,
    pub score_rule: ScoreRule,
}

impl WantedView {
    /// May the peer with these subscriptions be chosen?
    pub open spec fn admits(self, peer: u64, subs: Seq<Seq<u8>>) -> bool {
        &&& subs.contains(self.bitmask)
        &&& !self.exclude.contains(peer)
        &&& !blocks(self.backoff_rule, backoff_of(self.backoffs, self.bitmask, peer))
        &&& good(self.score_rule, score_of(self.scores, peer))
    }
}

impl<'a> View for Wanted<'a> {
    type V = WantedView;

    open spec fn view(&self) -> WantedView {
        WantedView {
            bitmask: self.bitmask@,
            exclude: self.exclude@,
            backoffs: self.backoffs@,
            backoff_rule: self.backoff_rule,
            scores: self.scores@,
            score_rule: self.score_rule,
        }
    }
}

impl<'a> Wanted<'a> {
    /// May the peer with these subscriptions be chosen?
    pub fn allows(&self, peer: u64, subs: &KeySet<Vec<u8>>) -> (r: bool)
        ensures
            r == self@.admits(peer, subs@),
    {
        if !subs.contains(self.bitmask) || self.exclude.contains(&peer) {
            return false;
        }
        let until = backoff_until(self.backoffs, self.bitmask, peer);
        let blocked = is_blocked(self.backoff_rule, until);
        if blocked {
            return false;
        }
        let score: i64 = self.scores.score(peer);
        match self.score_rule {
            ScoreRule::Any => true,
            ScoreRule::AtLeast(min) => score >= min,
            ScoreRule::Above(low) => score > low,
        }
    }
}

/// The keys of a map's entries, in order.
pub open spec fn keys_of<K, V>(s: Seq<(K, V)>) -> Seq<K> {
    Seq::new(s.len(), |i: int| s[i].0)
}

/// At most the first `n` of a sequence.
pub open spec fn at_most<A>(s: Seq<A>, n: nat) -> Seq<A> {
    if s.len() <= n {
        s
    } else {
        s.take(n as int)
    }
}

/// The first `n` peers, in order, that are wanted.
pub open spec fn chosen(subs: SubsView, w: WantedView, n: nat) -> Seq<u64> {
    at_most(keys_of(subs.filter(|e: (u64, Seq<Seq<u8>>)| w.admits(e.0, e.1))), n)
}

/// Chooses the first `n` peers that are wanted.
pub fn choose_peers(subs: &PeerSubscriptions, w: &Wanted<'_>, n: usize) -> (r: Vec<u64>)
    ensures
        r@ == chosen(subs@, w@, n as nat),
{
    let mut out: Vec<u64> = Vec::new();
    let ghost s = subs@;
    let ghost p = |e: (u64, Seq<Seq<u8>>)| w@.admits(e.0, e.1);
    let mut i: usize = 0;
    reveal(Seq::filter);
    assert(out@ =~= keys_of(s.take(0).filter(p)));
    while i < subs.entries.len()
        invariant
            i <= subs.entries@.len(),
            s == subs@,
            p == (|e: (u64, Seq<Seq<u8>>)| w@.admits(e.0, e.1)),
            out@ == keys_of(s.take(i as int).filter(p)),
            out@.len() <= n,
        decreases subs.entries@.len() - i,
    {
        if out.len() == n {
            proof {
                assert(s =~= s.take(i as int) + s.skip(i as int));
                Seq::filter_distributes_over_add(s.take(i as int), s.skip(i as int), p);
                let f = s.filter(p);
                assert(keys_of(f).take(n as int) =~= out@);
                assert(at_most(keys_of(f), n as nat) =~= out@);
            }
            return out;
        }
        let ghost before = out@;
        proof {
            assert(s.take(i + 1).drop_last() =~= s.take(i as int));
            assert(s.take(i + 1).last() == s[i as int]);
            reveal(Seq::filter);
        }
        let e = &subs.entries[i];
        if w.allows(e.0, &e.1) {
            out.push(e.0);
            assert(out@ =~= keys_of(s.take(i + 1).filter(p)));
        } else {
            assert(out@ =~= keys_of(s.take(i + 1).filter(p)));
        }
        i += 1;
    }
    assert(s.take(i as int) =~= s);
    out
}

/// Is the peer known with subscriptions for which it is wanted?
pub open spec fn wanted_in(subs: SubsView, w: WantedView, peer: u64) -> bool {
    exists|e: (u64, Seq<Seq<u8>>)| #[trigger]
        subs.contains(e) && e.0 == peer && w.admits(e.0, e.1)
}

/// No more peers are chosen than asked for, and each of them is wanted.
pub proof fn law_chosen_are_wanted(subs: SubsView, w: WantedView, n: nat)
    ensures
        chosen(subs, w, n).len() <= n,
        forall|i: int|
            0 <= i < chosen(subs, w, n).len() ==> wanted_in(
                subs,
                w,
                #[trigger] chosen(subs, w, n)[i],
            ),
{
    let p = |e: (u64, Seq<Seq<u8>>)| w.admits(e.0, e.1);
    let f = subs.filter(p);
    assert forall|i: int| 0 <= i < chosen(subs, w, n).len() implies wanted_in(
        subs,
        w,
        #[trigger] chosen(subs, w, n)[i],
    ) by {
        subs.lemma_filter_pred(p, i);
        assert(f.contains(f[i]));
        subs.lemma_filter_contains_rev(p, f[i]);
        assert(subs.contains(f[i]));
    }
}

/// A list of byte strings.
pub struct ByteList {
    pub items: Vec<Vec<u8>>,
}

impl View for ByteList {
    type V = Seq<Seq<u8>>;

    open spec fn view(&self) -> Seq<Seq<u8>> {
        views(self.items@)
    }
}

impl Blank for ByteList {
    open spec fn blank_view() -> Seq<Seq<u8>> {
        Seq::empty()
    }

    fn blank() -> (r: Self) {
        let r = ByteList { items: Vec::new() };
        assert(r@ =~= Seq::<Seq<u8>>::empty());
        r
    }
}

impl ByteList {
    /// Puts a byte string behind the others.
    pub fn push(&mut self, b: Vec<u8>)
        ensures
            final(self)@ == old(self)@.push(b@),
    {
        self.items.push(b);
        assert(self@ =~= old(self)@.push(b@));
    }
}

/// Does a peer subscribe to every slice?
pub open spec fn on_all(subs: Seq<Seq<u8>>, slices: Seq<Seq<u8>>) -> bool {
    forall|i: int| 0 <= i < slices.len() ==> subs.contains(#[trigger] slices[i])
}

/// Does a peer subscribe to a slice?
pub open spec fn on_any(subs: Seq<Seq<u8>>, slices: Seq<Seq<u8>>) -> bool {
    exists|i: int| 0 <= i < slices.len() && subs.contains(#[trigger] slices[i])
}

/// Does the peer subscribe to every slice?
pub fn subscribes_to_all(subs: &KeySet<Vec<u8>>, slices: &Vec<Vec<u8>>) -> (r: bool)
    ensures
        r == on_all(subs@, views(slices@)),
{
    let mut i: usize = 0;
    while i < slices.len()
        invariant
            i <= slices@.len(),
            forall|j: int| 0 <= j < i ==> subs@.contains(#[trigger] views(slices@)[j]),
        decreases slices@.len() - i,
    {
        if !subs.contains(&slices[i]) {
            assert(!subs@.contains(views(slices@)[i as int]));
            return false;
        }
        i += 1;
    }
    true
}

/// Does the peer subscribe to a slice?
pub fn subscribes_to_any(subs: &KeySet<Vec<u8>>, slices: &Vec<Vec<u8>>) -> (r: bool)
    ensures
        r == on_any(subs@, views(slices@)),
{
    let mut i: usize = 0;
    while i < slices.len()
        invariant
            i <= slices@.len(),
            forall|j: int| 0 <= j < i ==> !subs@.contains(#[trigger] views(slices@)[j]),
        decreases slices@.len() - i,
    {
        if subs.contains(&slices[i]) {
            assert(subs@.contains(views(slices@)[i as int]));
            return true;
        }
        i += 1;
    }
    false
}

/// A composite mesh: one mesh for a bitmask of several slices. Its peers are
/// those that subscribe to every slice, and brokers, which subscribe to some.
pub struct CompositeMeshEntry {
    pub bitmask: Vec<u8>,
    pub slices: Vec<Vec<u8>>,
    pub same: KeySet<u64>,
    pub broker: KeySet<u64>,
}

/// The mathematical value of a [`CompositeMeshEntry`].
#[verifier::ext_equal]
pub struct CompositeView {
    pub bitmask: Seq<u8>,
    pub slices: Seq<Seq<u8>>,
    pub same: Seq<u64>,
    pub broker: Seq<u64>,
}

impl View for CompositeMeshEntry {
    type V = CompositeView;

    open spec fn view(&self) -> CompositeView {
        CompositeView {
            bitmask: self.bitmask@,
            slices: views(self.slices@),
            same: self.same@,
            broker: self.broker@,
        }
    }
}

impl CompositeMeshEntry {
    /// The composite mesh without peers.
    pub fn new(bitmask: Vec<u8>, slices: Vec<Vec<u8>>) -> (r: Self)
        ensures
            r@ == (CompositeView {
                bitmask: bitmask@,
                slices: views(slices@),
                same: Seq::empty(),
                broker: Seq::empty(),
            }),
    {
        CompositeMeshEntry { bitmask, slices, same: KeySet::new(), broker: KeySet::new() }
    }

    /// How many peers the mesh has.
    pub fn total_peers(&self) -> (r: usize)
        requires
            self@.same.len() + self@.broker.len() <= usize::MAX,
        ensures
            r == self@.same.len() + self@.broker.len(),
    {
        self.same.len() + self.broker.len()
    }
}

/// The peers of a new composite mesh: up to `d` that subscribe to every slice,
/// and where these are fewer, brokers until there are `d`. A peer that is backed
/// off on the bitmask is passed over.
pub open spec fn composite_of(
    subs: SubsView,
    backoffs: BackoffsView,
    rule: BackoffRule,
    bitmask: Seq<u8>,
    slices: Seq<Seq<u8>>,
    d: nat,
) -> CompositeView {
    let same = at_most(
        keys_of(
            subs.filter(
                |e: (u64, Seq<Seq<u8>>)|
                    !blocks(rule, backoff_of(backoffs, bitmask, e.0)) && on_all(e.1, slices),
            ),
        ),
        d,
    );
    let broker = at_most(
        keys_of(
            subs.filter(
                |e: (u64, Seq<Seq<u8>>)|
                    !same.contains(e.0) && !blocks(rule, backoff_of(backoffs, bitmask, e.0))
                        && on_any(e.1, slices),
            ),
        ),
        (d - same.len()) as nat,
    );
    CompositeView { bitmask, slices, same, broker }
}

fn is_blocked(rule: BackoffRule, until: Option<u64>) -> (r: bool)
    ensures
        r == blocks(rule, until),
{
    match rule {
        BackoffRule::Ignored => false,
        BackoffRule::AnyEntry => until.is_some(),
        BackoffRule::LiveAt(now) => match until {
            Some(t) => t > now,
            None => false,
        },
    }
}

/// Chooses the peers of a new composite mesh.
pub fn build_composite(
    subs: &PeerSubscriptions,
    backoffs: &Backoffs,
    rule: BackoffRule,
    bitmask: &Vec<u8>,
    slices: &Vec<Vec<u8>>,
    d: usize,
) -> (r: CompositeMeshEntry)
    ensures
        r@ == composite_of(subs@, backoffs@, rule, bitmask@, views(slices@), d as nat),
{
    let same = choose_same(subs, backoffs, rule, bitmask, slices, d);
    let left: usize = d - same.items.len();
    let broker = choose_brokers(subs, backoffs, rule, bitmask, slices, &same, left);
    CompositeMeshEntry {
        bitmask: copy_bytes(bitmask.as_slice()),
        slices: copy_all(slices),
        same,
        broker,
    }
}

fn choose_same(
    subs: &PeerSubscriptions,
    backoffs: &Backoffs,
    rule: BackoffRule,
    bitmask: &Vec<u8>,
    slices: &Vec<Vec<u8>>,
    d: usize,
) -> (r: KeySet<u64>)
    ensures
        r@ == composite_of(subs@, backoffs@, rule, bitmask@, views(slices@), d as nat).same,
        r@.len() <= d,
{
    let mut out: Vec<u64> = Vec::new();
    let ghost s = subs@;
    let ghost p = |e: (u64, Seq<Seq<u8>>)|
        !blocks(rule, backoff_of(backoffs@, bitmask@, e.0)) && on_all(e.1, views(slices@));
    let mut i: usize = 0;
    reveal(Seq::filter);
    assert(out@ =~= keys_of(s.take(0).filter(p)));
    while i < subs.entries.len() && out.len() < d
        invariant
            i <= subs.entries@.len(),
            s == subs@,
            p == (|e: (u64, Seq<Seq<u8>>)|
                !blocks(rule, backoff_of(backoffs@, bitmask@, e.0)) && on_all(
                    e.1,
                    views(slices@),
                )),
            out@ == keys_of(s.take(i as int).filter(p)),
            out@.len() <= d,
        decreases subs.entries@.len() - i,
    {
        proof {
            assert(s.take(i + 1).drop_last() =~= s.take(i as int));
            assert(s.take(i + 1).last() == s[i as int]);
            reveal(Seq::filter);
        }
        let e = &subs.entries[i];
        if !is_blocked(rule, backoff_until(backoffs, bitmask, e.0)) && subscribes_to_all(
            &e.1,
            slices,
        ) {
            out.push(e.0);
        }
        assert(out@ =~= keys_of(s.take(i + 1).filter(p)));
        i += 1;
    }
    proof {
        lemma_prefix_choice(s, p, i as int, d as nat);
    }
    let r = KeySet { items: out };
    assert(r@ =~= out@);
    r
}

fn choose_brokers(
    subs: &PeerSubscriptions,
    backoffs: &Backoffs,
    rule: BackoffRule,
    bitmask: &Vec<u8>,
    slices: &Vec<Vec<u8>>,
    same: &KeySet<u64>,
    d: usize,
) -> (r: KeySet<u64>)
    ensures
        r@ == at_most(
            keys_of(
                subs@.filter(
                    |e: (u64, Seq<Seq<u8>>)|
                        !same@.contains(e.0) && !blocks(
                            rule,
                            backoff_of(backoffs@, bitmask@, e.0),
                        ) && on_any(e.1, views(slices@)),
                ),
            ),
            d as nat,
        ),
{
    let mut out: Vec<u64> = Vec::new();
    let ghost s = subs@;
    let ghost p = |e: (u64, Seq<Seq<u8>>)|
        !same@.contains(e.0) && !blocks(rule, backoff_of(backoffs@, bitmask@, e.0)) && on_any(
            e.1,
            views(slices@),
        );
    let mut i: usize = 0;
    reveal(Seq::filter);
    assert(out@ =~= keys_of(s.take(0).filter(p)));
    while i < subs.entries.len() && out.len() < d
        invariant
            i <= subs.entries@.len(),
            s == subs@,
            p == (|e: (u64, Seq<Seq<u8>>)|
                !same@.contains(e.0) && !blocks(rule, backoff_of(backoffs@, bitmask@, e.0))
                    && on_any(e.1, views(slices@))),
            out@ == keys_of(s.take(i as int).filter(p)),
            out@.len() <= d,
        decreases subs.entries@.len() - i,
    {
        proof {
            assert(s.take(i + 1).drop_last() =~= s.take(i as int));
            assert(s.take(i + 1).last() == s[i as int]);
            reveal(Seq::filter);
        }
        let e = &subs.entries[i];
        if !same.contains(&e.0) && !is_blocked(rule, backoff_until(backoffs, bitmask, e.0))
            && subscribes_to_any(&e.1, slices) {
            out.push(e.0);
        }
        assert(out@ =~= keys_of(s.take(i + 1).filter(p)));
        i += 1;
    }
    proof {
        lemma_prefix_choice(s, p, i as int, d as nat);
    }
    let r = KeySet { items: out };
    assert(r@ =~= out@);
    r
}

/// Where a prefix has given as many as asked for, or all entries were looked at,
/// the choice is what the prefix gave.
proof fn lemma_prefix_choice<V>(s: Seq<(u64, V)>, p: spec_fn((u64, V)) -> bool, i: int, n: nat)
    requires
        0 <= i <= s.len(),
        i == s.len() || s.take(i).filter(p).len() == n,
        s.take(i).filter(p).len() <= n,
    ensures
        at_most(keys_of(s.filter(p)), n) == keys_of(s.take(i).filter(p)),
{
    assert(s =~= s.take(i) + s.skip(i));
    Seq::filter_distributes_over_add(s.take(i), s.skip(i), p);
    if i == s.len() {
        assert(s.take(i) =~= s);
    }
    assert(at_most(keys_of(s.filter(p)), n) =~= keys_of(s.take(i).filter(p)));
}

/// A new composite mesh has at most `d` peers, and no peer is both.
pub proof fn law_composite_bounded(
    subs: SubsView,
    backoffs: BackoffsView,
    rule: BackoffRule,
    bitmask: Seq<u8>,
    slices: Seq<Seq<u8>>,
    d: nat,
)
    ensures
        ({
            let c = composite_of(subs, backoffs, rule, bitmask, slices, d);
            &&& c.same.len() + c.broker.len() <= d
            &&& forall|p: u64| c.same.contains(p) ==> !(#[trigger] c.broker.contains(p))
        }),
{
    let c = composite_of(subs, backoffs, rule, bitmask, slices, d);
    let q = |e: (u64, Seq<Seq<u8>>)|
        !c.same.contains(e.0) && !blocks(rule, backoff_of(backoffs, bitmask, e.0)) && on_any(
            e.1,
            slices,
        );
    assert forall|p: u64| c.same.contains(p) implies !(#[trigger] c.broker.contains(p)) by {
        if c.broker.contains(p) {
            let i = choose|i: int| 0 <= i < c.broker.len() && c.broker[i] == p;
            subs.lemma_filter_pred(q, i);
            assert(subs.filter(q)[i].0 == p);
        }
    }
}

} // verus!
