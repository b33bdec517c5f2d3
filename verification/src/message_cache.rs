//! The recent messages, kept in windows of one heartbeat each.

use vstd::prelude::*;

use crate::assoc::{lemma_value_filter, lemma_with_value, value_of, with_value, KeyMap};
use crate::bytes::{bytes_eq, copy_bytes, views};

verus! {

/// A message in the cache.
pub struct CachedMessage {
    pub bitmask: Vec<u8>,
    pub data: Vec<u8>,
    pub from: u64,
}

/// The mathematical value of a [`CachedMessage`].
pub struct CachedView {
    pub bitmask: Seq<u8>,
    pub data: Seq<u8>,
    pub from: u64,
}

impl View for CachedMessage {
    type V = CachedView;

    open spec fn view(&self) -> CachedView {
        CachedView { bitmask: self.bitmask@, data: self.data@, from: self.from }
    }
}

/// The cache: the identifiers of each window, oldest window first, and the
/// messages by identifier.
pub struct MessageCache {
    pub windows: Vec<Vec<Vec<u8>>>,
    pub messages: KeyMap<Vec<u8>, CachedMessage>,
    /// How many windows are kept.
    pub history_length: usize,
    /// How many of the latest windows are gossiped about.
    pub history_gossip: usize,
}

/// The mathematical value of a [`MessageCache`].
#[verifier::ext_equal]
pub struct CacheView {
    pub windows: Seq<Seq<Seq<u8>>>,
    pub messages: Seq<(Seq<u8>, CachedView)>,
    pub history_length: nat,
    pub history_gossip: nat,
}

/// The views of the windows.
pub open spec fn window_views(ws: Seq<Vec<Vec<u8>>>) -> Seq<Seq<Seq<u8>>> {
    Seq::new(ws.len(), |i: int| views(ws[i]@))
}

impl View for MessageCache {
    type V = CacheView;

    open spec fn view(&self) -> CacheView {
        CacheView {
            windows: window_views(self.windows@),
            messages: self.messages@,
            history_length: self.history_length as nat,
            history_gossip: self.history_gossip as nat,
        }
    }
}

impl CacheView {
    /// There is always a current window.
    pub open spec fn wf(self) -> bool {
        self.windows.len() > 0
    }

    /// The cache with one more message, in the current window.
    pub open spec fn put(self, id: Seq<u8>, m: CachedView) -> CacheView
        recommends
            self.wf(),
    {
        CacheView {
            windows: self.windows.update(
                self.windows.len() - 1,
                self.windows[self.windows.len() - 1].push(id),
            ),
            messages: with_value(self.messages, id, m),
            ..self
        }
    }

    /// The cache with a new current window. Where that makes one window too
    /// many, the oldest goes, and its messages with it.
    pub open spec fn shifted(self) -> CacheView {
        let ws = self.windows.push(Seq::empty());
        if ws.len() > self.history_length {
            CacheView {
                windows: ws.drop_first(),
                messages: without_ids(self.messages, ws[0]),
                ..self
            }
        } else {
            CacheView { windows: ws, ..self }
        }
    }

    /// Is the identifier that of a cached message with the bitmask?
    pub open spec fn is_on(self, bitmask: Seq<u8>, id: Seq<u8>) -> bool {
        value_of(self.messages, id) matches Some(m) && m.bitmask == bitmask
    }

    /// The identifiers to gossip about for a bitmask: those in the latest
    /// windows, oldest first.
    pub open spec fn gossip_ids(self, bitmask: Seq<u8>) -> Seq<Seq<u8>> {
        let start = if self.windows.len() <= self.history_gossip {
            0
        } else {
            self.windows.len() - self.history_gossip
        };
        self.windows.skip(start).flatten().filter(|id: Seq<u8>| self.is_on(bitmask, id))
    }
}

/// The entries whose key is none of the identifiers.
pub open spec fn without_ids<V>(s: Seq<(Seq<u8>, V)>, ids: Seq<Seq<u8>>) -> Seq<(Seq<u8>, V)> {
    s.filter(|e: (Seq<u8>, V)| !ids.contains(e.0))
}

proof fn lemma_filter_twice<A>(
    s: Seq<A>,
    p: spec_fn(A) -> bool,
    q: spec_fn(A) -> bool,
    pq: spec_fn(A) -> bool,
)
    requires
        forall|a: A| #[trigger] pq(a) == (p(a) && q(a)),
    ensures
        s.filter(p).filter(q) == s.filter(pq),
    decreases s.len(),
{
    reveal(Seq::filter);
    if s.len() > 0 {
        lemma_filter_twice(s.drop_last(), p, q, pq);
        let f = s.drop_last().filter(p);
        assert(pq(s.last()) == (p(s.last()) && q(s.last())));
        if p(s.last()) {
            assert(f.push(s.last()).drop_last() =~= f);
        }
    }
}

impl MessageCache {
    /// The empty cache.
    pub fn new(history_length: usize, history_gossip: usize) -> (r: Self)
        ensures
            r@.wf(),
            r@ == (CacheView {
                windows: seq![Seq::<Seq<u8>>::empty()],
                messages: Seq::empty(),
                history_length: history_length as nat,
                history_gossip: history_gossip as nat,
            }),
    {
        let mut windows: Vec<Vec<Vec<u8>>> = Vec::new();
        let w: Vec<Vec<u8>> = Vec::new();
        assert(views(w@) =~= Seq::<Seq<u8>>::empty());
        windows.push(w);
        let r = MessageCache { windows, messages: KeyMap::new(), history_length, history_gossip };
        assert(r@.windows =~= seq![Seq::<Seq<u8>>::empty()]);
        r
    }

    /// Adds a message to the current window.
    pub fn put(&mut self, msg_id: Vec<u8>, bitmask: Vec<u8>, data: Vec<u8>, from: u64)
        requires
            old(self)@.wf(),
        ensures
            final(self)@ == old(self)@.put(
                msg_id@,
                CachedView { bitmask: bitmask@, data: data@, from },
            ),
            final(self)@.wf(),
    {
        let key = copy_bytes(msg_id.as_slice());
        self.messages.insert(key, CachedMessage { bitmask, data, from });
        let last: usize = self.windows.len() - 1;
        let w = &mut self.windows[last];
        w.push(msg_id);
        assert(views(self.windows@[last as int]@) =~= old(self)@.windows[last as int].push(msg_id@));
        assert(self@.windows =~= old(self)@.windows.update(
            last as int,
            old(self)@.windows[last as int].push(msg_id@),
        ));
    }

    /// A cached message.
    pub fn get(&self, msg_id: &Vec<u8>) -> (r: Option<(&[u8], &[u8])>)
        ensures
            match r {
                Some(m) => value_of(self@.messages, msg_id@) matches Some(c) && m.0@ == c.bitmask
                    && m.1@ == c.data,
                None => value_of(self@.messages, msg_id@) is None,
            },
    {
        match self.messages.get(msg_id) {
            Some(m) => Some((m.bitmask.as_slice(), m.data.as_slice())),
            None => None,
        }
    }

    fn on_bitmask(&self, bitmask: &[u8], id: &Vec<u8>) -> (r: bool)
        ensures
            r == self@.is_on(bitmask@, id@),
    {
        match self.messages.get(id) {
            Some(m) => bytes_eq(m.bitmask.as_slice(), bitmask),
            None => false,
        }
    }

    /// The identifiers to gossip about for a bitmask.
    pub fn get_gossip_ids(&self, bitmask: &[u8]) -> (r: Vec<Vec<u8>>)
        ensures
            views(r@) == self@.gossip_ids(bitmask@),
    {
        let start: usize = if self.windows.len() <= self.history_gossip {
            0
        } else {
            self.windows.len() - self.history_gossip
        };
        let ghost ws = self@.windows.skip(start as int);
        let ghost p = |id: Seq<u8>| self@.is_on(bitmask@, id);
        let mut out: Vec<Vec<u8>> = Vec::new();
        let mut i: usize = start;
        proof {
            reveal(Seq::filter);
            assert(ws.take(0).flatten() =~= Seq::<Seq<u8>>::empty());
            assert(views(out@) =~= ws.take(0).flatten().filter(p));
        }
        while i < self.windows.len()
            invariant
                start <= i <= self.windows@.len(),
                ws == self@.windows.skip(start as int),
                p == (|id: Seq<u8>| self@.is_on(bitmask@, id)),
                views(out@) == ws.take(i - start).flatten().filter(p),
            decreases self.windows@.len() - i,
        {
            let w = &self.windows[i];
            let ghost done = ws.take(i - start).flatten();
            let ghost wv = views(w@);
            let mut j: usize = 0;
            proof {
                assert(wv.take(0) =~= Seq::<Seq<u8>>::empty());
                assert(done + wv.take(0) =~= done);
            }
            while j < w.len()
                invariant
                    j <= w@.len(),
                    wv == views(w@),
                    p == (|id: Seq<u8>| self@.is_on(bitmask@, id)),
                    views(out@) == (done + wv.take(j as int)).filter(p),
                decreases w@.len() - j,
            {
                let ghost before = views(out@);
                proof {
                    let t = done + wv.take(j + 1);
                    assert(t.drop_last() =~= done + wv.take(j as int));
                    assert(t.last() == wv[j as int]);
                    reveal(Seq::filter);
                }
                if self.on_bitmask(bitmask, &w[j]) {
                    out.push(copy_bytes(w[j].as_slice()));
                    assert(views(out@) =~= before.push(wv[j as int]));
                }
                j += 1;
            }
            proof {
                assert(wv.take(j as int) =~= wv);
                let t = ws.take(i - start + 1);
                assert(t =~= ws.take(i - start).push(wv));
                ws.take(i - start).lemma_flatten_push(wv);
            }
            i += 1;
        }
        assert(ws.take(i - start) =~= ws);
        out
    }

    /// Opens a new window, and drops the oldest where there are too many.
    pub fn shift(&mut self)
        requires
            old(self)@.wf(),
        ensures
            final(self)@ == old(self)@.shifted(),
            final(self)@.wf(),
    {
        let w: Vec<Vec<u8>> = Vec::new();
        assert(views(w@) =~= Seq::<Seq<u8>>::empty());
        self.windows.push(w);
        let ghost ws = old(self)@.windows.push(Seq::empty());
        assert(self@.windows =~= ws);
        if self.windows.len() > self.history_length {
            let gone = self.windows.remove(0);
            assert(self@.windows =~= ws.drop_first());
            assert(views(gone@) == ws[0]);
            let ghost ids = views(gone@);
            let ghost s = self.messages@;
            let mut i: usize = 0;
            proof {
                let none = |e: (Seq<u8>, CachedView)| !ids.take(0).contains(e.0);
                reveal(Seq::filter);
                lemma_filter_all(s, none);
            }
            while i < gone.len()
                invariant
                    i <= gone@.len(),
                    ids == views(gone@),
                    self.messages@ == without_ids(s, ids.take(i as int)),
                    self.windows@ == old(self).windows@.push(w).remove(0),
                    self.history_length == old(self).history_length,
                    self.history_gossip == old(self).history_gossip,
                decreases gone@.len() - i,
            {
                proof {
                    let p = |e: (Seq<u8>, CachedView)| !ids.take(i as int).contains(e.0);
                    let q = |e: (Seq<u8>, CachedView)| e.0 != ids[i as int];
                    let pq = |e: (Seq<u8>, CachedView)| !ids.take(i + 1).contains(e.0);
                    assert forall|e: (Seq<u8>, CachedView)| #[trigger] pq(e) == (p(e) && q(e)) by {
                        lemma_push_contains(ids.take(i as int), ids[i as int], e.0);
                        assert(ids.take(i + 1) =~= ids.take(i as int).push(ids[i as int]));
                    }
                    lemma_filter_twice(s, p, q, pq);
                }
                self.messages.remove(&gone[i]);
                i += 1;
            }
            assert(ids.take(i as int) =~= ids);
        }
    }
}

proof fn lemma_push_contains<A>(s: Seq<A>, a: A, x: A)
    ensures
        s.push(a).contains(x) == (s.contains(x) || x == a),
{
    if s.contains(x) {
        let k = choose|k: int| 0 <= k < s.len() && s[k] == x;
        assert(s.push(a)[k] == x);
    }
    if x == a {
        assert(s.push(a)[s.len() as int] == x);
    }
    if s.push(a).contains(x) {
        let k = choose|k: int| 0 <= k < s.push(a).len() && s.push(a)[k] == x;
        if k < s.len() {
            assert(s[k] == x);
        }
    }
}

proof fn lemma_filter_all<A>(s: Seq<A>, p: spec_fn(A) -> bool)
    requires
        forall|a: A| #[trigger] p(a),
    ensures
        s.filter(p) == s,
    decreases s.len(),
{
    reveal(Seq::filter);
    if s.len() > 0 {
        lemma_filter_all(s.drop_last(), p);
        assert(p(s.last()));
        assert(s =~= s.drop_last().push(s.last()));
    }
}

/// A message that was put into the cache can be taken from it, and putting it
/// leaves every other message where it was.
pub proof fn law_put_then_get(c: CacheView, id: Seq<u8>, m: CachedView, other: Seq<u8>)
    ensures
        value_of(c.put(id, m).messages, id) == Some(m),
        other != id ==> value_of(c.put(id, m).messages, other) == value_of(c.messages, other),
{
    lemma_with_value(c.messages, id, m, other);
    lemma_with_value(c.messages, id, m, id);
}

/// The cache never holds more windows than its history is long, once it has
/// none too many.
pub proof fn law_windows_bounded(c: CacheView)
    requires
        c.windows.len() <= c.history_length,
    ensures
        c.shifted().windows.len() <= c.history_length,
{
}

/// What is done to a cache: a message is put into it, or it gets a new window.
pub enum CacheStep {
    Put(Seq<u8>, CachedView),
    Shift,
}

/// The cache after the steps, in order.
pub open spec fn after_steps(c: CacheView, steps: Seq<CacheStep>) -> CacheView
    decreases steps.len(),
{
    if steps.len() == 0 {
        c
    } else {
        let b = after_steps(c, steps.drop_last());
        match steps.last() {
            CacheStep::Put(id, m) => b.put(id, m),
            CacheStep::Shift => b.shifted(),
        }
    }
}

/// How many of the steps bring a new window.
pub open spec fn shift_count(steps: Seq<CacheStep>) -> nat
    decreases steps.len(),
{
    if steps.len() == 0 {
        0
    } else {
        shift_count(steps.drop_last()) + if steps.last() is Shift {
            1nat
        } else {
            0nat
        }
    }
}

/// Is the identifier put by none of the steps?
pub open spec fn puts_none(steps: Seq<CacheStep>, id: Seq<u8>) -> bool {
    forall|i: int| 0 <= i < steps.len() ==> !((#[trigger] steps[i]) matches CacheStep::Put(k, _) && k
        == id)
}

/// Is the identifier in no window but the one at the place?
pub open spec fn only_in(c: CacheView, id: Seq<u8>, place: int) -> bool {
    forall|j: int| 0 <= j < c.windows.len() && j != place ==> !(#[trigger] c.windows[j]).contains(id)
}

/// Where a message stands that was put into the cache as many shifts ago: in the window
/// that was current then, or nowhere if that window is gone.
spec fn stands(c: CacheView, id: Seq<u8>, m: CachedView, n: nat) -> bool {
    let len = c.windows.len() as int;
    if n < c.history_length {
        &&& n < len
        &&& c.windows[len - 1 - n].contains(id)
        &&& only_in(c, id, len - 1 - n)
        &&& value_of(c.messages, id) == Some(m)
    } else {
        &&& only_in(c, id, len)
        &&& value_of(c.messages, id) is None
    }
}

proof fn lemma_first_put(c: CacheView, id: Seq<u8>, m: CachedView)
    requires
        1 <= c.windows.len() <= c.history_length,
        only_in(c, id, c.windows.len() as int),
    ensures
        stands(c.put(id, m), id, m, 0),
{
    let put = c.put(id, m);
    let last = c.windows.len() - 1;
    assert(put.windows[last] == c.windows[last].push(id));
    assert(c.windows[last].push(id)[c.windows[last].len() as int] == id);
    lemma_with_value(c.messages, id, m, id);
    assert forall|j: int| 0 <= j < put.windows.len() && j != last implies !(
    #[trigger] put.windows[j]).contains(id) by {
        assert(put.windows[j] == c.windows[j]);
    }
}

proof fn lemma_other_put(b: CacheView, id: Seq<u8>, m: CachedView, n: nat, k: Seq<u8>, o: CachedView)
    requires
        b.windows.len() >= 1,
        stands(b, id, m, n),
        k != id,
    ensures
        stands(b.put(k, o), id, m, n),
{
    let d = b.put(k, o);
    let last = b.windows.len() - 1;
    lemma_with_value(b.messages, k, o, id);
    assert forall|j: int| 0 <= j < b.windows.len() implies (#[trigger] d.windows[j]).contains(id)
        == b.windows[j].contains(id) by {
        if j == last {
            let w = b.windows[last];
            assert(d.windows[j] == w.push(k));
            if w.contains(id) {
                let i = choose|i: int| 0 <= i < w.len() && w[i] == id;
                assert(w.push(k)[i] == id);
            }
            if w.push(k).contains(id) {
                let i = choose|i: int| 0 <= i < w.push(k).len() && w.push(k)[i] == id;
                assert(w[i] == id);
            }
        } else {
            assert(d.windows[j] == b.windows[j]);
        }
    }
}

proof fn lemma_next_shift(b: CacheView, id: Seq<u8>, m: CachedView, n: nat)
    requires
        1 <= b.windows.len() <= b.history_length,
        stands(b, id, m, n),
    ensures
        stands(b.shifted(), id, m, n + 1),
{
    let d = b.shifted();
    let ws = b.windows.push(Seq::empty());
    let place = if n < b.history_length {
        b.windows.len() - 1 - n
    } else {
        ws.len() as int
    };
    assert forall|j: int| 0 <= j < ws.len() && j != place implies !(#[trigger] ws[j]).contains(
        id,
    ) by {
        if j < b.windows.len() {
            assert(ws[j] == b.windows[j]);
        }
    }
    if n < b.history_length {
        assert(ws[place] == b.windows[place]);
    }
    if ws.len() > b.history_length {
        lemma_value_filter(b.messages, |e: (Seq<u8>, CachedView)| !ws[0].contains(e.0), id);
        assert forall|j: int| 0 <= j < d.windows.len() && j != place - 1 implies !(
        #[trigger] d.windows[j]).contains(id) by {
            assert(d.windows[j] == ws[j + 1]);
        }
        if n < b.history_length && place > 0 {
            assert(d.windows[place - 1] == ws[place]);
        }
    }
}

proof fn lemma_steps(c: CacheView, id: Seq<u8>, m: CachedView, steps: Seq<CacheStep>)
    requires
        1 <= c.windows.len() <= c.history_length,
        only_in(c, id, c.windows.len() as int),
        puts_none(steps, id),
    ensures
        ({
            let d = after_steps(c.put(id, m), steps);
            &&& d.history_length == c.history_length
            &&& 1 <= d.windows.len() <= d.history_length
            &&& stands(d, id, m, shift_count(steps))
        }),
    decreases steps.len(),
{
    if steps.len() == 0 {
        lemma_first_put(c, id, m);
    } else {
        let rest = steps.drop_last();
        assert forall|i: int| 0 <= i < rest.len() implies !((#[trigger] rest[i]) matches CacheStep::Put(
            k,
            _,
        ) && k == id) by {
            assert(rest[i] == steps[i]);
        }
        lemma_steps(c, id, m, rest);
        let b = after_steps(c.put(id, m), rest);
        let n = shift_count(rest);
        assert(steps.last() == steps[steps.len() - 1]);
        match steps.last() {
            CacheStep::Put(k, o) => {
                assert(k != id);
                lemma_other_put(b, id, m, n, k, o);
            },
            CacheStep::Shift => {
                lemma_next_shift(b, id, m, n);
            },
        }
    }
}

/// A message that is put into the cache, and was not in it, stays for as many new windows
/// as the history is long, less one, and with the next one it goes, whatever other
/// messages are put into the cache meanwhile.
pub proof fn law_message_lasts_its_history(
    c: CacheView,
    id: Seq<u8>,
    m: CachedView,
    steps: Seq<CacheStep>,
)
    requires
        1 <= c.windows.len() <= c.history_length,
        only_in(c, id, c.windows.len() as int),
        puts_none(steps, id),
    ensures
        value_of(after_steps(c.put(id, m), steps).messages, id) == if shift_count(steps)
            < c.history_length {
            Some(m)
        } else {
            None
        },
{
    lemma_steps(c, id, m, steps);
}

} // verus!
