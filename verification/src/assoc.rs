//! Small ordered sets and maps with byte-string or integer keys.
//!
//! Both keep the order in which their entries came, so walking one is
//! deterministic.

use vstd::prelude::*;

use crate::bytes::{bytes_eq, copy_bytes};

verus! {

/// A key: it can be compared and copied, both by its view.
pub trait Key: View + Sized {
    /// Are the two keys the same?
    fn same(&self, other: &Self) -> (r: bool)
        ensures
            r == (self@ == other@),
    ;

    /// The same key once more.
    fn dup(&self) -> (r: Self)
        ensures
            r@ == self@,
    ;
}

impl Key for u64 {
    fn same(&self, other: &Self) -> (r: bool) {
        *self == *other
    }

    fn dup(&self) -> (r: Self) {
        *self
    }
}

impl Key for Vec<u8> {
    fn same(&self, other: &Self) -> (r: bool) {
        bytes_eq(self.as_slice(), other.as_slice())
    }

    fn dup(&self) -> (r: Self) {
        copy_bytes(self.as_slice())
    }
}

/// A value that has an empty form.
pub trait Blank: View + Sized {
    /// The view of the empty form.
    spec fn blank_view() -> Self::V;

    /// The empty form.
    fn blank() -> (r: Self)
        ensures
            r@ == Self::blank_view(),
    ;
}

/// `s` with `k` behind it, unless it holds `k` already.
pub open spec fn with_item<K>(s: Seq<K>, k: K) -> Seq<K> {
    if s.contains(k) {
        s
    } else {
        s.push(k)
    }
}

/// `s` with all of `ks`, in order.
pub open spec fn with_items<K>(s: Seq<K>, ks: Seq<K>) -> Seq<K>
    decreases ks.len(),
{
    if ks.len() == 0 {
        s
    } else {
        with_item(with_items(s, ks.drop_last()), ks.last())
    }
}

/// `s` without `k`.
pub open spec fn without_item<K>(s: Seq<K>, k: K) -> Seq<K> {
    s.filter(|x: K| x != k)
}

/// The place of the first entry with the key, or the length where there is none.
pub open spec fn key_index<K, V>(s: Seq<(K, V)>, k: K) -> int
    decreases s.len(),
{
    if s.len() == 0 {
        0
    } else if s[0].0 == k {
        0
    } else {
        1 + key_index(s.drop_first(), k)
    }
}

/// Is there an entry with the key?
pub open spec fn has_key<K, V>(s: Seq<(K, V)>, k: K) -> bool {
    key_index(s, k) < s.len()
}

/// The value of a key.
pub open spec fn value_of<K, V>(s: Seq<(K, V)>, k: K) -> Option<V> {
    if has_key(s, k) {
        Some(s[key_index(s, k)].1)
    } else {
        None
    }
}

/// The value of a key, or `d` where there is none.
pub open spec fn value_or<K, V>(s: Seq<(K, V)>, k: K, d: V) -> V {
    if has_key(s, k) {
        s[key_index(s, k)].1
    } else {
        d
    }
}

/// `s` with the key set to a value: in its place, or behind all others.
pub open spec fn with_value<K, V>(s: Seq<(K, V)>, k: K, v: V) -> Seq<(K, V)> {
    if has_key(s, k) {
        s.update(key_index(s, k), (k, v))
    } else {
        s.push((k, v))
    }
}

/// `s` without the key.
pub open spec fn without_key<K, V>(s: Seq<(K, V)>, k: K) -> Seq<(K, V)> {
    s.filter(|e: (K, V)| e.0 != k)
}

/// Where the first entry of a key stands.
pub proof fn lemma_key_index<K, V>(s: Seq<(K, V)>, k: K)
    ensures
        0 <= key_index(s, k) <= s.len(),
        key_index(s, k) < s.len() ==> s[key_index(s, k)].0 == k,
        forall|j: int| 0 <= j < key_index(s, k) ==> (#[trigger] s[j]).0 != k,
    decreases s.len(),
{
    if s.len() > 0 && s[0].0 != k {
        let t = s.drop_first();
        lemma_key_index(t, k);
        assert forall|j: int| 0 <= j < key_index(s, k) implies (#[trigger] s[j]).0 != k by {
            if j > 0 {
                assert(t[j - 1] == s[j]);
            }
        }
    }
}

/// The first entry of a key is the one before which there is none.
pub proof fn lemma_key_index_is<K, V>(s: Seq<(K, V)>, k: K, i: int)
    requires
        0 <= i <= s.len(),
        forall|j: int| 0 <= j < i ==> (#[trigger] s[j]).0 != k,
        i < s.len() ==> s[i].0 == k,
    ensures
        key_index(s, k) == i,
{
    lemma_key_index(s, k);
    if key_index(s, k) < i {
        assert(s[key_index(s, k)].0 != k);
    }
}

/// Setting one key leaves every other key's value, and gives the key its value.
pub proof fn lemma_with_value<K, V>(s: Seq<(K, V)>, k: K, v: V, other: K)
    ensures
        value_of(with_value(s, k, v), other) == if other == k {
            Some(v)
        } else {
            value_of(s, other)
        },
{
    let t = with_value(s, k, v);
    lemma_key_index(s, k);
    lemma_key_index(s, other);
    if other == k {
        lemma_key_index_is(t, k, key_index(s, k));
    } else {
        let i = key_index(s, other);
        if i < s.len() {
            lemma_key_index_is(t, other, i);
        } else {
            lemma_key_index_is(t, other, t.len() as int);
        }
    }
}

/// A set after one more item holds what it held, and the item.
pub proof fn lemma_with_item<K>(s: Seq<K>, a: K, k: K)
    ensures
        with_item(s, a).contains(k) <==> s.contains(k) || a == k,
        s.no_duplicates() ==> with_item(s, a).no_duplicates(),
{
    let t = s.push(a);
    if !s.contains(a) {
        if s.contains(k) {
            let i = choose|i: int| 0 <= i < s.len() && s[i] == k;
            assert(t[i] == k);
        }
        if t.contains(k) && a != k {
            let i = choose|i: int| 0 <= i < t.len() && t[i] == k;
            assert(s[i] == k);
        }
        assert(t[s.len() as int] == a);
    }
}

/// A set after more items holds what it held, and the items.
pub proof fn lemma_with_items<K>(s: Seq<K>, ks: Seq<K>, k: K)
    ensures
        with_items(s, ks).contains(k) <==> s.contains(k) || ks.contains(k),
        s.no_duplicates() ==> with_items(s, ks).no_duplicates(),
    decreases ks.len(),
{
    if ks.len() > 0 {
        let rest = ks.drop_last();
        lemma_with_items(s, rest, k);
        lemma_with_item(with_items(s, rest), ks.last(), k);
        if ks.contains(k) && k != ks.last() {
            let i = choose|i: int| 0 <= i < ks.len() && ks[i] == k;
            assert(rest[i] == k);
        }
        if rest.contains(k) {
            let i = choose|i: int| 0 <= i < rest.len() && rest[i] == k;
            assert(ks[i] == k);
        }
    }
}

/// An item that was taken out is not there any more, and every other item stays.
pub proof fn lemma_without_item<K>(s: Seq<K>, k: K, other: K)
    ensures
        without_item(s, k).contains(other) <==> s.contains(other) && other != k,
{
    let p = |x: K| x != k;
    let t = s.filter(p);
    if t.contains(other) {
        let i = choose|i: int| 0 <= i < t.len() && t[i] == other;
        s.lemma_filter_pred(p, i);
        s.lemma_filter_contains_rev(p, other);
    }
    if s.contains(other) && other != k {
        let i = choose|i: int| 0 <= i < s.len() && s[i] == other;
        s.lemma_filter_contains(p, i);
    }
}

/// The views of a list of keys.
pub open spec fn key_views<K: Key>(s: Seq<K>) -> Seq<K::V> {
    Seq::new(s.len(), |i: int| s[i]@)
}

/// A key that was taken out is not there any more.
pub proof fn lemma_without_key<K, V>(s: Seq<(K, V)>, k: K)
    ensures
        !has_key(without_key(s, k), k),
{
    let p = |e: (K, V)| e.0 != k;
    let left = s.filter(p);
    lemma_key_index(left, k);
    if has_key(left, k) {
        s.lemma_filter_pred(p, key_index(left, k));
    }
}

/// A value behind all others counts where its key has none.
pub proof fn lemma_value_push<K, V>(s: Seq<(K, V)>, e: (K, V), k: K)
    ensures
        value_of(s.push(e), k) == if has_key(s, k) {
            value_of(s, k)
        } else if e.0 == k {
            Some(e.1)
        } else {
            None
        },
{
    let t = s.push(e);
    lemma_key_index(s, k);
    if has_key(s, k) {
        lemma_key_index_is(t, k, key_index(s, k));
    } else if e.0 == k {
        lemma_key_index_is(t, k, s.len() as int);
    } else {
        lemma_key_index_is(t, k, t.len() as int);
    }
}

/// Filtering entries leaves the value of a key all of whose entries stay, and takes that
/// of a key none of whose entries does.
pub proof fn lemma_value_filter<K, V>(s: Seq<(K, V)>, p: spec_fn((K, V)) -> bool, k: K)
    ensures
        (forall|e: (K, V)| e.0 == k ==> #[trigger] p(e)) ==> value_of(s.filter(p), k) == value_of(
            s,
            k,
        ),
        (forall|e: (K, V)| e.0 == k ==> !#[trigger] p(e)) ==> value_of(s.filter(p), k) is None,
    decreases s.len(),
{
    reveal(Seq::filter);
    if s.len() > 0 {
        let r = s.drop_last();
        let e = s.last();
        lemma_value_filter(r, p, k);
        assert(s =~= r.push(e));
        lemma_value_push(r, e, k);
        lemma_value_push(r.filter(p), e, k);
        assert(p(e) || !p(e));
    }
}

/// Dropping a key leaves the value of every other.
pub proof fn lemma_value_dropped<K, V>(s: Seq<(K, V)>, k: K, other: K)
    ensures
        value_of(without_key(s, k), other) == if other == k {
            None
        } else {
            value_of(s, other)
        },
    decreases s.len(),
{
    reveal(Seq::filter);
    if s.len() > 0 {
        let r = s.drop_last();
        let e = s.last();
        lemma_value_dropped(r, k, other);
        assert(s =~= r.push(e));
        lemma_value_push(r, e, other);
        lemma_value_push(without_key(r, k), e, other);
    }
}

/// Setting a key to the value that it has changes nothing.
pub proof fn lemma_same_value<K, V>(s: Seq<(K, V)>, k: K)
    requires
        has_key(s, k),
    ensures
        with_value(s, k, s[key_index(s, k)].1) == s,
{
    lemma_key_index(s, k);
    assert(with_value(s, k, s[key_index(s, k)].1) =~= s);
}

/// An ordered set.
pub struct KeySet<K> {
    pub items: Vec<K>,
}

impl<K: Key> View for KeySet<K> {
    type V = Seq<K::V>;

    open spec fn view(&self) -> Seq<K::V> {
        key_views(self.items@)
    }
}

impl<K: Key> Blank for KeySet<K> {
    open spec fn blank_view() -> Seq<K::V> {
        Seq::empty()
    }

    fn blank() -> (r: Self) {
        KeySet::new()
    }
}

impl<K: Key> KeySet<K> {
    /// The empty set.
    pub fn new() -> (r: Self)
        ensures
            r@ == Seq::<K::V>::empty(),
    {
        let r = KeySet { items: Vec::new() };
        assert(r@ =~= Seq::<K::V>::empty());
        r
    }

    /// How many items there are.
    pub fn len(&self) -> (r: usize)
        ensures
            r == self@.len(),
    {
        self.items.len()
    }

    /// Is the item there?
    pub fn contains(&self, k: &K) -> (r: bool)
        ensures
            r == self@.contains(k@),
    {
        let mut i: usize = 0;
        while i < self.items.len()
            invariant
                i <= self.items@.len(),
                forall|j: int| 0 <= j < i ==> self@[j] != k@,
            decreases self.items@.len() - i,
        {
            if self.items[i].same(k) {
                assert(self@[i as int] == k@);
                return true;
            }
            i += 1;
        }
        false
    }

    /// Adds an item; tells whether it was new.
    pub fn insert(&mut self, k: K) -> (r: bool)
        ensures
            final(self)@ == with_item(old(self)@, k@),
            r == !old(self)@.contains(k@),
    {
        if self.contains(&k) {
            return false;
        }
        self.items.push(k);
        assert(self@ =~= old(self)@.push(k@));
        true
    }

    /// Takes an item out; tells whether it was there.
    pub fn remove(&mut self, k: &K) -> (r: bool)
        ensures
            final(self)@ == without_item(old(self)@, k@),
            r == old(self)@.contains(k@),
    {
        let found = self.contains(k);
        let mut kept: Vec<K> = Vec::new();
        let ghost s = self@;
        let ghost p = |x: K::V| x != k@;
        let mut i: usize = 0;
        reveal(Seq::filter);
        assert(key_views(kept@) =~= s.take(0).filter(p));
        while i < self.items.len()
            invariant
                i <= self.items@.len(),
                s == self@,
                *self == *old(self),
                p == (|x: K::V| x != k@),
                key_views(kept@) == s.take(i as int).filter(p),
            decreases self.items@.len() - i,
        {
            let ghost before = key_views(kept@);
            proof {
                assert(s.take(i + 1).drop_last() =~= s.take(i as int));
                assert(s.take(i + 1).last() == s[i as int]);
                reveal(Seq::filter);
            }
            if !self.items[i].same(k) {
                kept.push(self.items[i].dup());
                assert(key_views(kept@) =~= before.push(s[i as int]));
            }
            i += 1;
        }
        assert(s.take(i as int) =~= s);
        self.items = kept;
        found
    }

    /// Adds all the items of a list.
    pub fn insert_all(&mut self, ks: &Vec<K>)
        ensures
            final(self)@ == with_items(old(self)@, key_views(ks@)),
    {
        let ghost kv = key_views(ks@);
        let mut i: usize = 0;
        assert(kv.take(0) =~= Seq::<K::V>::empty());
        while i < ks.len()
            invariant
                i <= ks@.len(),
                kv == key_views(ks@),
                self@ == with_items(old(self)@, kv.take(i as int)),
            decreases ks@.len() - i,
        {
            proof {
                assert(kv.take(i + 1).drop_last() =~= kv.take(i as int));
                assert(kv.take(i + 1).last() == kv[i as int]);
            }
            self.insert(ks[i].dup());
            i += 1;
        }
        assert(kv.take(i as int) =~= kv);
    }

    /// Takes every item out.
    pub fn clear(&mut self)
        ensures
            final(self)@ == Seq::<K::V>::empty(),
    {
        self.items = Vec::new();
        assert(self@ =~= Seq::<K::V>::empty());
    }

    /// The same set once more.
    pub fn dup(&self) -> (r: Self)
        ensures
            r@ == self@,
    {
        let mut items: Vec<K> = Vec::new();
        let mut i: usize = 0;
        while i < self.items.len()
            invariant
                i <= self.items@.len(),
                items@.len() == i,
                forall|j: int| 0 <= j < i ==> items@[j]@ == self@[j],
            decreases self.items@.len() - i,
        {
            items.push(self.items[i].dup());
            i += 1;
        }
        let r = KeySet { items };
        assert(r@ =~= self@);
        r
    }
}

/// An ordered map.
pub struct KeyMap<K, V> {
    pub entries: Vec<(K, V)>,
}

impl<K: Key, V: View> View for KeyMap<K, V> {
    type V = Seq<(K::V, V::V)>;

    open spec fn view(&self) -> Seq<(K::V, V::V)> {
        Seq::new(self.entries@.len(), |i: int| (self.entries@[i].0@, self.entries@[i].1@))
    }
}

impl<K: Key, V: View> Blank for KeyMap<K, V> {
    open spec fn blank_view() -> Seq<(K::V, V::V)> {
        Seq::empty()
    }

    fn blank() -> (r: Self) {
        KeyMap::new()
    }
}

impl<K: Key, V: View> KeyMap<K, V> {
    /// The empty map.
    pub fn new() -> (r: Self)
        ensures
            r@ == Seq::<(K::V, V::V)>::empty(),
    {
        let r = KeyMap { entries: Vec::new() };
        assert(r@ =~= Seq::<(K::V, V::V)>::empty());
        r
    }

    /// How many entries there are.
    pub fn len(&self) -> (r: usize)
        ensures
            r == self@.len(),
    {
        self.entries.len()
    }

    /// Where the key's entry stands, or the length where there is none.
    pub fn find(&self, k: &K) -> (r: usize)
        ensures
            r == key_index(self@, k@),
            r <= self@.len(),
    {
        let mut i: usize = 0;
        while i < self.entries.len()
            invariant
                i <= self.entries@.len(),
                forall|j: int| 0 <= j < i ==> (#[trigger] self@[j]).0 != k@,
            decreases self.entries@.len() - i,
        {
            if self.entries[i].0.same(k) {
                proof {
                    lemma_key_index_is(self@, k@, i as int);
                }
                return i;
            }
            i += 1;
        }
        proof {
            lemma_key_index_is(self@, k@, i as int);
        }
        i
    }

    /// Is there an entry with the key?
    pub fn contains_key(&self, k: &K) -> (r: bool)
        ensures
            r == has_key(self@, k@),
    {
        self.find(k) < self.entries.len()
    }

    /// The value of a key.
    pub fn get(&self, k: &K) -> (r: Option<&V>)
        ensures
            match r {
                Some(v) => value_of(self@, k@) == Some(v@),
                None => value_of(self@, k@) is None,
            },
    {
        let i: usize = self.find(k);
        if i < self.entries.len() {
            Some(&self.entries[i].1)
        } else {
            None
        }
    }

    /// Sets the value of a key.
    pub fn insert(&mut self, k: K, v: V)
        ensures
            final(self)@ == with_value(old(self)@, k@, v@),
    {
        let i: usize = self.find(&k);
        if i < self.entries.len() {
            self.entries[i] = (k, v);
        } else {
            self.entries.push((k, v));
        }
        assert(self@ =~= with_value(old(self)@, k@, v@));
    }

    /// The value of a key, to be changed in place.
    pub fn get_mut(&mut self, k: &K) -> (r: Option<&mut V>)
        ensures
            match r {
                Some(v) => {
                    &&& value_of(old(self)@, k@) == Some(v@)
                    &&& final(self)@ == with_value(old(self)@, k@, final(v)@)
                },
                None => {
                    &&& value_of(old(self)@, k@) is None
                    &&& *final(self) == *old(self)
                },
            },
    {
        let i: usize = self.find(k);
        proof {
            lemma_key_index(self@, k@);
        }
        if i < self.entries.len() {
            let r = &mut self.entries[i].1;
            Some(r)
        } else {
            None
        }
    }

    /// Takes the key out; tells whether it was there.
    pub fn remove(&mut self, k: &K) -> (r: bool)
        ensures
            final(self)@ == without_key(old(self)@, k@),
            r == has_key(old(self)@, k@),
    {
        let found = self.contains_key(k);
        let ghost s = self@;
        let ghost p = |e: (K::V, V::V)| e.0 != k@;
        let ghost mut n: int = 0;
        let mut i: usize = 0;
        reveal(Seq::filter);
        assert(self@ =~= s.take(0).filter(p) + s.skip(0));
        while i < self.entries.len()
            invariant
                0 <= n <= s.len(),
                i == s.take(n).filter(p).len(),
                p == (|e: (K::V, V::V)| e.0 != k@),
                self@ == s.take(n).filter(p) + s.skip(n),
                s == old(self)@,
            decreases s.len() - n,
        {
            proof {
                assert(self@[i as int] == s.skip(n)[0]);
                assert(s.take(n + 1).drop_last() =~= s.take(n));
                assert(s.take(n + 1).last() == s[n]);
                reveal(Seq::filter);
            }
            let ghost before = self@;
            if self.entries[i].0.same(k) {
                self.entries.remove(i);
                assert(self@ =~= before.remove(i as int));
                assert(self@ =~= s.take(n + 1).filter(p) + s.skip(n + 1));
            } else {
                i += 1;
                assert(self@ =~= s.take(n + 1).filter(p) + s.skip(n + 1));
            }
            proof {
                n = n + 1;
            }
        }
        assert(s.take(n) =~= s);
        assert(self@ =~= s.filter(p));
        found
    }
}

impl<K: Key, V: Blank> KeyMap<K, V> {
    /// The value of a key, to be changed in place; a key without one is given the
    /// empty value first.
    pub fn or_blank(&mut self, k: &K) -> (r: &mut V)
        ensures
            r@ == value_or(old(self)@, k@, V::blank_view()),
            final(self)@ == with_value(old(self)@, k@, final(r)@),
    {
        let i: usize = self.find(k);
        proof {
            lemma_key_index(self@, k@);
        }
        if i == self.entries.len() {
            self.entries.push((k.dup(), V::blank()));
        }
        let r = &mut self.entries[i].1;
        r
    }
}

} // verus!
