//! The hypergraph state that the execution engines read and write.
//!
//! The state is a log of changes. Reading a place gives what the latest change
//! of that place left there. Committing marks the log as durable and changes
//! nothing that a reader sees.

use vstd::prelude::*;

use crate::bytes::{bytes_eq, copy_bytes};

verus! {

/// The four sets that make up a hypergraph.
#[derive(Clone, Copy, Debug, PartialEq, Eq, Structural)]
pub enum Layer {
    VertexAdds,
    VertexRemoves,
    HyperedgeAdds,
    HyperedgeRemoves,
}

/// One change: a value written at a place, or the deletion of the place.
pub struct Change<T> {
    pub domain: Vec<u8>,
    pub address: Vec<u8>,
    pub layer: Layer,
    pub frame_number: u64,
    pub value: Option<T>,
}

/// A place of the state.
pub struct Place {
    pub domain: Seq<u8>,
    pub address: Seq<u8>,
    pub layer: Layer,
}

/// The mathematical value of a [`Change`].
#[verifier::ext_equal]
pub struct ChangeView<V> {
    pub place: Place,
    pub frame_number: u64,
    pub value: Option<V>,
}

impl<T: View> View for Change<T> {
    type V = ChangeView<T::V>;

    open spec fn view(&self) -> ChangeView<T::V> {
        ChangeView {
            place: Place { domain: self.domain@, address: self.address@, layer: self.layer },
            frame_number: self.frame_number,
            value: match self.value {
                Some(v) => Some(v@),
                None => None,
            },
        }
    }
}

/// What a reader of `place` finds after the changes of `log`.
pub open spec fn lookup<V>(log: Seq<ChangeView<V>>, place: Place) -> Option<V>
    decreases log.len(),
{
    if log.len() == 0 {
        None
    } else if log.last().place == place {
        log.last().value
    } else {
        lookup(log.drop_last(), place)
    }
}

/// The change that writes `value` at a place.
pub open spec fn written<V>(
    domain: Seq<u8>,
    address: Seq<u8>,
    layer: Layer,
    frame_number: u64,
    value: V,
) -> ChangeView<V> {
    ChangeView { place: Place { domain, address, layer }, frame_number, value: Some(value) }
}

/// The change that deletes a place.
pub open spec fn deleted<V>(
    domain: Seq<u8>,
    address: Seq<u8>,
    layer: Layer,
    frame_number: u64,
) -> ChangeView<V> {
    ChangeView { place: Place { domain, address, layer }, frame_number, value: None }
}

/// The state: its changes in order, and how many of them are committed.
pub struct HypergraphState<T> {
    pub changes: Vec<Change<T>>,
    pub committed: usize,
}

impl<T: View> View for HypergraphState<T> {
    type V = Seq<ChangeView<T::V>>;

    open spec fn view(&self) -> Seq<ChangeView<T::V>> {
        Seq::new(self.changes@.len(), |i: int| self.changes@[i]@)
    }
}

impl<T: View> HypergraphState<T> {
    /// The committed changes are a prefix of the log.
    pub open spec fn wf(&self) -> bool {
        self.committed <= self.changes@.len()
    }

    /// The state without changes.
    pub fn new() -> (r: Self)
        ensures
            r.wf(),
            r@ == Seq::<ChangeView<T::V>>::empty(),
            r.committed == 0,
    {
        let r = HypergraphState { changes: Vec::new(), committed: 0 };
        assert(r@ =~= Seq::<ChangeView<T::V>>::empty());
        r
    }

    /// What the place holds.
    pub fn get(&self, domain: &[u8], address: &[u8], layer: Layer) -> (r: Option<&T>)
        ensures
            match r {
                Some(v) => lookup(self@, Place { domain: domain@, address: address@, layer })
                    == Some(v@),
                None => lookup(self@, Place { domain: domain@, address: address@, layer }) is None,
            },
    {
        let ghost place = Place { domain: domain@, address: address@, layer };
        let mut i: usize = self.changes.len();
        assert(self@.take(i as int) =~= self@);
        while i > 0
            invariant
                i <= self.changes@.len(),
                place == (Place { domain: domain@, address: address@, layer }),
                lookup(self@, place) == lookup(self@.take(i as int), place),
            decreases i,
        {
            i -= 1;
            let c = &self.changes[i];
            proof {
                assert(self@.take(i + 1).drop_last() =~= self@.take(i as int));
                assert(self@.take(i + 1).last() == c@);
            }
            if c.layer == layer && bytes_eq(c.domain.as_slice(), domain) && bytes_eq(
                c.address.as_slice(),
                address,
            ) {
                return match &c.value {
                    Some(v) => Some(v),
                    None => None,
                };
            }
        }
        None
    }

    /// Writes a value at a place.
    pub fn set(&mut self, domain: &[u8], address: &[u8], layer: Layer, frame_number: u64, value: T)
        ensures
            final(self)@ == old(self)@.push(
                written(domain@, address@, layer, frame_number, value@),
            ),
            final(self).committed == old(self).committed,
            old(self).wf() ==> final(self).wf(),
    {
        let c = Change {
            domain: copy_bytes(domain),
            address: copy_bytes(address),
            layer,
            frame_number,
            value: Some(value),
        };
        self.changes.push(c);
        assert(self@ =~= old(self)@.push(
            written(domain@, address@, layer, frame_number, value@),
        ));
    }

    /// Deletes a place.
    pub fn delete(&mut self, domain: &[u8], address: &[u8], layer: Layer, frame_number: u64)
        ensures
            final(self)@ == old(self)@.push(deleted(domain@, address@, layer, frame_number)),
            final(self).committed == old(self).committed,
            old(self).wf() ==> final(self).wf(),
    {
        let c = Change {
            domain: copy_bytes(domain),
            address: copy_bytes(address),
            layer,
            frame_number,
            value: None,
        };
        self.changes.push(c);
        assert(self@ =~= old(self)@.push(deleted(domain@, address@, layer, frame_number)));
    }

    /// Marks every change as committed.
    pub fn commit(&mut self)
        ensures
            final(self)@ == old(self)@,
            final(self).committed == final(self)@.len(),
            final(self).wf(),
    {
        self.committed = self.changes.len();
        assert(self@ =~= old(self)@);
    }
}

/// How far a state is committed, where there is one.
pub open spec fn commit_mark<T>(s: Option<HypergraphState<T>>) -> Option<usize> {
    match s {
        Some(s) => Some(s.committed),
        None => None,
    }
}

/// A read gives back what the last write at its place wrote, and a write at one
/// place is not seen at another.
pub proof fn law_read_after_write<V>(log: Seq<ChangeView<V>>, c: ChangeView<V>, place: Place)
    ensures
        place == c.place ==> lookup(log.push(c), place) == c.value,
        place != c.place ==> lookup(log.push(c), place) == lookup(log, place),
{
    assert(log.push(c).drop_last() =~= log);
}

/// A place that one of the appended changes wrote, and that none of them
/// deleted, holds a value.
pub proof fn lemma_lookup_written<V>(
    log: Seq<ChangeView<V>>,
    more: Seq<ChangeView<V>>,
    place: Place,
    at: int,
)
    requires
        0 <= at < more.len(),
        more[at].place == place,
        forall|i: int| 0 <= i < more.len() ==> (#[trigger] more[i]).value is Some,
    ensures
        lookup(log + more, place) is Some,
    decreases more.len(),
{
    assert((log + more).last() == more.last());
    assert((log + more).drop_last() =~= log + more.drop_last());
    if more.last().place != place {
        lemma_lookup_written(log, more.drop_last(), place, at);
    }
}

/// A place that none of the appended changes is at holds what it held before.
pub proof fn law_other_places_stay<V>(
    log: Seq<ChangeView<V>>,
    more: Seq<ChangeView<V>>,
    place: Place,
)
    requires
        forall|i: int| 0 <= i < more.len() ==> (#[trigger] more[i]).place != place,
    ensures
        lookup(log + more, place) == lookup(log, place),
    decreases more.len(),
{
    if more.len() > 0 {
        let rest = more.drop_last();
        assert((log + more).last() == more[more.len() - 1]);
        assert((log + more).drop_last() =~= log + rest);
        assert forall|i: int| 0 <= i < rest.len() implies (#[trigger] rest[i]).place != place by {
            assert(rest[i] == more[i]);
        }
        law_other_places_stay(log, rest, place);
    } else {
        assert(log + more =~= log);
    }
}

/// Of several changes at one place the last one counts.
pub proof fn law_last_write_counts<V>(
    log: Seq<ChangeView<V>>,
    more: Seq<ChangeView<V>>,
    at: int,
)
    requires
        0 <= at < more.len(),
        forall|i: int| at < i < more.len() ==> (#[trigger] more[i]).place != more[at].place,
    ensures
        lookup(log + more, more[at].place) == more[at].value,
{
    let first = more.take(at + 1);
    let rest = more.skip(at + 1);
    assert(log + more =~= (log + first) + rest);
    assert forall|i: int| 0 <= i < rest.len() implies (#[trigger] rest[i]).place
        != more[at].place by {
        assert(rest[i] == more[at + 1 + i]);
    }
    law_other_places_stay(log + first, rest, more[at].place);
    assert((log + first).last() == more[at]);
}

} // verus!
