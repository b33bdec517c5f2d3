//! Which prover key belongs to which peer identity.
//!
//! Peers announce the binding of their identity key to their prover key. The
//! registry keeps, for each of both keys, the most recent announcement.

use vstd::prelude::*;

use crate::assoc::{lemma_with_value, value_of, with_value, KeyMap};
use crate::bytes::copy_bytes;

verus! {

/// An announced binding, as it was decoded.
#[derive(Clone, Debug, Default)]
pub struct CanonicalKeyRegistry {
    pub ed448_pubkey: Vec<u8>,
    pub bls_pubkey: Vec<u8>,
    pub identity_to_prover_sig: Vec<u8>,
    pub prover_to_identity_sig: Vec<u8>,
    pub keys_by_purpose: Vec<Vec<u8>>,
    pub last_updated_ms: u64,
}

/// A registered binding.
#[derive(Clone, Debug, Default)]
pub struct SignerEntry {
    pub ed448_pubkey: Vec<u8>,
    pub bls_pubkey: Vec<u8>,
    pub identity_to_prover_sig: Vec<u8>,
    pub prover_to_identity_sig: Vec<u8>,
    pub last_updated_ms: u64,
}

/// The mathematical value of a [`SignerEntry`].
pub struct EntryView {
    pub ed448_pubkey: Seq<u8>,
    pub bls_pubkey: Seq<u8>,
    pub identity_to_prover_sig: Seq<u8>,
    pub prover_to_identity_sig: Seq<u8>,
    pub last_updated_ms: u64,
}

impl View for SignerEntry {
    type V = EntryView;

    open spec fn view(&self) -> EntryView {
        EntryView {
            ed448_pubkey: self.ed448_pubkey@,
            bls_pubkey: self.bls_pubkey@,
            identity_to_prover_sig: self.identity_to_prover_sig@,
            prover_to_identity_sig: self.prover_to_identity_sig@,
            last_updated_ms: self.last_updated_ms,
        }
    }
}

impl SignerEntry {
    /// The same entry once more.
    pub fn dup(&self) -> (r: Self)
        ensures
            r@ == self@,
    {
        SignerEntry {
            ed448_pubkey: copy_bytes(self.ed448_pubkey.as_slice()),
            bls_pubkey: copy_bytes(self.bls_pubkey.as_slice()),
            identity_to_prover_sig: copy_bytes(self.identity_to_prover_sig.as_slice()),
            prover_to_identity_sig: copy_bytes(self.prover_to_identity_sig.as_slice()),
            last_updated_ms: self.last_updated_ms,
        }
    }
}

/// Entries by key.
pub type EntryMap = Seq<(Seq<u8>, EntryView)>;

/// The binding that an announcement makes.
pub open spec fn entry_of(reg: CanonicalKeyRegistry) -> EntryView {
    EntryView {
        ed448_pubkey: reg.ed448_pubkey@,
        bls_pubkey: reg.bls_pubkey@,
        identity_to_prover_sig: reg.identity_to_prover_sig@,
        prover_to_identity_sig: reg.prover_to_identity_sig@,
        last_updated_ms: reg.last_updated_ms,
    }
}

/// The entries after an announcement: it takes its key's place unless what is there
/// is at least as recent.
pub open spec fn announced(m: EntryMap, key: Seq<u8>, e: EntryView) -> EntryMap {
    match value_of(m, key) {
        Some(old) => if old.last_updated_ms >= e.last_updated_ms {
            m
        } else {
            with_value(m, key, e)
        },
        None => with_value(m, key, e),
    }
}

/// The registry: the bindings by identity key, and by prover key.
pub struct SignerRegistry {
    pub by_identity: KeyMap<Vec<u8>, SignerEntry>,
    pub by_prover: KeyMap<Vec<u8>, SignerEntry>,
}

/// The mathematical value of a [`SignerRegistry`].
#[verifier::ext_equal]
pub struct RegistryView {
    pub by_identity: EntryMap,
    pub by_prover: EntryMap,
}

impl View for SignerRegistry {
    type V = RegistryView;

    open spec fn view(&self) -> RegistryView {
        RegistryView { by_identity: self.by_identity@, by_prover: self.by_prover@ }
    }
}

/// Is something more recent known of the identity?
pub open spec fn is_outdated(m: EntryMap, key: Seq<u8>, ms: u64) -> bool {
    value_of(m, key) matches Some(known) && known.last_updated_ms > ms
}

/// The registry after an announcement. One without both keys is ignored, and so is one
/// that is older than what is known of its identity. Any other is taken in under each of
/// its two keys for which nothing at least as recent is known.
pub open spec fn after_update(v: RegistryView, e: EntryView) -> RegistryView {
    if e.ed448_pubkey.len() == 0 || e.bls_pubkey.len() == 0 || is_outdated(
        v.by_identity,
        e.ed448_pubkey,
        e.last_updated_ms,
    ) {
        v
    } else {
        RegistryView {
            by_identity: announced(v.by_identity, e.ed448_pubkey, e),
            by_prover: announced(v.by_prover, e.bls_pubkey, e),
        }
    }
}

impl SignerRegistry {
    /// The registry without bindings.
    pub fn new() -> (r: Self)
        ensures
            r@ == (RegistryView { by_identity: Seq::empty(), by_prover: Seq::empty() }),
    {
        SignerRegistry { by_identity: KeyMap::new(), by_prover: KeyMap::new() }
    }

    /// Takes in an announcement. One without both keys is ignored; and one that is
    /// older than what is known of its identity changes nothing, so that a replay cannot
    /// roll a binding back.
    pub fn update(&mut self, reg: CanonicalKeyRegistry)
        ensures
            final(self)@ == after_update(old(self)@, entry_of(reg)),
    {
        if reg.ed448_pubkey.len() == 0 || reg.bls_pubkey.len() == 0 {
            return;
        }
        let identity = copy_bytes(reg.ed448_pubkey.as_slice());
        let prover = copy_bytes(reg.bls_pubkey.as_slice());
        let entry = SignerEntry {
            ed448_pubkey: reg.ed448_pubkey,
            bls_pubkey: reg.bls_pubkey,
            identity_to_prover_sig: reg.identity_to_prover_sig,
            prover_to_identity_sig: reg.prover_to_identity_sig,
            last_updated_ms: reg.last_updated_ms,
        };
        let known: Option<u64> = match self.by_identity.get(&identity) {
            Some(e) => Some(e.last_updated_ms),
            None => None,
        };
        let newer = match known {
            Some(ms) => {
                if ms > entry.last_updated_ms {
                    return;
                }
                ms < entry.last_updated_ms
            },
            None => true,
        };
        if newer {
            self.by_identity.insert(identity, entry.dup());
        }
        let known = match self.by_prover.get(&prover) {
            Some(e) => e.last_updated_ms >= entry.last_updated_ms,
            None => false,
        };
        if !known {
            self.by_prover.insert(prover, entry);
        }
    }

    /// The prover key of an identity.
    pub fn bls_pubkey_for_identity(&self, ed448_pubkey: &[u8]) -> (r: Option<Vec<u8>>)
        ensures
            match r {
                Some(k) => value_of(self.by_identity@, ed448_pubkey@) matches Some(e)
                    && e.bls_pubkey == k@,
                None => value_of(self.by_identity@, ed448_pubkey@) is None,
            },
    {
        match self.by_identity.get(&copy_bytes(ed448_pubkey)) {
            Some(e) => Some(copy_bytes(e.bls_pubkey.as_slice())),
            None => None,
        }
    }

    /// The identity of a prover key.
    pub fn identity_for_prover(&self, bls_pubkey: &[u8]) -> (r: Option<Vec<u8>>)
        ensures
            match r {
                Some(k) => value_of(self.by_prover@, bls_pubkey@) matches Some(e)
                    && e.ed448_pubkey == k@,
                None => value_of(self.by_prover@, bls_pubkey@) is None,
            },
    {
        match self.by_prover.get(&copy_bytes(bls_pubkey)) {
            Some(e) => Some(copy_bytes(e.ed448_pubkey.as_slice())),
            None => None,
        }
    }

    /// The whole binding of an identity.
    pub fn get_by_identity(&self, ed448_pubkey: &[u8]) -> (r: Option<SignerEntry>)
        ensures
            match r {
                Some(e) => value_of(self.by_identity@, ed448_pubkey@) == Some(e@),
                None => value_of(self.by_identity@, ed448_pubkey@) is None,
            },
    {
        match self.by_identity.get(&copy_bytes(ed448_pubkey)) {
            Some(e) => Some(e.dup()),
            None => None,
        }
    }

    /// How many identities are known.
    pub fn len(&self) -> (r: usize)
        ensures
            r == self.by_identity@.len(),
    {
        self.by_identity.len()
    }

    /// Is no identity known?
    pub fn is_empty(&self) -> (r: bool)
        ensures
            r == (self.by_identity@.len() == 0),
    {
        self.len() == 0
    }
}

/// A binding is never rolled back: after any announcement, what is known of an identity
/// is at least as recent as before. An announcement that is older than what is known of
/// its identity is ignored altogether, and one that is just as old leaves the identity's
/// binding.
pub proof fn law_bindings_never_roll_back(v: RegistryView, e: EntryView, identity: Seq<u8>)
    requires
        value_of(v.by_identity, identity) is Some,
    ensures
        ({
            let after = after_update(v, e);
            let (old_e, new_e) = (
                value_of(v.by_identity, identity)->Some_0,
                value_of(after.by_identity, identity),
            );
            &&& new_e is Some
            &&& new_e->Some_0.last_updated_ms >= old_e.last_updated_ms
            &&& identity != e.ed448_pubkey ==> new_e == Some(old_e)
            &&& identity == e.ed448_pubkey && old_e.last_updated_ms > e.last_updated_ms ==> after
                == v
            &&& old_e.last_updated_ms >= e.last_updated_ms ==> new_e == Some(old_e)
        }),
{
    lemma_with_value(v.by_identity, e.ed448_pubkey, e, identity);
}

/// Of two announcements for one identity the more recent one stands, in whichever order
/// they come, unless what was known before is at least as recent.
pub proof fn law_newer_announcement_wins(v: RegistryView, old_e: EntryView, new_e: EntryView)
    requires
        new_e.ed448_pubkey == old_e.ed448_pubkey,
        new_e.ed448_pubkey.len() > 0,
        new_e.bls_pubkey.len() > 0,
        old_e.last_updated_ms < new_e.last_updated_ms,
        value_of(v.by_identity, new_e.ed448_pubkey) matches Some(known) ==> known.last_updated_ms
            < new_e.last_updated_ms,
    ensures
        value_of(
            after_update(after_update(v, old_e), new_e).by_identity,
            new_e.ed448_pubkey,
        ) == Some(new_e),
        value_of(
            after_update(after_update(v, new_e), old_e).by_identity,
            new_e.ed448_pubkey,
        ) == Some(new_e),
{
    let key = new_e.ed448_pubkey;
    let m = v.by_identity;
    lemma_with_value(m, key, old_e, key);
    lemma_with_value(m, key, new_e, key);
    lemma_with_value(after_update(v, old_e).by_identity, key, new_e, key);
}

/// An announcement that is not outdated binds its prover key, unless something at least as
/// recent is known of that key.
pub proof fn law_announcements_bind_the_prover(v: RegistryView, e: EntryView)
    requires
        e.ed448_pubkey.len() > 0,
        e.bls_pubkey.len() > 0,
        !is_outdated(v.by_identity, e.ed448_pubkey, e.last_updated_ms),
    ensures
        value_of(after_update(v, e).by_prover, e.bls_pubkey) == match value_of(
            v.by_prover,
            e.bls_pubkey,
        ) {
            Some(known) => if known.last_updated_ms >= e.last_updated_ms {
                Some(known)
            } else {
                Some(e)
            },
            None => Some(e),
        },
{
    lemma_with_value(v.by_prover, e.bls_pubkey, e, e.bls_pubkey);
}

/// Every entry stands under its own key.
pub open spec fn keyed_by_identity(m: EntryMap) -> bool {
    forall|i: int| 0 <= i < m.len() ==> (#[trigger] m[i]).0 == m[i].1.ed448_pubkey
}

/// Announcements keep every entry under its own identity key.
pub proof fn law_entries_stay_keyed(v: RegistryView, e: EntryView)
    requires
        keyed_by_identity(v.by_identity),
    ensures
        keyed_by_identity(after_update(v, e).by_identity),
{
    crate::assoc::lemma_key_index(v.by_identity, e.ed448_pubkey);
}

} // verus!
