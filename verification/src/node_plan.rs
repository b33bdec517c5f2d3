//! What a node decides when it starts: its mode, its identity, whom it trusts, and
//! whether it takes part in global consensus.

use vstd::prelude::*;
use vstd::string::*;

use crate::assoc::{key_views, with_items, KeySet};
use crate::bytes::{copy_all, copy_bytes, sub_bytes, views};
use crate::codec::{
    base58_bytes, base58_decode, base64_bytes, base64_decode, hex_bytes, hex_decode, hex_value,
    trim_text, trimmed,
};
use crate::multiaddr::{archive_multiaddr_to_host_port, host_port, text_views};
use crate::peer_id::{ed448_multihash, key_multihash};
use crate::text::concat2;

verus! {

/// What a process runs as.
#[derive(Clone, Copy, Debug, PartialEq, Eq, Structural)]
pub enum NodeMode {
    /// A bootstrap peer only.
    Dht,
    Master,
    /// A worker on the core with the number.
    Worker(u32),
}

/// What the process runs as: a bootstrap peer if asked to, the master on core zero, a
/// worker on any other core.
pub fn node_mode(core: u32, dht_only: bool) -> (r: NodeMode)
    ensures
        r == if dht_only {
            NodeMode::Dht
        } else if core == 0 {
            NodeMode::Master
        } else {
            NodeMode::Worker(core)
        },
{
    if dht_only {
        NodeMode::Dht
    } else if core == 0 {
        NodeMode::Master
    } else {
        NodeMode::Worker(core)
    }
}

/// What checking the release's signatures comes to.
pub enum ReleaseCheck {
    /// The number of valid signatures.
    Passed(usize),
    /// The check failed.
    Failed(String),
    /// The running program's own path could not be found out.
    NoPath(String),
}

/// Why a node may not start, after the check of the release's signatures. On a system
/// without the check, or with the check switched off, it may.
pub open spec fn release_refusal(
    signature_check: bool,
    available: bool,
    check: ReleaseCheck,
) -> Option<Seq<char>> {
    if !signature_check || !available {
        None
    } else {
        match check {
            ReleaseCheck::Passed(_) => None,
            ReleaseCheck::Failed(e) => Some("signature check failed: "@ + e@),
            ReleaseCheck::NoPath(e) => Some(
                "could not determine executable path for signature check: "@ + e@,
            ),
        }
    }
}

/// May a node start, after the check of the release's signatures?
pub fn release_gate(signature_check: bool, available: bool, check: &ReleaseCheck) -> (r: Result<
    (),
    String,
>)
    ensures
        match r {
            Ok(_) => release_refusal(signature_check, available, *check) is None,
            Err(e) => release_refusal(signature_check, available, *check) == Some(e@),
        },
{
    if !signature_check || !available {
        return Ok(());
    }
    match check {
        ReleaseCheck::Passed(_) => Ok(()),
        ReleaseCheck::Failed(e) => Err(concat2("signature check failed: ", e.as_str())),
        ReleaseCheck::NoPath(e) => Err(
            concat2("could not determine executable path for signature check: ", e.as_str()),
        ),
    }
}

/// The number of bytes of an Ed448 seed.
pub const SEED_LENGTH: usize = 57;

/// The seed of the identity that a private key in hexadecimal text holds: the key's
/// first 57 bytes, if it has as many.
pub open spec fn seed_of(key: Seq<char>) -> Option<Seq<u8>> {
    match hex_bytes(key) {
        Some(b) => if b.len() >= SEED_LENGTH {
            Some(b.take(SEED_LENGTH as int))
        } else {
            None
        },
        None => None,
    }
}

/// The seed of the identity that a private key holds.
pub fn identity_seed(key: &str) -> (r: Option<Vec<u8>>)
    ensures
        match r {
            Some(s) => seed_of(key@) == Some(s@),
            None => seed_of(key@) is None,
        },
{
    match hex_decode(key) {
        Some(b) => if b.len() >= SEED_LENGTH {
            let s = sub_bytes(b.as_slice(), 0, SEED_LENGTH);
            assert(s@ =~= b@.take(SEED_LENGTH as int));
            Some(s)
        } else {
            None
        },
        None => None,
    }
}

/// A key that holds the public key behind the seed gives the same identity as the seed
/// alone.
pub proof fn law_seed_ignores_what_follows(seed: Seq<char>, rest: Seq<char>)
    requires
        seed_of(seed) is Some,
        hex_bytes(rest) is Some,
    ensures
        seed_of(seed + rest) == seed_of(seed),
{
    let a = hex_bytes(seed)->Some_0;
    let s = seed + rest;
    assert forall|i: int| 0 <= i < s.len() implies hex_value(#[trigger] s[i]) is Some by {
        if i < seed.len() {
            assert(s[i] == seed[i]);
        } else {
            assert(s[i] == rest[i - seed.len()]);
        }
    }
    let c = hex_bytes(s)->Some_0;
    assert(c.take(SEED_LENGTH as int) =~= a.take(SEED_LENGTH as int)) by {
        assert forall|i: int| 0 <= i < SEED_LENGTH implies c[i] == a[i] by {
            assert(s[2 * i] == seed[2 * i] && s[2 * i + 1] == seed[2 * i + 1]);
        }
    }
}

/// The seeds of those keys of a list that hold one, in order.
pub open spec fn seeds_of(keys: Seq<Seq<char>>) -> Seq<Seq<u8>>
    decreases keys.len(),
{
    if keys.len() == 0 {
        Seq::empty()
    } else {
        match seed_of(keys.last()) {
            Some(s) => seeds_of(keys.drop_last()).push(s),
            None => seeds_of(keys.drop_last()),
        }
    }
}

fn push_seeds(seeds: &mut Vec<Vec<u8>>, keys: &Vec<String>)
    ensures
        views(final(seeds)@) == views(old(seeds)@) + seeds_of(text_views(keys@)),
{
    let ghost kv = text_views(keys@);
    let mut i: usize = 0;
    assert(kv.take(0) =~= Seq::<Seq<char>>::empty());
    assert(views(seeds@) =~= views(old(seeds)@) + seeds_of(kv.take(0)));
    while i < keys.len()
        invariant
            i <= keys@.len(),
            kv == text_views(keys@),
            views(seeds@) == views(old(seeds)@) + seeds_of(kv.take(i as int)),
        decreases keys@.len() - i,
    {
        let ghost before = views(seeds@);
        proof {
            assert(kv.take(i + 1).drop_last() =~= kv.take(i as int));
            assert(kv.take(i + 1).last() == keys@[i as int]@);
        }
        match identity_seed(keys[i].as_str()) {
            Some(s) => {
                seeds.push(s);
                assert(views(seeds@) =~= before.push(s@));
            },
            None => {},
        }
        i += 1;
        assert(views(seeds@) =~= views(old(seeds)@) + seeds_of(kv.take(i as int)));
    }
    assert(kv.take(i as int) =~= kv);
}

/// The seeds that sign a merge of seniorities: the node's own first, then those of
/// the further configurations that could be read.
pub fn multisig_seeds(own: &str, further: &Vec<String>) -> (r: Vec<Vec<u8>>)
    ensures
        views(r@) == seeds_of(seq![own@]) + seeds_of(text_views(further@)),
{
    let mut r: Vec<Vec<u8>> = Vec::new();
    assert(seq![own@].drop_last() =~= Seq::<Seq<char>>::empty());
    match identity_seed(own) {
        Some(s) => {
            r.push(s);
        },
        None => {},
    }
    assert(views(r@) =~= seeds_of(seq![own@])) by {
        reveal_with_fuel(seeds_of, 2);
    }
    push_seeds(&mut r, further);
    r
}

/// The bytes that hexadecimal text spells, or none where it does not.
pub open spec fn hex_or_none(text: Seq<char>) -> Seq<u8> {
    match hex_bytes(text) {
        Some(b) => b,
        None => Seq::empty(),
    }
}

/// The public key for alerts. A key that is not hexadecimal text counts as none.
pub fn alert_key(text: &str) -> (r: Vec<u8>)
    ensures
        r@ == hex_or_none(text@),
{
    match hex_decode(text) {
        Some(b) => b,
        None => Vec::new(),
    }
}

/// The address that rewards go to: what the text says without the white space round
/// it. One that is not hexadecimal text counts as none.
pub fn delegate_address(text: &str) -> (r: Vec<u8>)
    ensures
        r@ == hex_or_none(trimmed(text@)),
{
    let raw = trim_text(text);
    match hex_decode(raw.as_str()) {
        Some(b) => b,
        None => Vec::new(),
    }
}

/// The endpoints that the pool of archives starts with. The configured ones come
/// first, without those whose address is not valid. Only where none is configured,
/// the main network falls back on the archives' fixed hosts.
pub open spec fn pool_seeds(
    configured: Seq<Seq<char>>,
    network: u8,
    hosts: Seq<Seq<char>>,
) -> Seq<Seq<char>> {
    if configured.len() > 0 {
        valid_endpoints(configured, network)
    } else if network == 0 {
        Seq::new(hosts.len(), |i: int| hosts[i] + ":8340"@)
    } else {
        Seq::empty()
    }
}

/// The endpoints of those addresses of a list that are valid, in order.
pub open spec fn valid_endpoints(addrs: Seq<Seq<char>>, network: u8) -> Seq<Seq<char>>
    decreases addrs.len(),
{
    if addrs.len() == 0 {
        Seq::empty()
    } else {
        match host_port(addrs.last(), network) {
            Some(e) => valid_endpoints(addrs.drop_last(), network).push(e),
            None => valid_endpoints(addrs.drop_last(), network),
        }
    }
}

/// The endpoints that the pool of archives starts with.
pub fn seed_archive_pool(configured: &Vec<String>, network: u8, hosts: &Vec<String>) -> (r: Vec<
    String,
>)
    ensures
        text_views(r@) == pool_seeds(text_views(configured@), network, text_views(hosts@)),
{
    let mut r: Vec<String> = Vec::new();
    let mut i: usize = 0;
    if configured.len() > 0 {
        let ghost cv = text_views(configured@);
        assert(cv.take(0) =~= Seq::<Seq<char>>::empty());
        assert(text_views(r@) =~= valid_endpoints(cv.take(0), network));
        while i < configured.len()
            invariant
                i <= configured@.len(),
                cv == text_views(configured@),
                text_views(r@) == valid_endpoints(cv.take(i as int), network),
            decreases configured@.len() - i,
        {
            let ghost before = text_views(r@);
            proof {
                assert(cv.take(i + 1).drop_last() =~= cv.take(i as int));
                assert(cv.take(i + 1).last() == configured@[i as int]@);
            }
            match archive_multiaddr_to_host_port(configured[i].as_str(), network) {
                Some(e) => {
                    r.push(e);
                    assert(text_views(r@) =~= before.push(e@));
                },
                None => {},
            }
            i += 1;
        }
        assert(cv.take(i as int) =~= cv);
    } else if network == 0 {
        while i < hosts.len()
            invariant
                i <= hosts@.len(),
                r@.len() == i,
                forall|j: int| 0 <= j < i ==> (#[trigger] r@[j])@ == hosts@[j]@ + ":8340"@,
            decreases hosts@.len() - i,
        {
            r.push(concat2(hosts[i].as_str(), ":8340"));
            i += 1;
        }
        assert(text_views(r@) =~= pool_seeds(text_views(configured@), network, text_views(hosts@)));
    } else {
        assert(text_views(r@) =~= Seq::<Seq<char>>::empty());
    }
    r
}

/// An archive of the network's beginning: its peer identifier in base 58, and its
/// prover key in hexadecimal.
pub struct ArchivePeer {
    pub peer_id: String,
    pub pubkey_hex: String,
}

/// What is known of the main network's beginning, as far as a node trusts it: the
/// beacon's two keys in base 64, and the archives.
pub struct MainnetGenesis {
    pub beacon_ed448_key: String,
    pub beacon_bls48581_key: String,
    pub archive_peers: Vec<ArchivePeer>,
}

/// The views of values that may be missing.
pub open spec fn option_views(items: Seq<Option<Vec<u8>>>) -> Seq<Option<Seq<u8>>> {
    Seq::new(
        items.len(),
        |i: int|
            match items[i] {
                Some(b) => Some(b@),
                None => None,
            },
    )
}

/// Those of a list that are there, in order.
pub open spec fn present(items: Seq<Option<Seq<u8>>>) -> Seq<Seq<u8>>
    decreases items.len(),
{
    if items.len() == 0 {
        Seq::empty()
    } else {
        match items.last() {
            Some(b) => present(items.drop_last()).push(b),
            None => present(items.drop_last()),
        }
    }
}

/// Keeps those of a list that are there.
pub fn keep_present(items: &Vec<Option<Vec<u8>>>) -> (r: Vec<Vec<u8>>)
    ensures
        views(r@) == present(option_views(items@)),
{
    let ghost v = option_views(items@);
    let mut r: Vec<Vec<u8>> = Vec::new();
    let mut i: usize = 0;
    assert(v.take(0) =~= Seq::<Option<Seq<u8>>>::empty());
    assert(views(r@) =~= present(v.take(0)));
    while i < items.len()
        invariant
            i <= items@.len(),
            v == option_views(items@),
            views(r@) == present(v.take(i as int)),
        decreases items@.len() - i,
    {
        let ghost before = views(r@);
        proof {
            assert(v.take(i + 1).drop_last() =~= v.take(i as int));
            assert(v.take(i + 1).last() == v[i as int]);
        }
        match &items[i] {
            Some(b) => {
                r.push(copy_bytes(b.as_slice()));
                assert(views(r@) =~= before.push(b@));
            },
            None => {},
        }
        i += 1;
    }
    assert(v.take(i as int) =~= v);
    r
}

/// The set of those of a list that are there.
pub fn trusted_set(items: &Vec<Option<Vec<u8>>>) -> (r: KeySet<Vec<u8>>)
    ensures
        r@ == with_items(Seq::empty(), present(option_views(items@))),
{
    let found = keep_present(items);
    let mut r: KeySet<Vec<u8>> = KeySet::new();
    r.insert_all(&found);
    assert(key_views(found@) =~= views(found@));
    r
}

/// The text of one that may be missing.
pub open spec fn option_text(t: Option<String>) -> Option<Seq<char>> {
    match t {
        Some(s) => Some(s@),
        None => None,
    }
}

/// The peer identifiers of the network's beginning: one for each archive, and the
/// beacon's, which its key gives. One whose text cannot be read is missing.
pub open spec fn genesis_ids(peers: Seq<ArchivePeer>, beacon: Option<Seq<char>>) -> Seq<
    Option<Seq<u8>>,
> {
    Seq::new(peers.len(), |i: int| base58_bytes(peers[i].peer_id@)).push(
        match beacon {
            Some(text) => match base64_bytes(text) {
                Some(key) => Some(key_multihash(key)),
                None => None,
            },
            None => None,
        },
    )
}

/// The set of the peer identifiers of the network's beginning that can be read.
pub fn genesis_archive_peer_ids(peers: &Vec<ArchivePeer>, beacon_key: &Option<String>) -> (r:
    KeySet<Vec<u8>>)
    ensures
        r@ == with_items(
            Seq::empty(),
            present(genesis_ids(peers@, option_text(*beacon_key))),
        ),
{
    let mut ids: Vec<Option<Vec<u8>>> = Vec::new();
    let mut i: usize = 0;
    while i < peers.len()
        invariant
            i <= peers@.len(),
            ids@.len() == i,
            forall|j: int|
                0 <= j < i ==> #[trigger] option_views(ids@)[j] == base58_bytes(peers@[j].peer_id@),
        decreases peers@.len() - i,
    {
        let ghost before = option_views(ids@);
        let id = base58_decode(peers[i].peer_id.as_str());
        ids.push(id);
        proof {
            let now = option_views(ids@);
            assert forall|j: int| 0 <= j < i + 1 implies #[trigger] now[j] == base58_bytes(
                peers@[j].peer_id@,
            ) by {
                if j < i {
                    assert(now[j] == before[j]);
                }
            }
        }
        i += 1;
    }
    let ghost archives = option_views(ids@);
    let beacon: Option<Vec<u8>> = match beacon_key {
        Some(text) => match base64_decode(text.as_str()) {
            Some(key) => Some(ed448_multihash(key.as_slice())),
            None => None,
        },
        None => None,
    };
    ids.push(beacon);
    proof {
        let v = option_views(ids@);
        let want = genesis_ids(peers@, option_text(*beacon_key));
        assert(v =~= want) by {
            assert forall|j: int| 0 <= j < v.len() implies v[j] == want[j] by {
                if j < peers@.len() {
                    assert(v[j] == archives[j]);
                }
            }
        }
    }
    trusted_set(&ids)
}

/// The prover keys of the main network's beginning: the beacon's, then the archives'.
/// One whose text cannot be read is missing.
pub open spec fn mainnet_prover_keys(beacon: Seq<char>, peers: Seq<ArchivePeer>) -> Seq<
    Option<Seq<u8>>,
> {
    seq![base64_bytes(beacon)] + Seq::new(peers.len(), |i: int| hex_bytes(peers[i].pubkey_hex@))
}

/// The prover keys of the main network's beginning that can be read.
pub fn mainnet_genesis_keys(data: &MainnetGenesis) -> (r: Vec<Vec<u8>>)
    ensures
        views(r@) == present(mainnet_prover_keys(data.beacon_bls48581_key@, data.archive_peers@)),
{
    let mut keys: Vec<Option<Vec<u8>>> = Vec::new();
    let ghost want = mainnet_prover_keys(data.beacon_bls48581_key@, data.archive_peers@);
    keys.push(base64_decode(data.beacon_bls48581_key.as_str()));
    let peers = &data.archive_peers;
    let mut i: usize = 0;
    while i < peers.len()
        invariant
            i <= peers@.len(),
            peers == &data.archive_peers,
            want == mainnet_prover_keys(data.beacon_bls48581_key@, data.archive_peers@),
            keys@.len() == i + 1,
            forall|j: int| 0 <= j < i + 1 ==> #[trigger] option_views(keys@)[j] == want[j],
        decreases peers@.len() - i,
    {
        let ghost before = option_views(keys@);
        let key = hex_decode(peers[i].pubkey_hex.as_str());
        keys.push(key);
        proof {
            let now = option_views(keys@);
            assert forall|j: int| 0 <= j < i + 2 implies #[trigger] now[j] == want[j] by {
                if j < i + 1 {
                    assert(now[j] == before[j]);
                }
            }
        }
        i += 1;
    }
    assert(option_views(keys@) =~= want);
    keep_present(&keys)
}

/// The keys whose addresses are accepted as provers of a network's beginning: on the
/// main network those that are built in, on any other those that were found for it.
pub fn genesis_prover_keys(
    network: u8,
    mainnet: &Option<MainnetGenesis>,
    other: &Option<Vec<Vec<u8>>>,
) -> (r: Vec<Vec<u8>>)
    ensures
        views(r@) == if network == 0 {
            match *mainnet {
                Some(d) => present(mainnet_prover_keys(d.beacon_bls48581_key@, d.archive_peers@)),
                None => Seq::empty(),
            }
        } else {
            match *other {
                Some(keys) => views(keys@),
                None => Seq::empty(),
            }
        },
{
    let none: Vec<Vec<u8>> = Vec::new();
    assert(views(none@) =~= Seq::<Seq<u8>>::empty());
    if network == 0 {
        match mainnet {
            Some(d) => mainnet_genesis_keys(d),
            None => none,
        }
    } else {
        match other {
            Some(keys) => copy_all(keys),
            None => none,
        }
    }
}

} // verus!
