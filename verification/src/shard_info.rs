//! What a node tells its users of the shards, from its own data or from a peer's.

use vstd::prelude::*;
use vstd::string::*;

use crate::assoc::{key_views, value_of, with_items, KeyMap, KeySet};
use crate::bytes::{bytes_eq, copy_bytes, views};
use crate::error::{internal, outcome, ErrorView, QuilError};

verus! {

/// The difficulty and frame that the answer speaks of. The difficulty stands only in
/// the latest stored header; the frame is the later one of that header's and of the
/// one last seen.
pub open spec fn basis_frame(header: Option<(u32, u64)>, current: u64) -> (u64, u64) {
    match header {
        Some((difficulty, frame)) => (
            difficulty as u64,
            if frame > current {
                frame
            } else {
                current
            },
        ),
        None => (0, current),
    }
}

/// The difficulty and frame that the answer speaks of, from the difficulty and frame of
/// the latest stored header, if there is one.
pub fn difficulty_and_frame(header: Option<(u32, u64)>, current: u64) -> (r: (u64, u64))
    ensures
        r == basis_frame(header, current),
{
    match header {
        Some((difficulty, frame)) => (
            difficulty as u64,
            if frame > current {
                frame
            } else {
                current
            },
        ),
        None => (0, current),
    }
}

/// A prover's allocation: its filter, and whether it is live on the frame in question.
pub struct AllocationEntry {
    pub confirmation_filter: Vec<u8>,
    pub live: bool,
}

/// A prover of the registry.
pub struct ProverEntry {
    pub address: Vec<u8>,
    pub allocations: Vec<AllocationEntry>,
}

/// The filters of those allocations that are live, in order.
pub open spec fn live_filters(allocations: Seq<AllocationEntry>) -> Seq<Seq<u8>>
    decreases allocations.len(),
{
    if allocations.len() == 0 {
        Seq::empty()
    } else if allocations.last().live {
        live_filters(allocations.drop_last()).push(allocations.last().confirmation_filter@)
    } else {
        live_filters(allocations.drop_last())
    }
}

/// The filters on which the prover with the address has a live allocation, without
/// repetitions.
pub open spec fn filters_of(provers: Seq<ProverEntry>, address: Seq<u8>) -> Seq<Seq<u8>>
    decreases provers.len(),
{
    if provers.len() == 0 {
        Seq::empty()
    } else {
        let before = filters_of(provers.drop_last(), address);
        if provers.last().address@ == address {
            with_items(before, live_filters(provers.last().allocations@))
        } else {
            before
        }
    }
}

fn collect_live(allocations: &Vec<AllocationEntry>) -> (r: Vec<Vec<u8>>)
    ensures
        views(r@) == live_filters(allocations@),
{
    let mut r: Vec<Vec<u8>> = Vec::new();
    let mut i: usize = 0;
    assert(allocations@.take(0) =~= Seq::<AllocationEntry>::empty());
    assert(views(r@) =~= live_filters(allocations@.take(0)));
    while i < allocations.len()
        invariant
            i <= allocations@.len(),
            views(r@) == live_filters(allocations@.take(i as int)),
        decreases allocations@.len() - i,
    {
        let ghost before = views(r@);
        proof {
            assert(allocations@.take(i + 1).drop_last() =~= allocations@.take(i as int));
            assert(allocations@.take(i + 1).last() == allocations@[i as int]);
        }
        if allocations[i].live {
            r.push(copy_bytes(allocations[i].confirmation_filter.as_slice()));
            assert(views(r@) =~= before.push(allocations@[i as int].confirmation_filter@));
        }
        i += 1;
    }
    assert(allocations@.take(i as int) =~= allocations@);
    r
}

/// The filters on which the prover with the address has a live allocation.
pub fn allocated_filters(provers: &Vec<ProverEntry>, address: &[u8]) -> (r: KeySet<Vec<u8>>)
    ensures
        r@ == filters_of(provers@, address@),
{
    let mut r: KeySet<Vec<u8>> = KeySet::new();
    let mut i: usize = 0;
    assert(provers@.take(0) =~= Seq::<ProverEntry>::empty());
    while i < provers.len()
        invariant
            i <= provers@.len(),
            r@ == filters_of(provers@.take(i as int), address@),
        decreases provers@.len() - i,
    {
        proof {
            assert(provers@.take(i + 1).drop_last() =~= provers@.take(i as int));
            assert(provers@.take(i + 1).last() == provers@[i as int]);
        }
        if bytes_eq(provers[i].address.as_slice(), address) {
            let live = collect_live(&provers[i].allocations);
            r.insert_all(&live);
            assert(key_views(live@) =~= views(live@));
        }
        i += 1;
    }
    assert(provers@.take(i as int) =~= provers@);
    r
}

/// The keys of the known shards, each once. Their number is that of the shards that a
/// complete answer tells of.
pub fn distinct_keys(shard_keys: &Vec<Vec<u8>>) -> (r: KeySet<Vec<u8>>)
    ensures
        r@ == with_items(Seq::empty(), views(shard_keys@)),
{
    let mut r: KeySet<Vec<u8>> = KeySet::new();
    r.insert_all(shard_keys);
    assert(key_views(shard_keys@) =~= views(shard_keys@));
    r
}

/// What the node's own data gave: how many shards it tells of, and the basis of
/// rewards; nothing where it failed.
pub struct LocalInfo {
    pub details: usize,
    pub basis: i128,
}

/// Is the node's own data not enough for an answer? It is not where it failed or is
/// empty; and, if all shards were asked for and the node is no archive, where shards
/// are missing.
pub open spec fn incomplete(
    local: Option<LocalInfo>,
    include_all: bool,
    archive_mode: bool,
    expected: nat,
) -> bool {
    match local {
        Some(l) => l.basis == 0 || (include_all && !archive_mode && l.details < expected),
        None => true,
    }
}

/// Whether a peer is asked: the node's own data is not enough, and the node has an
/// identity to show.
pub fn needs_remote(
    local: &Option<LocalInfo>,
    include_all: bool,
    archive_mode: bool,
    expected: usize,
    has_seed: bool,
) -> (r: bool)
    ensures
        r == (incomplete(*local, include_all, archive_mode, expected as nat) && has_seed),
{
    let missing = match local {
        Some(l) => l.basis == 0 || (include_all && !archive_mode && l.details < expected),
        None => true,
    };
    missing && has_seed
}

/// The peer to ask: the latest frame's prover if it was reached, or else the first
/// archive of the pool that was.
pub open spec fn reached<C>(primary: Option<C>, pool: Seq<Option<C>>) -> Option<C>
    decreases pool.len(),
{
    match primary {
        Some(c) => Some(c),
        None => if pool.len() == 0 {
            None
        } else if pool[0] is Some {
            pool[0]
        } else {
            reached(None, pool.drop_first())
        },
    }
}

/// The peer to ask, from the attempts to reach one, of which those after the first that
/// succeeded need not have been made.
pub fn choose_client(primary: Option<u64>, pool: &Vec<Option<u64>>) -> (r: Result<u64, QuilError>)
    ensures
        outcome(r) == match reached(primary, pool@) {
            Some(c) => Ok(c),
            None => Err(
                ErrorView::Internal("shard info: no archive endpoint reachable for fallback"@),
            ),
        },
{
    match primary {
        Some(c) => {
            return Ok(c);
        },
        None => {},
    }
    let mut i: usize = 0;
    assert(pool@.skip(0) =~= pool@);
    while i < pool.len()
        invariant
            i <= pool@.len(),
            primary is None,
            reached(primary, pool@) == reached(None, pool@.skip(i as int)),
        decreases pool@.len() - i,
    {
        assert(pool@.skip(i as int).drop_first() =~= pool@.skip(i + 1));
        assert(pool@.skip(i as int)[0] == pool@[i as int]);
        match pool[i] {
            Some(c) => {
                return Ok(c);
            },
            None => {},
        }
        i += 1;
    }
    Err(internal("shard info: no archive endpoint reachable for fallback"))
}

/// What a peer tells of a part of a shard.
pub struct AppShardInfo {
    pub prefix: Vec<u32>,
    pub size: Vec<u8>,
    pub data_shards: u64,
}

/// The mathematical value of an [`AppShardInfo`] or a [`ShardSizeEntry`].
pub struct ShardSizeView {
    pub prefix: Seq<u32>,
    pub size: Seq<u8>,
    pub data_shards: u64,
}

/// What a peer tells of a shard.
pub struct AppShards {
    pub infos: Vec<AppShardInfo>,
}

impl View for AppShards {
    type V = Seq<ShardSizeView>;

    open spec fn view(&self) -> Seq<ShardSizeView> {
        Seq::new(
            self.infos@.len(),
            |i: int|
                ShardSizeView {
                    prefix: self.infos@[i].prefix@,
                    size: self.infos@[i].size@,
                    data_shards: self.infos@[i].data_shards,
                },
        )
    }
}

/// The size of a part of a shard.
pub struct ShardSizeEntry {
    pub prefix: Vec<u32>,
    pub size: Vec<u8>,
    pub data_shards: u64,
}

/// The views of a list of sizes.
pub open spec fn size_views(s: Seq<ShardSizeEntry>) -> Seq<ShardSizeView> {
    Seq::new(
        s.len(),
        |i: int|
            ShardSizeView {
                prefix: s[i].prefix@,
                size: s[i].size@,
                data_shards: s[i].data_shards,
            },
    )
}

/// The sizes of a shard's parts, from what a peer told of it. A part without a prefix
/// of its own takes the shard's. Of a shard that the peer did not tell of there are
/// none.
pub open spec fn sizes_of(told: Option<Seq<ShardSizeView>>, prefix: Seq<u32>) -> Seq<ShardSizeView> {
    match told {
        Some(infos) => Seq::new(
            infos.len(),
            |i: int|
                ShardSizeView {
                    prefix: if infos[i].prefix.len() == 0 {
                        prefix
                    } else {
                        infos[i].prefix
                    },
                    size: infos[i].size,
                    data_shards: infos[i].data_shards,
                },
        ),
        None => Seq::empty(),
    }
}

fn copy_words(a: &Vec<u32>) -> (r: Vec<u32>)
    ensures
        r@ == a@,
{
    let mut r: Vec<u32> = Vec::new();
    let mut i: usize = 0;
    while i < a.len()
        invariant
            i <= a@.len(),
            r@ == a@.take(i as int),
        decreases a@.len() - i,
    {
        r.push(a[i]);
        assert(r@ =~= a@.take(i + 1));
        i += 1;
    }
    assert(a@.take(i as int) =~= a@);
    r
}

/// The sizes of a shard's parts, from what a peer told of all shards.
pub fn remote_sizes(
    prefetched: &KeyMap<Vec<u8>, AppShards>,
    shard_key: &Vec<u8>,
    prefix: &Vec<u32>,
) -> (r: Vec<ShardSizeEntry>)
    ensures
        size_views(r@) == sizes_of(value_of(prefetched@, shard_key@), prefix@),
{
    let mut r: Vec<ShardSizeEntry> = Vec::new();
    match prefetched.get(shard_key) {
        Some(told) => {
            let infos = &told.infos;
            let ghost want = sizes_of(Some(told@), prefix@);
            let mut i: usize = 0;
            while i < infos.len()
                invariant
                    i <= infos@.len(),
                    infos == &told.infos,
                    want == sizes_of(Some(told@), prefix@),
                    r@.len() == i,
                    forall|j: int| 0 <= j < i ==> #[trigger] size_views(r@)[j] == want[j],
                decreases infos@.len() - i,
            {
                let ghost before = size_views(r@);
                let info = &infos[i];
                let own = if info.prefix.len() == 0 {
                    copy_words(prefix)
                } else {
                    copy_words(&info.prefix)
                };
                r.push(
                    ShardSizeEntry {
                        prefix: own,
                        size: copy_bytes(info.size.as_slice()),
                        data_shards: info.data_shards,
                    },
                );
                proof {
                    let now = size_views(r@);
                    assert forall|j: int| 0 <= j < i + 1 implies #[trigger] now[j] == want[j] by {
                        if j < i {
                            assert(now[j] == before[j]);
                        } else {
                            assert(told@[j].size == infos@[j].size@);
                        }
                    }
                }
                i += 1;
            }
            assert(size_views(r@) =~= want);
        },
        None => {
            assert(size_views(r@) =~= Seq::<ShardSizeView>::empty());
        },
    }
    r
}

/// What a peer announces of itself: for each way in which it can be reached, the
/// addresses of its stream service.
pub struct PeerReach {
    pub reachability: Vec<Vec<String>>,
}

impl View for PeerReach {
    type V = Seq<Seq<String>>;

    open spec fn view(&self) -> Seq<Seq<String>> {
        Seq::new(self.reachability@.len(), |i: int| self.reachability@[i]@)
    }
}

/// The stream addresses of a peer: those of the first way in which it can be reached.
/// There are none where the peer is not known or names no way.
pub open spec fn stream_addrs_of(known: Option<Seq<Seq<String>>>) -> Seq<Seq<char>> {
    match known {
        Some(ways) => if ways.len() > 0 {
            crate::multiaddr::text_views(ways[0])
        } else {
            Seq::empty()
        },
        None => Seq::empty(),
    }
}

/// The stream addresses of a peer.
pub fn peer_stream_addrs(peers: &KeyMap<Vec<u8>, PeerReach>, peer_id: &Vec<u8>) -> (r: Vec<String>)
    ensures
        crate::multiaddr::text_views(r@) == stream_addrs_of(value_of(peers@, peer_id@)),
{
    let mut r: Vec<String> = Vec::new();
    assert(crate::multiaddr::text_views(r@) =~= Seq::<Seq<char>>::empty());
    match peers.get(peer_id) {
        Some(info) => {
            if info.reachability.len() > 0 {
                let addrs = &info.reachability[0];
                let mut i: usize = 0;
                while i < addrs.len()
                    invariant
                        i <= addrs@.len(),
                        r@.len() == i,
                        forall|j: int| 0 <= j < i ==> (#[trigger] r@[j])@ == addrs@[j]@,
                    decreases addrs@.len() - i,
                {
                    r.push(addrs[i].as_str().to_owned());
                    i += 1;
                }
                assert(info@[0] == addrs@);
                assert(crate::multiaddr::text_views(r@) =~= crate::multiaddr::text_views(addrs@));
            }
        },
        None => {},
    }
    r
}

/// An archive that has any data answers from it, however many shards are asked for.
pub proof fn law_archives_answer_themselves(local: LocalInfo, include_all: bool, expected: nat)
    requires
        local.basis != 0,
    ensures
        !incomplete(Some(local), include_all, true, expected),
{
}

} // verus!
