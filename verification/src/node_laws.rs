//! Laws of what a node decides when it starts, and while it runs: which release it
//! runs, whose keys it trusts, when it synchronises and takes part in consensus.

use vstd::prelude::*;

use crate::assoc::lemma_with_items;
use crate::codec::{base58_bytes, base64_bytes, hex_bytes};
use crate::multiaddr::host_port;
use crate::node_plan::{
    genesis_ids, hex_or_none, mainnet_prover_keys, pool_seeds, present, release_refusal, seed_of,
    seeds_of, valid_endpoints, ArchivePeer, ReleaseCheck,
};
use crate::node_sync::{
    consensus_choice, has_empty, header_matches, refreshed_at, submission_for, syncs,
    ConsensusState, ControlEventData, ControlEventType, ShardRefresh, ShardSubmission, StoredFrame,
};
use crate::peer_id::key_multihash;
use crate::shard_info::{
    basis_frame, filters_of, incomplete, live_filters, reached, sizes_of, stream_addrs_of,
    AllocationEntry, LocalInfo, ProverEntry, ShardSizeView,
};

verus! {

/// A node may not start exactly where the check of the signatures is switched on and
/// there is one, and the check did not pass. The reason holds the check's own text
/// behind words that tell the two failures apart.
pub proof fn law_release_is_refused(on: bool, available: bool, passed: usize, e: String)
    ensures
        release_refusal(on, available, ReleaseCheck::Passed(passed)) is None,
        release_refusal(on, available, ReleaseCheck::Failed(e)) is None <==> !(on && available),
        release_refusal(on, available, ReleaseCheck::NoPath(e)) is None <==> !(on && available),
        on && available ==> release_refusal(on, available, ReleaseCheck::Failed(e)) == Some(
            "signature check failed: "@ + e@,
        ),
        on && available ==> release_refusal(on, available, ReleaseCheck::NoPath(e)) == Some(
            "could not determine executable path for signature check: "@ + e@,
        ),
{
}

/// A key in hexadecimal text gives a seed exactly where it spells at least 57 bytes,
/// and the seed is the first 57 of them.
pub proof fn law_seed_is_the_beginning(key: Seq<char>)
    ensures
        seed_of(key) is Some <==> (hex_bytes(key) is Some && hex_bytes(key)->Some_0.len() >= 57),
        seed_of(key) is Some ==> seed_of(key)->Some_0.len() == 57 && forall|i: int|
            0 <= i < 57 ==> seed_of(key)->Some_0[i] == #[trigger] hex_bytes(key)->Some_0[i],
        hex_or_none(key) == if hex_bytes(key) is Some {
            hex_bytes(key)->Some_0
        } else {
            Seq::<u8>::empty()
        },
{
}

/// Each key of a list gives its seed, in order; one that holds none gives nothing.
pub proof fn law_seeds_one_by_one(keys: Seq<Seq<char>>, key: Seq<char>)
    ensures
        seeds_of(Seq::<Seq<char>>::empty()).len() == 0,
        hex_bytes(key) is Some && hex_bytes(key)->Some_0.len() >= 57 ==> seeds_of(keys.push(key))
            == seeds_of(keys).push(hex_bytes(key)->Some_0.take(57)),
        !(hex_bytes(key) is Some && hex_bytes(key)->Some_0.len() >= 57) ==> seeds_of(keys.push(key))
            == seeds_of(keys),
{
    assert(keys.push(key).drop_last() =~= keys);
}

/// A node with configured archives starts from those among them that are valid, and
/// from no others. Without any, a node of the main network starts from the fixed
/// hosts, and another from none.
pub proof fn law_pool_begins_with(
    configured: Seq<Seq<char>>,
    addr: Seq<char>,
    network: u8,
    hosts: Seq<Seq<char>>,
)
    ensures
        network == 0 ==> pool_seeds(Seq::empty(), network, hosts).len() == hosts.len() && forall|
            i: int,
        |
            0 <= i < hosts.len() ==> #[trigger] pool_seeds(Seq::empty(), network, hosts)[i]
                == hosts[i] + ":8340"@,
        network != 0 ==> pool_seeds(Seq::empty(), network, hosts).len() == 0,
        pool_seeds(seq![addr], network, hosts) == match host_port(addr, network) {
            Some(e) => seq![e],
            None => Seq::empty(),
        },
        configured.len() > 0 ==> pool_seeds(configured.push(addr), network, hosts) == match host_port(
            addr,
            network,
        ) {
            Some(e) => pool_seeds(configured, network, hosts).push(e),
            None => pool_seeds(configured, network, hosts),
        },
{
    assert(seq![addr].drop_last() =~= Seq::<Seq<char>>::empty());
    assert(configured.push(addr).drop_last() =~= configured);
    assert(valid_endpoints(Seq::empty(), network).len() == 0);
    assert(Seq::<Seq<char>>::empty().push(host_port(addr, network)->Some_0) =~= seq![
        host_port(addr, network)->Some_0,
    ]);
}

/// Of a list with gaps all that is there is kept, in order, and nothing else.
pub proof fn law_present_one_by_one(items: Seq<Option<Seq<u8>>>, b: Seq<u8>)
    ensures
        present(Seq::<Option<Seq<u8>>>::empty()).len() == 0,
        present(items.push(Some(b))) == present(items).push(b),
        present(items.push(None)) == present(items),
{
    assert(items.push(Some(b)).drop_last() =~= items);
    assert(items.push(None).drop_last() =~= items);
}

/// Every key of a list with gaps that is there is trusted, and no other is.
pub proof fn law_present_are_trusted(items: Seq<Option<Seq<u8>>>, b: Seq<u8>)
    ensures
        present(items).contains(b) <==> items.contains(Some(b)),
    decreases items.len(),
{
    if items.len() > 0 {
        let front = items.drop_last();
        law_present_are_trusted(front, b);
        if items.contains(Some(b)) {
            let k = choose|k: int| 0 <= k < items.len() && items[k] == Some(b);
            if k < front.len() {
                assert(front[k] == Some(b));
                let p = choose|p: int| 0 <= p < present(front).len() && present(front)[p] == b;
                assert(present(items)[p] == b);
            } else {
                assert(present(items).last() == b);
                assert(present(items)[present(items).len() - 1] == b);
            }
        }
        if present(items).contains(b) {
            let p = choose|p: int| 0 <= p < present(items).len() && present(items)[p] == b;
            if p < present(front).len() {
                assert(present(front)[p] == b);
                let k = choose|k: int| 0 <= k < front.len() && front[k] == Some(b);
                assert(items[k] == Some(b));
            } else {
                assert(items[items.len() - 1] == Some(b));
            }
        }
    }
}

/// The beginning of the main network names the beacon and every archive: an
/// identifier for each archive in its place with the beacon's at the end, and a
/// prover key for each archive behind the beacon's.
pub proof fn law_beginning_names_everyone(
    peers: Seq<ArchivePeer>,
    beacon: Option<Seq<char>>,
    text: Seq<char>,
    i: int,
)
    ensures
        genesis_ids(peers, beacon).len() == peers.len() + 1,
        mainnet_prover_keys(text, peers).len() == peers.len() + 1,
        0 <= i < peers.len() ==> genesis_ids(peers, beacon)[i] == base58_bytes(
            peers[i].peer_id@,
        ),
        0 <= i < peers.len() ==> mainnet_prover_keys(text, peers)[i + 1] == hex_bytes(
            peers[i].pubkey_hex@,
        ),
        mainnet_prover_keys(text, peers)[0] == base64_bytes(text),
        beacon is None ==> genesis_ids(peers, beacon).last() is None,
        beacon is Some ==> (genesis_ids(peers, beacon).last() is Some
            <==> base64_bytes(beacon->Some_0) is Some),
        beacon is Some && base64_bytes(beacon->Some_0) is Some
            ==> genesis_ids(peers, beacon).last() == Some(
            key_multihash(base64_bytes(beacon->Some_0)->Some_0),
        ),
{
}

/// An event about shards makes the prover submit exactly what the event tells of,
/// stamped with the frame that was seen last. Before any frame was seen, and on an
/// event whose kind and content do not belong together, nothing is submitted.
pub proof fn law_events_are_submitted(
    frame: u64,
    filter: Vec<u8>,
    proposed: Vec<Vec<u8>>,
    event: ControlEventType,
    data: ControlEventData,
)
    ensures
        frame > 0 ==> submission_for(
            frame,
            ControlEventType::ShardSplitEligible,
            ControlEventData::ShardSplit { filter, proposed },
        ) == Some(ShardSubmission::Split { shard: filter, proposed, frame }),
        frame > 0 ==> submission_for(
            frame,
            ControlEventType::ShardMergeEligible,
            ControlEventData::ShardMerge { filters: proposed, parent: filter },
        ) == Some(ShardSubmission::Merge { shards: proposed, parent: filter, frame }),
        submission_for(0, event, data) is None,
        event is Other ==> submission_for(frame, event, data) is None,
        event is ShardSplitEligible && !(data is ShardSplit) ==> submission_for(frame, event, data)
            is None,
        event is ShardMergeEligible && !(data is ShardMerge) ==> submission_for(frame, event, data)
            is None,
{
}

/// A node synchronises exactly where it is no archive and the pool has one.
pub proof fn law_who_synchronises(archive_mode: bool, pool: Seq<String>)
    ensures
        syncs(true, pool) == false,
        syncs(false, pool) <==> pool.len() != 0,
{
}

/// A node runs global consensus exactly where it is an archive or on the development
/// network, its prover is a global one, and it has a frame and a key. What is missing
/// first is the reason why it does not.
pub proof fn law_who_runs_consensus(
    archive_mode: bool,
    network: u8,
    global_prover: bool,
    has_frame: bool,
    has_signer: bool,
)
    ensures
        ({
            let d = consensus_choice(archive_mode, network, global_prover, has_frame, has_signer);
            &&& d is Activate <==> ((archive_mode || network == 99) && global_prover && has_frame
                && has_signer)
            &&& d is NotParticipant <==> (!archive_mode && network != 99)
            &&& d is NotGlobalProver <==> ((archive_mode || network == 99) && !global_prover)
            &&& d is NoFrame <==> ((archive_mode || network == 99) && global_prover && !has_frame)
            &&& d is NoSigner <==> ((archive_mode || network == 99) && global_prover && has_frame
                && !has_signer)
        }),
{
}

/// What is known of the shards is refreshed where it was never loaded, and 60 frames
/// after the last refresh, and not before.
pub proof fn law_refresh_is_due(s: ShardRefresh, now: u64, later: u64)
    requires
        s.last_refresh_frame == refreshed_at(now),
    ensures
        forall|t: ShardRefresh| #[trigger] t.is_due(later, false),
        now >= 1 ==> (s.is_due(later, true) <==> later - now >= 60),
        now == 0 ==> (s.is_due(later, true) <==> later >= 61),
        forall|t: ShardRefresh|
            t.last_refresh_frame == 0 ==> !(#[trigger] t.is_due(later, true)),
{
}

/// Two frames whose headers say what one state says have the same header, and a frame
/// says it of no other state.
pub proof fn law_header_tells_the_state(
    f: StoredFrame,
    g: StoredFrame,
    s: ConsensusState,
)
    requires
        header_matches(f, s),
        header_matches(g, s),
    ensures
        f.frame_number == g.frame_number == s.frame_number,
        f.rank == g.rank == s.rank,
        f.timestamp == g.timestamp == s.timestamp,
        f.difficulty == g.difficulty == s.difficulty,
        f.output@ == g.output@ && g.output@ == s.output@,
        f.parent_selector@ == g.parent_selector@ && g.parent_selector@ == s.parent_selector@,
        f.prover@ == g.prover@ && g.prover@ == s.prover@,
        f.prover_tree_commitment@ == g.prover_tree_commitment@ && g.prover_tree_commitment@
            == s.prover_tree_commitment@,
        f.requests_root@ == g.requests_root@ && g.requests_root@ == s.requests_root@,
{
}

/// A prover is global where one filter, wherever it stands, is empty.
pub proof fn law_one_empty_filter_is_enough(filters: Seq<Vec<u8>>, f: Vec<u8>)
    ensures
        !has_empty(Seq::<Vec<u8>>::empty()),
        has_empty(filters.push(f)) <==> (has_empty(filters) || f@.len() == 0),
{
    if has_empty(filters) {
        let i = choose|i: int| 0 <= i < filters.len() && (#[trigger] filters[i])@.len() == 0;
        assert(filters.push(f)[i]@.len() == 0);
    }
    if f@.len() == 0 {
        assert(filters.push(f)[filters.len() as int]@.len() == 0);
    }
    if has_empty(filters.push(f)) {
        let i = choose|i: int|
            0 <= i < filters.push(f).len() && (#[trigger] filters.push(f)[i])@.len() == 0;
        if i < filters.len() {
            assert(filters[i]@.len() == 0);
        }
    }
}

/// The answer speaks of the latest stored header's difficulty, and of the later one of
/// its frame and the frame seen last.
pub proof fn law_answer_is_of_the_latest_frame(difficulty: u32, frame: u64, current: u64)
    ensures
        basis_frame(Some((difficulty, frame)), current).0 == difficulty,
        basis_frame(Some((difficulty, frame)), current).1 >= frame,
        basis_frame(Some((difficulty, frame)), current).1 >= current,
        basis_frame(Some((difficulty, frame)), current).1 == frame || basis_frame(
            Some((difficulty, frame)),
            current,
        ).1 == current,
        basis_frame(None, current) == (0u64, current),
{
}

/// Each live allocation gives its filter, in order, and one that is not live gives
/// none.
pub proof fn law_live_filters_one_by_one(allocations: Seq<AllocationEntry>, a: AllocationEntry)
    ensures
        live_filters(Seq::<AllocationEntry>::empty()).len() == 0,
        a.live ==> live_filters(allocations.push(a)) == live_filters(allocations).push(
            a.confirmation_filter@,
        ),
        !a.live ==> live_filters(allocations.push(a)) == live_filters(allocations),
{
    assert(allocations.push(a).drop_last() =~= allocations);
}

proof fn lemma_live(allocations: Seq<AllocationEntry>, f: Seq<u8>)
    ensures
        live_filters(allocations).contains(f) <==> exists|k: int|
            0 <= k < allocations.len() && (#[trigger] allocations[k]).live
                && allocations[k].confirmation_filter@ == f,
    decreases allocations.len(),
{
    if allocations.len() > 0 {
        let front = allocations.drop_last();
        lemma_live(front, f);
        let all = live_filters(allocations);
        if all.contains(f) {
            let p = choose|p: int| 0 <= p < all.len() && all[p] == f;
            if p < live_filters(front).len() {
                assert(live_filters(front)[p] == f);
                let k = choose|k: int|
                    0 <= k < front.len() && (#[trigger] front[k]).live
                        && front[k].confirmation_filter@ == f;
                assert(allocations[k].live && allocations[k].confirmation_filter@ == f);
            } else {
                assert(allocations[allocations.len() - 1].live);
            }
        }
        if exists|k: int|
            0 <= k < allocations.len() && (#[trigger] allocations[k]).live
                && allocations[k].confirmation_filter@ == f {
            let k = choose|k: int|
                0 <= k < allocations.len() && (#[trigger] allocations[k]).live
                    && allocations[k].confirmation_filter@ == f;
            if k < front.len() {
                assert(front[k].live && front[k].confirmation_filter@ == f);
                let p = choose|p: int|
                    0 <= p < live_filters(front).len() && live_filters(front)[p] == f;
                assert(all[p] == f);
            } else {
                assert(all[all.len() - 1] == f);
            }
        }
    }
}

/// A prover's filters are those of its live allocations, in whatever entry of the
/// registry they stand, and of no other prover's.
pub proof fn law_allocated_filters(provers: Seq<ProverEntry>, address: Seq<u8>, f: Seq<u8>)
    ensures
        filters_of(provers, address).contains(f) <==> exists|i: int, k: int|
            0 <= i < provers.len() && provers[i].address@ == address && 0 <= k
                < provers[i].allocations@.len() && (#[trigger] provers[i].allocations@[k]).live
                && provers[i].allocations@[k].confirmation_filter@ == f,
    decreases provers.len(),
{
    if provers.len() > 0 {
        let front = provers.drop_last();
        let n = provers.len() - 1;
        law_allocated_filters(front, address, f);
        lemma_live(provers.last().allocations@, f);
        lemma_with_items(
            filters_of(front, address),
            live_filters(provers.last().allocations@),
            f,
        );
        if filters_of(provers, address).contains(f) {
            if filters_of(front, address).contains(f) {
                let (i, k) = choose|i: int, k: int|
                    0 <= i < front.len() && front[i].address@ == address && 0 <= k
                        < front[i].allocations@.len() && (#[trigger] front[i].allocations@[k]).live
                        && front[i].allocations@[k].confirmation_filter@ == f;
                assert(provers[i].allocations@[k].live);
            } else {
                let k = choose|k: int|
                    0 <= k < provers.last().allocations@.len() && (
                    #[trigger] provers.last().allocations@[k]).live
                        && provers.last().allocations@[k].confirmation_filter@ == f;
                assert(provers[n].allocations@[k].live);
            }
        }
        if exists|i: int, k: int|
            0 <= i < provers.len() && provers[i].address@ == address && 0 <= k
                < provers[i].allocations@.len() && (#[trigger] provers[i].allocations@[k]).live
                && provers[i].allocations@[k].confirmation_filter@ == f {
            let (i, k) = choose|i: int, k: int|
                0 <= i < provers.len() && provers[i].address@ == address && 0 <= k
                    < provers[i].allocations@.len() && (#[trigger] provers[i].allocations@[k]).live
                    && provers[i].allocations@[k].confirmation_filter@ == f;
            if i < front.len() {
                assert(front[i].allocations@[k].live);
            } else {
                assert(provers.last().allocations@[k].live);
            }
        }
    }
}

/// The node's own data is not enough exactly where it failed, where it tells of no
/// rewards, or where all shards were asked for, the node is no archive and shards are
/// missing.
pub proof fn law_own_data_is_enough(
    l: LocalInfo,
    include_all: bool,
    archive_mode: bool,
    expected: nat,
)
    ensures
        incomplete(None, include_all, archive_mode, expected),
        !incomplete(Some(l), include_all, archive_mode, expected) <==> l.basis != 0 && (
        !include_all || archive_mode || l.details >= expected),
{
}

/// The peer to ask is the latest frame's prover where it was reached, or else the first
/// archive of the pool that was; none is asked exactly where nobody was reached.
pub proof fn law_first_reached_is_asked<C>(primary: Option<C>, pool: Seq<Option<C>>, i: int)
    ensures
        primary is Some ==> reached(primary, pool) == primary,
        primary is None && 0 <= i < pool.len() && pool[i] is Some && (forall|j: int|
            0 <= j < i ==> #[trigger] pool[j] is None) ==> reached(primary, pool) == pool[i],
        primary is None && (forall|j: int| 0 <= j < pool.len() ==> #[trigger] pool[j] is None)
            ==> reached(primary, pool) is None,
    decreases pool.len(),
{
    if primary is None && pool.len() > 0 && pool[0] is None {
        let rest = pool.drop_first();
        assert forall|j: int| 0 <= j < rest.len() implies #[trigger] rest[j] == pool[j + 1] by {}
        law_first_reached_is_asked(primary, rest, i - 1);
        if 0 <= i < pool.len() && pool[i] is Some && (forall|j: int|
            0 <= j < i ==> #[trigger] pool[j] is None) {
            assert(i > 0);
            assert(rest[i - 1] == pool[i]);
            assert forall|j: int| 0 <= j < i - 1 implies #[trigger] rest[j] is None by {
                assert(pool[j + 1] is None);
            }
        }
        if forall|j: int| 0 <= j < pool.len() ==> #[trigger] pool[j] is None {
            assert forall|j: int| 0 <= j < rest.len() implies #[trigger] rest[j] is None by {
                assert(pool[j + 1] is None);
            }
        }
    }
}

/// Every part of a shard that a peer told of keeps its size and its number of data
/// shards, and its prefix where it has one; one without takes the shard's. Of a shard
/// that was not told of there is no part.
pub proof fn law_sizes_part_by_part(infos: Seq<ShardSizeView>, prefix: Seq<u32>, i: int)
    ensures
        sizes_of(None, prefix).len() == 0,
        sizes_of(Some(infos), prefix).len() == infos.len(),
        0 <= i < infos.len() ==> sizes_of(Some(infos), prefix)[i].size == infos[i].size
            && sizes_of(Some(infos), prefix)[i].data_shards == infos[i].data_shards,
        0 <= i < infos.len() && infos[i].prefix.len() > 0 ==> sizes_of(
            Some(infos),
            prefix,
        )[i].prefix == infos[i].prefix,
        0 <= i < infos.len() && infos[i].prefix.len() == 0 ==> sizes_of(
            Some(infos),
            prefix,
        )[i].prefix == prefix,
{
}

/// A peer is reached at the addresses of the first way that it names, all of them and
/// in order; one that is not known, or names no way, at none.
pub proof fn law_streams_of_the_first_way(way: Seq<String>, others: Seq<Seq<String>>, i: int)
    ensures
        stream_addrs_of(None).len() == 0,
        stream_addrs_of(Some(Seq::empty())).len() == 0,
        stream_addrs_of(Some(seq![way] + others)).len() == way.len(),
        0 <= i < way.len() ==> stream_addrs_of(Some(seq![way] + others))[i] == way[i]@,
{
    assert((seq![way] + others)[0] == way);
}

} // verus!
