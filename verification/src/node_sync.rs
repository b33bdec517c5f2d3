//! What a master node decides while it runs: which frame it stands on, when it
//! synchronises, whether it takes part in global consensus, and which frames it keeps.

use vstd::prelude::*;
use vstd::string::*;

use crate::bytes::{copy_all, copy_bytes, views};

verus! {

/// The frame that the node starts on: the latest one it has stored.
pub fn initial_head_frame(latest: Option<u64>) -> (r: u64)
    ensures
        r == match latest {
            Some(n) => n,
            None => 0,
        },
{
    match latest {
        Some(n) => n,
        None => 0,
    }
}

/// The head after a frame was seen. It never goes back, in whatever order the frames
/// are seen.
pub fn advance_head(head: u64, frame: u64) -> (r: u64)
    ensures
        r == if frame > head {
            frame
        } else {
            head
        },
{
    if frame > head {
        frame
    } else {
        head
    }
}

/// What an event of the network's control says.
#[derive(Clone, Copy, Debug, PartialEq, Eq, Structural)]
pub enum ControlEventType {
    ShardSplitEligible,
    ShardMergeEligible,
    Other,
}

/// What comes with an event.
pub enum ControlEventData {
    ShardSplit { filter: Vec<u8>, proposed: Vec<Vec<u8>> },
    ShardMerge { filters: Vec<Vec<u8>>, parent: Vec<u8> },
    Other,
}

/// A message that the prover is to submit.
pub enum ShardSubmission {
    Split { shard: Vec<u8>, proposed: Vec<Vec<u8>>, frame: u64 },
    Merge { shards: Vec<Vec<u8>>, parent: Vec<u8>, frame: u64 },
}

/// The message that an event calls for: a split or a merge of shards, where the event
/// comes with what it speaks of, and a frame has been seen.
pub open spec fn submission_for(
    frame: u64,
    event: ControlEventType,
    data: ControlEventData,
) -> Option<ShardSubmission> {
    if frame == 0 {
        None
    } else {
        match (event, data) {
            (
                ControlEventType::ShardSplitEligible,
                ControlEventData::ShardSplit { filter, proposed },
            ) => Some(ShardSubmission::Split { shard: filter, proposed, frame }),
            (
                ControlEventType::ShardMergeEligible,
                ControlEventData::ShardMerge { filters, parent },
            ) => Some(ShardSubmission::Merge { shards: filters, parent, frame }),
            _ => None,
        }
    }
}

/// The message that an event calls for.
pub fn shard_submission(frame: u64, event: ControlEventType, data: ControlEventData) -> (r: Option<
    ShardSubmission,
>)
    ensures
        r == submission_for(frame, event, data),
{
    if frame == 0 {
        return None;
    }
    match (event, data) {
        (
            ControlEventType::ShardSplitEligible,
            ControlEventData::ShardSplit { filter, proposed },
        ) => Some(ShardSubmission::Split { shard: filter, proposed, frame }),
        (
            ControlEventType::ShardMergeEligible,
            ControlEventData::ShardMerge { filters, parent },
        ) => Some(ShardSubmission::Merge { shards: filters, parent, frame }),
        _ => None,
    }
}

/// The archive to synchronise the tree of provers with, and the root that the result
/// must have; with an empty one any root will do.
pub struct SyncPlan {
    pub archive: String,
    pub expected_root: Vec<u8>,
}

/// Whether a node synchronises with an archive at all: an archive does not, and
/// without an archive in the pool there is nothing to synchronise with.
pub open spec fn syncs(archive_mode: bool, pool: Seq<String>) -> bool {
    !archive_mode && pool.len() > 0
}

/// The first synchronisation, with the first archive of the pool. No frame is
/// verified yet, so any root will do.
pub fn plan_initial_sync(archive_mode: bool, pool: &Vec<String>) -> (r: Option<SyncPlan>)
    ensures
        match r {
            Some(p) => syncs(archive_mode, pool@) && p.archive@ == pool@[0]@
                && p.expected_root@.len() == 0,
            None => !syncs(archive_mode, pool@),
        },
{
    if !archive_mode && pool.len() > 0 {
        Some(SyncPlan { archive: pool[0].as_str().to_owned(), expected_root: Vec::new() })
    } else {
        None
    }
}

/// A later synchronisation, with the first archive of the pool. The result must have
/// the root that the latest frame's header commits to, where there is one.
pub fn plan_periodic_sync(
    archive_mode: bool,
    pool: &Vec<String>,
    commitment: &Option<Vec<u8>>,
) -> (r: Option<SyncPlan>)
    ensures
        match r {
            Some(p) => syncs(archive_mode, pool@) && p.archive@ == pool@[0]@ && p.expected_root@
                == match *commitment {
                Some(c) => c@,
                None => Seq::empty(),
            },
            None => !syncs(archive_mode, pool@),
        },
{
    if !archive_mode && pool.len() > 0 {
        let expected_root: Vec<u8> = match commitment {
            Some(c) => copy_bytes(c.as_slice()),
            None => Vec::new(),
        };
        assert(commitment is None ==> expected_root@ =~= Seq::<u8>::empty());
        Some(SyncPlan { archive: pool[0].as_str().to_owned(), expected_root })
    } else {
        None
    }
}

/// May the prover's life cycle begin after the first synchronisation? An archive has
/// the data already; any other node needs one that succeeded.
pub fn lifecycle_enabled(archive_mode: bool, synced: Option<bool>) -> (r: bool)
    ensures
        r == (archive_mode || synced == Some(true)),
{
    archive_mode || match synced {
        Some(ok) => ok,
        None => false,
    }
}

/// The frame that consensus starts from: the candidate that the latest certificate
/// speaks of, without one the latest stored frame, without that the network's first.
pub fn bootstrap_frame<F, E>(
    candidate: Option<F>,
    committed: Result<F, E>,
    genesis: Result<F, E>,
) -> (r: Result<F, E>)
    ensures
        r == match candidate {
            Some(f) => Ok(f),
            None => match committed {
                Ok(f) => Ok(f),
                Err(_) => genesis,
            },
        },
{
    match candidate {
        Some(f) => Ok(f),
        None => match committed {
            Ok(f) => Ok(f),
            Err(_) => genesis,
        },
    }
}

/// Is the empty filter among these?
pub open spec fn has_empty(filters: Seq<Vec<u8>>) -> bool {
    exists|i: int| 0 <= i < filters.len() && (#[trigger] filters[i])@.len() == 0
}

fn find_empty(filters: &Vec<Vec<u8>>) -> (r: bool)
    ensures
        r == has_empty(filters@),
{
    let mut i: usize = 0;
    while i < filters.len()
        invariant
            i <= filters@.len(),
            forall|j: int| 0 <= j < i ==> (#[trigger] filters@[j])@.len() != 0,
        decreases filters@.len() - i,
    {
        if filters[i].len() == 0 {
            assert(filters@[i as int]@.len() == 0);
            return true;
        }
        i += 1;
    }
    false
}

/// Is a prover with these allocations a global one? It is where an allocation has the
/// empty filter.
pub fn is_global_prover(filters: &Option<Vec<Vec<u8>>>) -> (r: bool)
    ensures
        r == match *filters {
            Some(f) => has_empty(f@),
            None => false,
        },
{
    match filters {
        Some(f) => find_empty(f),
        None => false,
    }
}

/// Whether a node runs global consensus, or why it does not.
#[derive(Clone, Copy, Debug, PartialEq, Eq, Structural)]
pub enum ConsensusDecision {
    /// Only archives and nodes of the development network take part.
    NotParticipant,
    /// The node's prover has no allocation on the global filter.
    NotGlobalProver,
    /// There is no frame to start from.
    NoFrame,
    /// There is no key to sign with.
    NoSigner,
    Activate,
}

/// The number of the development network.
pub const DEVNET: u8 = 99;

/// Whether a node runs global consensus.
pub open spec fn consensus_choice(
    archive_mode: bool,
    network: u8,
    global_prover: bool,
    has_frame: bool,
    has_signer: bool,
) -> ConsensusDecision {
    if !archive_mode && network != DEVNET {
        ConsensusDecision::NotParticipant
    } else if !global_prover {
        ConsensusDecision::NotGlobalProver
    } else if !has_frame {
        ConsensusDecision::NoFrame
    } else if !has_signer {
        ConsensusDecision::NoSigner
    } else {
        ConsensusDecision::Activate
    }
}

/// Decides whether a node runs global consensus.
pub fn consensus_decision(
    archive_mode: bool,
    network: u8,
    global_prover: bool,
    has_frame: bool,
    has_signer: bool,
) -> (r: ConsensusDecision)
    ensures
        r == consensus_choice(archive_mode, network, global_prover, has_frame, has_signer),
{
    if !archive_mode && network != DEVNET {
        ConsensusDecision::NotParticipant
    } else if !global_prover {
        ConsensusDecision::NotGlobalProver
    } else if !has_frame {
        ConsensusDecision::NoFrame
    } else if !has_signer {
        ConsensusDecision::NoSigner
    } else {
        ConsensusDecision::Activate
    }
}

/// How many frames lie between two refreshes of what is known of the shards.
pub const REFRESH_CADENCE_FRAMES: u64 = 60;

/// The frame that is noted for a refresh: frame zero counts as frame one, since zero
/// stands for no refresh at all.
pub open spec fn refreshed_at(now: u64) -> u64 {
    if now > 1 {
        now
    } else {
        1
    }
}

/// When what is known of the shards was last refreshed.
pub struct ShardRefresh {
    /// The frame of the last refresh, or zero where there was none.
    pub last_refresh_frame: u64,
}

impl ShardRefresh {
    /// No refresh so far.
    pub fn new() -> (r: Self)
        ensures
            r.last_refresh_frame == 0,
    {
        ShardRefresh { last_refresh_frame: 0 }
    }

    /// Is a refresh due on this frame?
    pub open spec fn is_due(self, now: u64, loaded: bool) -> bool {
        !loaded || (self.last_refresh_frame > 0 && now >= self.last_refresh_frame
            + REFRESH_CADENCE_FRAMES)
    }

    /// Is a refresh due: nothing was loaded yet, or the last one is 60 frames back?
    pub fn due(&self, now: u64, loaded: bool) -> (r: bool)
        ensures
            r == self.is_due(now, loaded),
    {
        !loaded || (self.last_refresh_frame > 0 && now >= self.last_refresh_frame && now
            - self.last_refresh_frame >= REFRESH_CADENCE_FRAMES)
    }

    /// Notes that a refresh succeeded.
    pub fn done(&mut self, now: u64)
        ensures
            final(self).last_refresh_frame == refreshed_at(now),
    {
        self.last_refresh_frame =
        if now > 1 {
            now
        } else {
            1
        };
    }
}

/// A state that consensus agreed on, or is about to.
pub struct ConsensusState {
    pub frame_number: u64,
    pub rank: u64,
    pub timestamp: i64,
    pub difficulty: u32,
    pub output: Vec<u8>,
    pub parent_selector: Vec<u8>,
    pub prover: Vec<u8>,
    pub prover_tree_commitment: Vec<u8>,
    pub requests_root: Vec<u8>,
    pub messages: Vec<Vec<u8>>,
}

/// A frame as it is stored: what its header takes from the state, and its requests.
pub struct StoredFrame {
    pub frame_number: u64,
    pub rank: u64,
    pub timestamp: i64,
    pub difficulty: u32,
    pub output: Vec<u8>,
    pub parent_selector: Vec<u8>,
    pub prover: Vec<u8>,
    pub prover_tree_commitment: Vec<u8>,
    pub requests_root: Vec<u8>,
    pub requests: Vec<Vec<u8>>,
}

/// Does the frame's header say what the state says?
pub open spec fn header_matches(f: StoredFrame, s: ConsensusState) -> bool {
    &&& f.frame_number == s.frame_number
    &&& f.rank == s.rank
    &&& f.timestamp == s.timestamp
    &&& f.difficulty == s.difficulty
    &&& f.output@ == s.output@
    &&& f.parent_selector@ == s.parent_selector@
    &&& f.prover@ == s.prover@
    &&& f.prover_tree_commitment@ == s.prover_tree_commitment@
    &&& f.requests_root@ == s.requests_root@
}

/// The frame of a state that came into the tree of forks: a candidate, which carries
/// no requests.
pub fn candidate_frame(s: &ConsensusState) -> (r: StoredFrame)
    ensures
        header_matches(r, *s),
        r.requests@.len() == 0,
{
    StoredFrame {
        frame_number: s.frame_number,
        rank: s.rank,
        timestamp: s.timestamp,
        difficulty: s.difficulty,
        output: copy_bytes(s.output.as_slice()),
        parent_selector: copy_bytes(s.parent_selector.as_slice()),
        prover: copy_bytes(s.prover.as_slice()),
        prover_tree_commitment: copy_bytes(s.prover_tree_commitment.as_slice()),
        requests_root: copy_bytes(s.requests_root.as_slice()),
        requests: Vec::new(),
    }
}

/// The frame of a state that is final. It carries the state's messages, which are
/// executed from it.
pub fn finalized_frame(s: &ConsensusState) -> (r: StoredFrame)
    ensures
        header_matches(r, *s),
        views(r.requests@) == views(s.messages@),
{
    let mut frame = candidate_frame(s);
    frame.requests = copy_all(&s.messages);
    frame
}

/// Nobody outside the development network runs global consensus but an archive whose
/// prover is a global one.
pub proof fn law_consensus_is_for_global_archives(
    archive_mode: bool,
    network: u8,
    global_prover: bool,
    has_frame: bool,
    has_signer: bool,
)
    requires
        consensus_choice(archive_mode, network, global_prover, has_frame, has_signer)
            == ConsensusDecision::Activate,
    ensures
        global_prover,
        network != DEVNET ==> archive_mode,
{
}

/// After a refresh that succeeded, none is due before 60 further frames.
pub proof fn law_refreshes_keep_apart(after: ShardRefresh, now: u64, later: u64)
    requires
        after.last_refresh_frame == refreshed_at(now),
        later < now + REFRESH_CADENCE_FRAMES,
    ensures
        !after.is_due(later, true),
{
}

} // verus!
