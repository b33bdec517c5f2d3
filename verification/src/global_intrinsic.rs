//! The global intrinsic: which checks a global operation has to pass.
//!
//! The canonical decoders and the signature and proof checks live outside this
//! crate. What they say of an operation comes in as a report of plain values.

use vstd::prelude::*;

use crate::bytes::{be_nat, bytes_eq, copy_bytes, read_be_u32, sub_bytes};
use crate::checks::Answer;
use crate::codec::{hex_encode, hex_text};
use crate::error::{crypto, invalid_argument, outcome, ErrorView, QuilError};
use crate::text::concat2;

verus! {

/// The type tags of the global operations.
pub struct GlobalTypes {
    /// Every tag that belongs to the global engine.
    pub prefixes: Vec<u32>,
    pub prover_pause: u32,
    pub prover_resume: u32,
    pub prover_leave: u32,
    pub prover_confirm: u32,
    pub prover_reject: u32,
    pub prover_join: u32,
    pub prover_update: u32,
    pub alt_shard_update: u32,
    pub shard_split: u32,
    pub shard_merge: u32,
    pub seniority_merge: u32,
    pub prover_kick: u32,
    pub frame_header: u32,
}

/// The global operations.
#[derive(Clone, Copy, Debug, PartialEq, Eq, Structural)]
pub enum GlobalKind {
    Pause,
    Resume,
    Leave,
    Confirm,
    Reject,
    Join,
    Update,
    AltShardUpdate,
    ShardSplit,
    ShardMerge,
    SeniorityMerge,
    Kick,
    FrameHeader,
    Unknown,
}

impl GlobalTypes {
    /// The operation that a type tag names.
    pub open spec fn kind(&self, prefix: u32) -> GlobalKind {
        if prefix == self.prover_pause {
            GlobalKind::Pause
        } else if prefix == self.prover_resume {
            GlobalKind::Resume
        } else if prefix == self.prover_leave {
            GlobalKind::Leave
        } else if prefix == self.prover_confirm {
            GlobalKind::Confirm
        } else if prefix == self.prover_reject {
            GlobalKind::Reject
        } else if prefix == self.prover_join {
            GlobalKind::Join
        } else if prefix == self.prover_update {
            GlobalKind::Update
        } else if prefix == self.alt_shard_update {
            GlobalKind::AltShardUpdate
        } else if prefix == self.shard_split {
            GlobalKind::ShardSplit
        } else if prefix == self.shard_merge {
            GlobalKind::ShardMerge
        } else if prefix == self.seniority_merge {
            GlobalKind::SeniorityMerge
        } else if prefix == self.prover_kick {
            GlobalKind::Kick
        } else if prefix == self.frame_header {
            GlobalKind::FrameHeader
        } else {
            GlobalKind::Unknown
        }
    }

    /// Finds the operation that a type tag names.
    pub fn kind_of(&self, prefix: u32) -> (r: GlobalKind)
        ensures
            r == self.kind(prefix),
    {
        if prefix == self.prover_pause {
            GlobalKind::Pause
        } else if prefix == self.prover_resume {
            GlobalKind::Resume
        } else if prefix == self.prover_leave {
            GlobalKind::Leave
        } else if prefix == self.prover_confirm {
            GlobalKind::Confirm
        } else if prefix == self.prover_reject {
            GlobalKind::Reject
        } else if prefix == self.prover_join {
            GlobalKind::Join
        } else if prefix == self.prover_update {
            GlobalKind::Update
        } else if prefix == self.alt_shard_update {
            GlobalKind::AltShardUpdate
        } else if prefix == self.shard_split {
            GlobalKind::ShardSplit
        } else if prefix == self.shard_merge {
            GlobalKind::ShardMerge
        } else if prefix == self.seniority_merge {
            GlobalKind::SeniorityMerge
        } else if prefix == self.prover_kick {
            GlobalKind::Kick
        } else if prefix == self.frame_header {
            GlobalKind::FrameHeader
        } else {
            GlobalKind::Unknown
        }
    }

    /// Does the tag belong to the global engine?
    pub fn is_global(&self, prefix: u32) -> (r: bool)
        ensures
            r == self.prefixes@.contains(prefix),
    {
        let mut i: usize = 0;
        while i < self.prefixes.len()
            invariant
                i <= self.prefixes@.len(),
                forall|j: int| 0 <= j < i ==> self.prefixes@[j] != prefix,
            decreases self.prefixes@.len() - i,
        {
            if self.prefixes[i] == prefix {
                return true;
            }
            i += 1;
        }
        false
    }
}

/// Does an operation need the allocation's record to be validated?
pub fn needs_allocation_tree(types: &GlobalTypes, inner_tp: u32) -> (r: bool)
    ensures
        r == (inner_tp == types.prover_pause || inner_tp == types.prover_resume),
{
    inner_tp == types.prover_pause || inner_tp == types.prover_resume
}

/// An aggregate signature.
pub struct AggregateSignature {
    pub public_key: Option<Vec<u8>>,
    pub signature: Vec<u8>,
    pub bitmask: Vec<u8>,
}

/// An active prover of a shard.
pub struct ActiveProver {
    pub address: Vec<u8>,
    pub public_key: Vec<u8>,
}

/// What is known of a decoded frame header. Failures come with their text.
pub struct HeaderReport {
    /// The encoded aggregate signature.
    pub signature_bytes: Vec<u8>,
    pub signature: Result<AggregateSignature, String>,
    pub active_provers: Result<Vec<ActiveProver>, String>,
    /// The places of the set bits of the signature's bitmask.
    pub participant_indices: Vec<usize>,
    /// Making the key whose signatures fill up the aggregation.
    pub throwaway_key: Result<(), String>,
    /// The aggregate of the participants' public keys.
    pub aggregate: Result<Vec<u8>, String>,
    /// The signature check without, and with, the provers' addresses.
    pub attested_single: Result<bool, String>,
    pub attested_with_ids: Result<bool, String>,
}

/// What is known of a decoded join.
pub struct JoinChecks {
    pub structure: Answer,
    pub signatures: Result<bool, QuilError>,
}

/// What is known of a decoded kick.
pub struct KickChecks {
    pub full: Answer,
    pub equivocation: Result<bool, QuilError>,
}

/// What is known of an operation: its reading as the operation that its type tag
/// names, with what the checks of that operation say. `signed` is for the
/// operations that carry a signature of their prover: it holds what checking that
/// signature against the prover's record gives.
pub struct GlobalReport {
    pub signed: Result<Result<bool, QuilError>, QuilError>,
    pub join: Result<JoinChecks, QuilError>,
    pub alt_shard: Result<Result<bool, QuilError>, QuilError>,
    pub kick: Result<KickChecks, QuilError>,
    pub header_peek: Answer,
    pub header: Result<HeaderReport, QuilError>,
}

/// Is the place one of the participants'?
pub open spec fn is_participant(indices: Seq<usize>, i: int) -> bool {
    exists|k: int| 0 <= k < indices.len() && (#[trigger] indices[k]) as int == i
}

/// The public keys of the first `n` active provers that take part, in order.
pub open spec fn participant_keys(active: Seq<ActiveProver>, indices: Seq<usize>, n: int) -> Seq<
    Seq<u8>,
>
    decreases n,
{
    if n <= 0 {
        Seq::empty()
    } else {
        let before = participant_keys(active, indices, n - 1);
        if is_participant(indices, n - 1) {
            before.push(active[n - 1].public_key@)
        } else {
            before
        }
    }
}

/// The public keys that are aggregated: those of the active provers that take part.
pub fn select_participant_keys(active: &Vec<ActiveProver>, indices: &Vec<usize>) -> (r: Vec<Vec<u8>>)
    ensures
        crate::bytes::views(r@) == participant_keys(active@, indices@, active@.len() as int),
{
    let mut out: Vec<Vec<u8>> = Vec::new();
    let mut i: usize = 0;
    assert(crate::bytes::views(out@) =~= Seq::<Seq<u8>>::empty());
    while i < active.len()
        invariant
            i <= active@.len(),
            crate::bytes::views(out@) == participant_keys(active@, indices@, i as int),
        decreases active@.len() - i,
    {
        let mut found = false;
        let mut k: usize = 0;
        while k < indices.len()
            invariant
                k <= indices@.len(),
                found == exists|j: int| 0 <= j < k && (#[trigger] indices@[j]) == i,
            decreases indices@.len() - k,
        {
            if indices[k] == i {
                found = true;
            }
            k += 1;
        }
        let ghost before = crate::bytes::views(out@);
        assert(found == is_participant(indices@, i as int));
        if found {
            out.push(copy_bytes(active[i].public_key.as_slice()));
            assert(crate::bytes::views(out@) =~= before.push(active@[i as int].public_key@));
        }
        i += 1;
    }
    out
}

/// The declared public key of a signature; none counts as empty.
pub open spec fn declared_key(s: AggregateSignature) -> Seq<u8> {
    match s.public_key {
        Some(k) => k@,
        None => Seq::empty(),
    }
}

/// The verdict on a frame header's attestation. A signature of 74 bytes stands
/// alone; a longer one is checked with the provers' addresses.
pub open spec fn attestation(h: HeaderReport, s: AggregateSignature) -> Result<bool, String> {
    if s.signature@.len() == 74 {
        h.attested_single
    } else {
        h.attested_with_ids
    }
}

/// The checks of a frame header where the registry and both provers are installed.
pub open spec fn header_checks(h: HeaderReport) -> Result<bool, ErrorView> {
    if h.signature_bytes@.len() == 0 {
        Err(ErrorView::InvalidArgument("FrameHeader op missing BLS aggregate signature"@))
    } else {
        match h.signature {
            Err(e) => Err(
                ErrorView::InvalidArgument("FrameHeader: aggregate signature decode failed: "@ + e@),
            ),
            Ok(s) => match h.active_provers {
                Err(e) => Err(ErrorView::Internal("FrameHeader: get_active_provers: "@ + e@)),
                Ok(_) => match h.throwaway_key {
                    Err(e) => Err(ErrorView::Crypto("FrameHeader: throwaway key: "@ + e@)),
                    Ok(()) => match h.aggregate {
                        Err(e) => Err(ErrorView::Crypto("FrameHeader: aggregate: "@ + e@)),
                        Ok(key) => if key@ != declared_key(s) {
                            Err(
                                ErrorView::Crypto(
                                    "FrameHeader: aggregate pubkey does not match signature's declared pubkey"@,
                                ),
                            )
                        } else {
                            match attestation(h, s) {
                                Ok(true) => Ok(true),
                                Ok(false) => Err(
                                    ErrorView::Crypto(
                                        "FrameHeader: BLS signature / multiproof verification rejected"@,
                                    ),
                                ),
                                Err(e) => Err(
                                    ErrorView::Crypto(
                                        "FrameHeader: BLS signature / multiproof verification: "@
                                            + e@,
                                    ),
                                ),
                            }
                        },
                    },
                },
            },
        }
    }
}

/// The global intrinsic: the type tags, the address of its domain, and which of
/// the optional dependencies are installed.
pub struct GlobalIntrinsic {
    pub types: GlobalTypes,
    pub domain: Vec<u8>,
    pub frame_prover: bool,
    pub clock_store: bool,
    pub shards_store: bool,
    pub shards_db: bool,
    pub bls_constructor: bool,
    pub hypergraph: bool,
    pub inclusion_prover: bool,
    pub prover_registry: bool,
    pub reward_issuance: bool,
}

impl GlobalIntrinsic {
    /// What validating an operation gives, by the operation that its first four
    /// bytes name.
    pub open spec fn validation(&self, input: Seq<u8>, r: GlobalReport, has_prover_tree: bool) -> Result<
        bool,
        ErrorView,
    > {
        if input.len() < 4 {
            Err(ErrorView::InvalidArgument("global intrinsic: input too short"@))
        } else {
            match self.types.kind(be_nat(input.subrange(0, 4)) as u32) {
                GlobalKind::Pause | GlobalKind::Resume | GlobalKind::Leave | GlobalKind::Confirm
                | GlobalKind::Reject | GlobalKind::Update | GlobalKind::ShardSplit
                | GlobalKind::ShardMerge | GlobalKind::SeniorityMerge => match r.signed {
                    Err(e) => Err(e@),
                    Ok(v) => if has_prover_tree {
                        outcome(v)
                    } else {
                        Ok(true)
                    },
                },
                GlobalKind::Join => match r.join {
                    Err(e) => Err(e@),
                    Ok(j) => match j.structure {
                        Err(e) => Err(e@),
                        Ok(()) => outcome(j.signatures),
                    },
                },
                GlobalKind::AltShardUpdate => match r.alt_shard {
                    Err(e) => Err(e@),
                    Ok(v) => outcome(v),
                },
                GlobalKind::Kick => match r.kick {
                    Err(e) => Err(e@),
                    Ok(k) => if self.clock_store && self.frame_prover && self.bls_constructor
                        && self.hypergraph && self.inclusion_prover {
                        match k.full {
                            Err(e) => Err(e@),
                            Ok(()) => Ok(true),
                        }
                    } else {
                        outcome(k.equivocation)
                    },
                },
                GlobalKind::FrameHeader => match r.header_peek {
                    Err(e) => Err(e@),
                    Ok(()) => match r.header {
                        Err(e) => Err(e@),
                        Ok(h) => if self.prover_registry && self.frame_prover
                            && self.bls_constructor {
                            header_checks(h)
                        } else {
                            Ok(true)
                        },
                    },
                },
                GlobalKind::Unknown => Err(
                    ErrorView::InvalidArgument(
                        "global intrinsic: unknown type prefix 0x"@ + hex_text(
                            input.subrange(0, 4),
                        ),
                    ),
                ),
            }
        }
    }

    /// Without any optional dependency.
    pub fn new(types: GlobalTypes, domain: Vec<u8>) -> (r: Self)
        ensures
            r == (GlobalIntrinsic {
                types,
                domain,
                frame_prover: false,
                clock_store: false,
                shards_store: false,
                shards_db: false,
                bls_constructor: false,
                hypergraph: false,
                inclusion_prover: false,
                prover_registry: false,
                reward_issuance: false,
            }),
    {
        GlobalIntrinsic {
            types,
            domain,
            frame_prover: false,
            clock_store: false,
            shards_store: false,
            shards_db: false,
            bls_constructor: false,
            hypergraph: false,
            inclusion_prover: false,
            prover_registry: false,
            reward_issuance: false,
        }
    }

    /// With the frame prover only.
    pub fn new_with_frame_prover(types: GlobalTypes, domain: Vec<u8>) -> (r: Self)
        ensures
            r == (GlobalIntrinsic {
                types,
                domain,
                frame_prover: true,
                clock_store: false,
                shards_store: false,
                shards_db: false,
                bls_constructor: false,
                hypergraph: false,
                inclusion_prover: false,
                prover_registry: false,
                reward_issuance: false,
            }),
    {
        GlobalIntrinsic::new(types, domain).with_frame_prover()
    }

    /// With the given stores.
    pub fn new_with_stores(
        types: GlobalTypes,
        domain: Vec<u8>,
        frame_prover: bool,
        clock_store: bool,
        shards_store: bool,
        shards_db: bool,
    ) -> (r: Self)
        ensures
            r == (GlobalIntrinsic {
                types,
                domain,
                frame_prover,
                clock_store,
                shards_store,
                shards_db,
                bls_constructor: false,
                hypergraph: false,
                inclusion_prover: false,
                prover_registry: false,
                reward_issuance: false,
            }),
    {
        GlobalIntrinsic {
            frame_prover,
            clock_store,
            shards_store,
            shards_db,
            ..GlobalIntrinsic::new(types, domain)
        }
    }

    /// Installs what the full check of a kick needs besides the stores.
    pub fn with_kick_verify_deps(self) -> (r: Self)
        ensures
            r == (GlobalIntrinsic {
                bls_constructor: true,
                hypergraph: true,
                inclusion_prover: true,
                ..self
            }),
    {
        GlobalIntrinsic { bls_constructor: true, hypergraph: true, inclusion_prover: true, ..self }
    }

    /// Installs what crediting a frame header needs.
    pub fn with_frame_header_deps(self) -> (r: Self)
        ensures
            r == (GlobalIntrinsic { prover_registry: true, reward_issuance: true, ..self }),
    {
        GlobalIntrinsic { prover_registry: true, reward_issuance: true, ..self }
    }

    /// Installs the frame prover.
    pub fn with_frame_prover(self) -> (r: Self)
        ensures
            r == (GlobalIntrinsic { frame_prover: true, ..self }),
    {
        GlobalIntrinsic { frame_prover: true, ..self }
    }

    /// Validates an operation. `has_prover_tree` says whether the prover's record
    /// was loaded, against which the report's signature check was made.
    pub fn validate(&self, input: &[u8], r: &GlobalReport, has_prover_tree: bool) -> (res: Result<
        bool,
        QuilError,
    >)
        ensures
            outcome(res) == self.validation(input@, *r, has_prover_tree),
    {
        if input.len() < 4 {
            return Err(invalid_argument("global intrinsic: input too short"));
        }
        let tag: u32 = read_be_u32(input);
        match self.types.kind_of(tag) {
            GlobalKind::Pause
            | GlobalKind::Resume
            | GlobalKind::Leave
            | GlobalKind::Confirm
            | GlobalKind::Reject
            | GlobalKind::Update
            | GlobalKind::ShardSplit
            | GlobalKind::ShardMerge
            | GlobalKind::SeniorityMerge => match &r.signed {
                Err(e) => Err(e.duplicate()),
                Ok(v) => if has_prover_tree {
                    repeat_verdict(v)
                } else {
                    Ok(true)
                },
            },
            GlobalKind::Join => match &r.join {
                Err(e) => Err(e.duplicate()),
                Ok(j) => match &j.structure {
                    Err(e) => Err(e.duplicate()),
                    Ok(()) => repeat_verdict(&j.signatures),
                },
            },
            GlobalKind::AltShardUpdate => match &r.alt_shard {
                Err(e) => Err(e.duplicate()),
                Ok(v) => repeat_verdict(v),
            },
            GlobalKind::Kick => match &r.kick {
                Err(e) => Err(e.duplicate()),
                Ok(k) => if self.clock_store && self.frame_prover && self.bls_constructor
                    && self.hypergraph && self.inclusion_prover {
                    match &k.full {
                        Err(e) => Err(e.duplicate()),
                        Ok(()) => Ok(true),
                    }
                } else {
                    repeat_verdict(&k.equivocation)
                },
            },
            GlobalKind::FrameHeader => match &r.header_peek {
                Err(e) => Err(e.duplicate()),
                Ok(()) => match &r.header {
                    Err(e) => Err(e.duplicate()),
                    Ok(h) => if self.prover_registry && self.frame_prover && self.bls_constructor {
                        check_header(h)
                    } else {
                        Ok(true)
                    },
                },
            },
            GlobalKind::Unknown => {
                let text = hex_encode(sub_bytes(input, 0, 4).as_slice());
                Err(
                    QuilError::InvalidArgument(
                        concat2("global intrinsic: unknown type prefix 0x", text.as_str()),
                    ),
                )
            },
        }
    }
}

/// The same verdict once more.
pub fn repeat_verdict(v: &Result<bool, QuilError>) -> (r: Result<bool, QuilError>)
    ensures
        outcome(r) == outcome(*v),
{
    match v {
        Ok(b) => Ok(*b),
        Err(e) => Err(e.duplicate()),
    }
}

fn check_header(h: &HeaderReport) -> (r: Result<bool, QuilError>)
    ensures
        outcome(r) == header_checks(*h),
{
    if h.signature_bytes.len() == 0 {
        return Err(invalid_argument("FrameHeader op missing BLS aggregate signature"));
    }
    let s = match &h.signature {
        Err(e) => {
            return Err(
                QuilError::InvalidArgument(
                    concat2("FrameHeader: aggregate signature decode failed: ", e.as_str()),
                ),
            );
        },
        Ok(s) => s,
    };
    if let Err(e) = &h.active_provers {
        return Err(
            QuilError::Internal(concat2("FrameHeader: get_active_provers: ", e.as_str())),
        );
    }
    if let Err(e) = &h.throwaway_key {
        return Err(QuilError::Crypto(concat2("FrameHeader: throwaway key: ", e.as_str())));
    }
    let key = match &h.aggregate {
        Err(e) => {
            return Err(QuilError::Crypto(concat2("FrameHeader: aggregate: ", e.as_str())));
        },
        Ok(k) => k,
    };
    let none: Vec<u8> = Vec::new();
    assert(none@ =~= Seq::<u8>::empty());
    let declared: &Vec<u8> = match &s.public_key {
        Some(k) => k,
        None => &none,
    };
    if !bytes_eq(key.as_slice(), declared.as_slice()) {
        return Err(
            crypto("FrameHeader: aggregate pubkey does not match signature's declared pubkey"),
        );
    }
    let verdict = if s.signature.len() == 74 {
        &h.attested_single
    } else {
        &h.attested_with_ids
    };
    match verdict {
        Ok(true) => Ok(true),
        Ok(false) => Err(
            crypto("FrameHeader: BLS signature / multiproof verification rejected"),
        ),
        Err(e) => Err(
            QuilError::Crypto(
                concat2(
                    "FrameHeader: BLS signature / multiproof verification: ",
                    e.as_str(),
                ),
            ),
        ),
    }
}

} // verus!
