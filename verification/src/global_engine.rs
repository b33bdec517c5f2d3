//! The global execution engine: routes global operations, and credits, splits and
//! merges shards.

use vstd::prelude::*;

use crate::bytes::{be_nat, copy_bytes, read_be_u32, sub_bytes};
use crate::checks::{answer, success_of, Answer};
use crate::codec::{hex_encode, hex_text};
use crate::error::{invalid_argument, ErrorView, QuilError};
use crate::global_intrinsic::{GlobalIntrinsic, GlobalKind};
use crate::global_join::{
    invoke_join, invoke_seniority_merge, join_effect, merge_effect, put_all, put_records, JoinOp,
    MergeOp, RecordWrite,
};
use crate::global_steps::{
    bad, fails, filter_effect, filters_effect, invoke_filter_op, invoke_filter_ops, invoke_kick,
    kick_effect, vertex, FilterStep, GlobalLog, StepEffect,
};
use crate::records::GlobalValue;
use crate::state::{lookup, HypergraphState, Layer};
use crate::text::concat2;

verus! {

/// An operation on one allocation.
pub struct OneFilterOp {
    pub address: Option<Vec<u8>>,
    pub step: FilterStep,
}

/// An operation on several allocations.
pub struct ManyFilterOp {
    pub address: Option<Vec<u8>>,
    pub steps: Vec<FilterStep>,
}

/// What is known of a decoded update of a prover.
pub struct ProverUpdateOp {
    pub address: Option<Vec<u8>>,
    pub verified: Result<bool, QuilError>,
    pub writes: Result<Vec<RecordWrite>, QuilError>,
}

/// A whole number of any size, as its sign and its big-endian magnitude.
pub struct BigSize {
    pub negative: bool,
    pub magnitude: Vec<u8>,
}

/// The size of a shard and how many leaves it has.
pub struct ShardSize {
    pub size: BigSize,
    pub leaf_count: u64,
}

/// What is known of a decoded frame header that is to be credited. Failures come
/// with their text; `credited` holds the records that crediting it writes, for the
/// values that [`plan_credit`] gives.
pub struct HeaderCredit {
    pub active_provers: Result<(), String>,
    /// The places of the set bits of the attested bitmask.
    pub attestation: Result<Vec<usize>, String>,
    pub shard: Option<ShardSize>,
    pub world_size: BigSize,
    pub credited: Result<Vec<RecordWrite>, QuilError>,
}

/// A shard, by its key and its path.
pub struct ShardPath {
    pub shard_key: Vec<u8>,
    pub path: Vec<u32>,
}

/// What is to be done to the store of shards.
pub enum ShardWork {
    Nothing,
    Put(Vec<ShardPath>),
    Remove(Vec<ShardPath>),
}

/// What is known of an operation that is to be applied: its reading as the
/// operation that its type tag names.
pub struct GlobalStep {
    pub one_filter: Result<OneFilterOp, QuilError>,
    pub many_filters: Result<ManyFilterOp, QuilError>,
    pub join: Result<JoinOp, QuilError>,
    /// The address of the prover to be kicked.
    pub kick: Result<Result<Vec<u8>, QuilError>, QuilError>,
    pub update: Result<ProverUpdateOp, QuilError>,
    pub merge: Result<MergeOp, QuilError>,
    pub header: Result<HeaderCredit, QuilError>,
    pub split: Result<Result<Vec<ShardPath>, QuilError>, QuilError>,
    pub shard_merge: Result<Result<Vec<ShardPath>, QuilError>, QuilError>,
    pub alt_shard: Result<Answer, QuilError>,
}

/// The number as 64 bits, or zero where it is negative or too large.
pub open spec fn fitting(s: BigSize) -> nat {
    if !s.negative && be_nat(s.magnitude@) <= u64::MAX {
        be_nat(s.magnitude@)
    } else {
        0
    }
}

/// The places that fit into a byte.
pub open spec fn byte_places(v: Seq<usize>) -> Seq<u8>
    decreases v.len(),
{
    if v.len() == 0 {
        Seq::empty()
    } else if v.last() <= 255 {
        byte_places(v.drop_last()).push(v.last() as u8)
    } else {
        byte_places(v.drop_last())
    }
}

/// What crediting a frame header goes by.
pub struct CreditView {
    pub participants: Seq<u8>,
    pub state_size: nat,
    pub shard_count: nat,
    pub world_size: nat,
}

/// What crediting a frame header goes by.
pub struct Credit {
    pub participants: Vec<u8>,
    pub state_size: u64,
    pub shard_count: u64,
    pub world_size: u64,
}

impl View for Credit {
    type V = CreditView;

    open spec fn view(&self) -> CreditView {
        CreditView {
            participants: self.participants@,
            state_size: self.state_size as nat,
            shard_count: self.shard_count as nat,
            world_size: self.world_size as nat,
        }
    }
}

impl GlobalIntrinsic {
    /// What crediting a frame header goes by, or nothing where the registry, the frame
    /// prover, the rewards or the hypergraph are not installed, or an objection.
    pub open spec fn credit_plan(&self, h: HeaderCredit) -> Result<Option<CreditView>, ErrorView> {
        if !(self.prover_registry && self.frame_prover && self.reward_issuance && self.hypergraph) {
            Ok(None)
        } else if !self.bls_constructor {
            Err(
                bad(
                    "invoke_frame_header: missing frame_prover or bls_constructor for attestation verify"@,
                ),
            )
        } else {
            match h.active_provers {
                Err(e) => Err(bad("invoke_frame_header: get_active_provers failed: "@ + e@)),
                Ok(()) => match h.attestation {
                    Err(e) => Err(
                        bad("invoke_frame_header: frame header attestation invalid: "@ + e@),
                    ),
                    Ok(places) => Ok(
                        Some(
                            CreditView {
                                participants: byte_places(places@),
                                state_size: match h.shard {
                                    Some(s) => fitting(s.size),
                                    None => 0,
                                },
                                shard_count: match h.shard {
                                    Some(s) => s.leaf_count as nat,
                                    None => 0,
                                },
                                world_size: fitting(h.world_size),
                            },
                        ),
                    ),
                },
            }
        }
    }

    /// The effect of crediting a frame header.
    pub open spec fn credit_effect(&self, log: GlobalLog, frame_number: u64, h: HeaderCredit) -> StepEffect {
        match self.credit_plan(h) {
            Err(e) => fails(log, e),
            Ok(None) => StepEffect { answer: Ok(()), log },
            Ok(Some(_)) => match h.credited {
                Err(e) => fails(log, e@),
                Ok(ws) => StepEffect {
                    answer: Ok(()),
                    log: put_all(log, self.domain@, frame_number, ws@),
                },
            },
        }
    }

    /// The effect of updating a prover. The prover must exist, and the signature
    /// must hold.
    pub open spec fn update_effect(&self, log: GlobalLog, frame_number: u64, u: ProverUpdateOp) -> StepEffect {
        match u.address {
            None => fails(log, bad("invoke_update: missing signature"@)),
            Some(a) => if a@.len() != 32 {
                fails(log, bad("invoke_update: invalid prover address length"@))
            } else {
                match lookup(log, vertex(self.domain@, a@)) {
                    None => fails(log, bad("invoke_update: prover not found"@)),
                    Some(v) => if v is Empty {
                        fails(log, bad("invoke_update: prover has no data"@))
                    } else {
                        match u.verified {
                            Err(e) => fails(log, e@),
                            Ok(false) => fails(
                                log,
                                bad("invoke_update: signature verification failed at materialize"@),
                            ),
                            Ok(true) => match u.writes {
                                Err(e) => fails(log, e@),
                                Ok(ws) => StepEffect {
                                    answer: Ok(()),
                                    log: put_all(log, self.domain@, frame_number, ws@),
                                },
                            },
                        }
                    },
                }
            },
        }
    }

    /// The effect of an operation on the state, by the operation that its first
    /// four bytes name.
    pub open spec fn step_effect(&self, log: GlobalLog, frame_number: u64, input: Seq<u8>, s: GlobalStep) -> StepEffect {
        if input.len() < 4 {
            fails(log, bad("global intrinsic invoke_step: input too short"@))
        } else {
            match self.types.kind(be_nat(input.subrange(0, 4)) as u32) {
                GlobalKind::Pause | GlobalKind::Resume | GlobalKind::Reject => match s.one_filter {
                    Err(e) => fails(log, e@),
                    Ok(op) => filter_effect(self.domain@, log, frame_number, op.address, op.step),
                },
                GlobalKind::Leave | GlobalKind::Confirm => match s.many_filters {
                    Err(e) => fails(log, e@),
                    Ok(op) => filters_effect(
                        self.domain@,
                        log,
                        frame_number,
                        op.address,
                        op.steps@,
                    ),
                },
                GlobalKind::Join => match s.join {
                    Err(e) => fails(log, e@),
                    Ok(op) => join_effect(self.domain@, log, frame_number, op),
                },
                GlobalKind::Kick => match s.kick {
                    Err(e) => fails(log, e@),
                    Ok(a) => kick_effect(self.domain@, log, frame_number, a),
                },
                GlobalKind::Update => match s.update {
                    Err(e) => fails(log, e@),
                    Ok(u) => self.update_effect(log, frame_number, u),
                },
                GlobalKind::SeniorityMerge => match s.merge {
                    Err(e) => fails(log, e@),
                    Ok(op) => merge_effect(self.domain@, log, frame_number, op),
                },
                GlobalKind::FrameHeader => match s.header {
                    Err(e) => fails(log, e@),
                    Ok(h) => self.credit_effect(log, frame_number, h),
                },
                GlobalKind::ShardSplit => StepEffect { answer: nested(s.split), log },
                GlobalKind::ShardMerge => StepEffect { answer: nested(s.shard_merge), log },
                GlobalKind::AltShardUpdate => StepEffect { answer: nested(s.alt_shard), log },
                GlobalKind::Unknown => fails(
                    log,
                    bad(
                        "global intrinsic invoke_step: unknown type prefix 0x"@ + hex_text(
                            input.subrange(0, 4),
                        ),
                    ),
                ),
            }
        }
    }

    /// What a split or a merge of shards asks of the store of shards, where one is
    /// installed.
    pub open spec fn shard_work(&self, input: Seq<u8>, s: GlobalStep) -> ShardWorkView {
        if input.len() < 4 || !(self.shards_store && self.shards_db) {
            ShardWorkView::Nothing
        } else {
            match self.types.kind(be_nat(input.subrange(0, 4)) as u32) {
                GlobalKind::ShardSplit => ShardWorkView::Put(path_views(s.split->Ok_0->Ok_0@)),
                GlobalKind::ShardMerge => ShardWorkView::Remove(
                    path_views(s.shard_merge->Ok_0->Ok_0@),
                ),
                _ => ShardWorkView::Nothing,
            }
        }
    }
}

/// The success of a reading and of what follows it.
pub open spec fn nested<T>(r: Result<Result<T, QuilError>, QuilError>) -> Result<(), ErrorView> {
    match r {
        Err(e) => Err(e@),
        Ok(inner) => success_of(inner),
    }
}

/// The mathematical value of a [`ShardPath`].
pub struct PathView {
    pub shard_key: Seq<u8>,
    pub path: Seq<u32>,
}

/// The views of shards.
pub open spec fn path_views(v: Seq<ShardPath>) -> Seq<PathView> {
    Seq::new(v.len(), |i: int| PathView { shard_key: v[i].shard_key@, path: v[i].path@ })
}

/// The mathematical value of a [`ShardWork`].
pub enum ShardWorkView {
    Nothing,
    Put(Seq<PathView>),
    Remove(Seq<PathView>),
}

impl View for ShardWork {
    type V = ShardWorkView;

    open spec fn view(&self) -> ShardWorkView {
        match self {
            ShardWork::Nothing => ShardWorkView::Nothing,
            ShardWork::Put(v) => ShardWorkView::Put(path_views(v@)),
            ShardWork::Remove(v) => ShardWorkView::Remove(path_views(v@)),
        }
    }
}

fn copy_paths(v: &Vec<ShardPath>) -> (r: Vec<ShardPath>)
    ensures
        path_views(r@) == path_views(v@),
{
    let mut r: Vec<ShardPath> = Vec::new();
    let mut i: usize = 0;
    while i < v.len()
        invariant
            i <= v@.len(),
            r@.len() == i,
            forall|j: int|
                0 <= j < i ==> r@[j].shard_key@ == v@[j].shard_key@ && r@[j].path@ == v@[j].path@,
        decreases v@.len() - i,
    {
        r.push(
            ShardPath {
                shard_key: copy_bytes(v[i].shard_key.as_slice()),
                path: vstd::slice::slice_to_vec(v[i].path.as_slice()),
            },
        );
        i += 1;
    }
    assert(path_views(r@) =~= path_views(v@));
    r
}

proof fn lemma_be_nat_zero_prefix(s: Seq<u8>, n: int)
    requires
        0 <= n <= s.len(),
        forall|i: int| 0 <= i < n ==> s[i] == 0,
    ensures
        be_nat(s) == be_nat(s.skip(n)),
    decreases s.len(),
{
    if n == s.len() {
        if s.len() > 0 {
            lemma_be_nat_zero_prefix(s.drop_last(), n - 1);
            assert(s.drop_last().skip(n - 1) =~= s.skip(n));
        } else {
            assert(s.skip(n) =~= s);
        }
    } else {
        lemma_be_nat_zero_prefix(s.drop_last(), n);
        assert(s.skip(n).drop_last() =~= s.drop_last().skip(n));
        assert(s.skip(n).last() == s.last());
    }
}

/// A number that starts with a byte other than zero is at least that byte at its
/// place.
proof fn lemma_be_nat_large(s: Seq<u8>)
    requires
        s.len() >= 1,
        s[0] != 0,
    ensures
        s.len() >= 9 ==> be_nat(s) > u64::MAX,
        be_nat(s) >= 1,
    decreases s.len(),
{
    if s.len() == 1 {
        assert(s.drop_last() =~= Seq::<u8>::empty());
    } else if s.len() < 9 {
        lemma_be_nat_large(s.drop_last());
    } else if s.len() == 9 {
        reveal_with_fuel(be_nat, 10);
        assert(s.drop_last().last() == s[7]);
        assert(s.drop_last().drop_last().last() == s[6]);
        assert(s.drop_last().drop_last().drop_last().last() == s[5]);
        assert(s.drop_last().drop_last().drop_last().drop_last().last() == s[4]);
        assert(s.drop_last().drop_last().drop_last().drop_last().drop_last().last() == s[3]);
        assert(s.drop_last().drop_last().drop_last().drop_last().drop_last().drop_last().last()
            == s[2]);
        assert(
        s.drop_last().drop_last().drop_last().drop_last().drop_last().drop_last().drop_last().last()
            == s[1]);
        assert(
        s.drop_last().drop_last().drop_last().drop_last().drop_last().drop_last().drop_last().drop_last().last()
            == s[0]);
    } else {
        lemma_be_nat_large(s.drop_last());
    }
}

/// The number as 64 bits, or zero where it does not fit.
pub fn size_or_zero(s: &BigSize) -> (r: u64)
    ensures
        r as nat == fitting(*s),
{
    if s.negative {
        return 0;
    }
    let m = &s.magnitude;
    let mut i: usize = 0;
    while i < m.len() && m[i] == 0
        invariant
            i <= m@.len(),
            forall|j: int| 0 <= j < i ==> m@[j] == 0,
        decreases m@.len() - i,
    {
        i += 1;
    }
    let ghost rest = m@.skip(i as int);
    proof {
        lemma_be_nat_zero_prefix(m@, i as int);
    }
    if m.len() - i > 8 {
        proof {
            lemma_be_nat_large(rest);
        }
        return 0;
    }
    let mut r: u64 = 0;
    let mut k: usize = i;
    assert(rest.take(0) =~= Seq::<u8>::empty());
    while k < m.len()
        invariant
            i <= k <= m@.len(),
            m@.len() - i <= 8,
            rest == m@.skip(i as int),
            r as nat == be_nat(rest.take(k - i)),
            k - i == 0 ==> r == 0,
            k - i == 1 ==> r < 0x100,
            k - i == 2 ==> r < 0x1_0000,
            k - i == 3 ==> r < 0x100_0000,
            k - i == 4 ==> r < 0x1_0000_0000,
            k - i == 5 ==> r < 0x100_0000_0000,
            k - i == 6 ==> r < 0x1_0000_0000_0000,
            k - i == 7 ==> r < 0x100_0000_0000_0000,
        decreases m@.len() - k,
    {
        proof {
            let t = rest.take(k - i + 1);
            assert(t.drop_last() =~= rest.take(k - i));
            assert(t.last() == m@[k as int]);
        }
        r = r * 256 + m[k] as u64;
        k += 1;
    }
    assert(rest.take(k - i) =~= rest);
    r
}

/// The places that fit into a byte.
pub fn places_to_bytes(v: &Vec<usize>) -> (r: Vec<u8>)
    ensures
        r@ == byte_places(v@),
{
    let mut r: Vec<u8> = Vec::new();
    let mut i: usize = 0;
    assert(v@.take(0) =~= Seq::<usize>::empty());
    while i < v.len()
        invariant
            i <= v@.len(),
            r@ == byte_places(v@.take(i as int)),
        decreases v@.len() - i,
    {
        proof {
            assert(v@.take(i + 1).drop_last() =~= v@.take(i as int));
            assert(v@.take(i + 1).last() == v@[i as int]);
        }
        if v[i] <= 255 {
            r.push(v[i] as u8);
        }
        i += 1;
    }
    assert(v@.take(i as int) =~= v@);
    r
}

impl GlobalIntrinsic {
    /// Checks a frame header's attestation and works out what crediting it goes by.
    pub fn plan_credit(&self, h: &HeaderCredit) -> (r: Result<Option<Credit>, QuilError>)
        ensures
            match r {
                Ok(Some(c)) => self.credit_plan(*h) == Ok::<Option<CreditView>, ErrorView>(Some(c@)),
                Ok(None) => self.credit_plan(*h) == Ok::<Option<CreditView>, ErrorView>(None),
                Err(e) => self.credit_plan(*h) == Err::<Option<CreditView>, ErrorView>(e@),
            },
    {
        if !(self.prover_registry && self.frame_prover && self.reward_issuance && self.hypergraph) {
            return Ok(None);
        }
        if !self.bls_constructor {
            return Err(
                invalid_argument(
                    "invoke_frame_header: missing frame_prover or bls_constructor for attestation verify",
                ),
            );
        }
        if let Err(e) = &h.active_provers {
            return Err(
                QuilError::InvalidArgument(
                    concat2("invoke_frame_header: get_active_provers failed: ", e.as_str()),
                ),
            );
        }
        match &h.attestation {
            Err(e) => Err(
                QuilError::InvalidArgument(
                    concat2("invoke_frame_header: frame header attestation invalid: ", e.as_str()),
                ),
            ),
            Ok(places) => {
                let (state_size, shard_count): (u64, u64) = match &h.shard {
                    Some(s) => (size_or_zero(&s.size), s.leaf_count),
                    None => (0, 0),
                };
                Ok(
                    Some(
                        Credit {
                            participants: places_to_bytes(places),
                            state_size,
                            shard_count,
                            world_size: size_or_zero(&h.world_size),
                        },
                    ),
                )
            },
        }
    }

    fn invoke_frame_header(
        &self,
        state: &mut HypergraphState<GlobalValue>,
        frame_number: u64,
        h: &HeaderCredit,
    ) -> (a: Answer)
        ensures
            final(state).committed == old(state).committed,
            ({
                let eff = self.credit_effect(old(state)@, frame_number, *h);
                answer(a) == eff.answer && final(state)@ == eff.log
            }),
    {
        match self.plan_credit(h) {
            Err(e) => Err(e),
            Ok(None) => Ok(()),
            Ok(Some(_)) => match &h.credited {
                Err(e) => Err(e.duplicate()),
                Ok(ws) => {
                    put_records(&self.domain, state, frame_number, ws);
                    Ok(())
                },
            },
        }
    }

    fn invoke_update(
        &self,
        state: &mut HypergraphState<GlobalValue>,
        frame_number: u64,
        u: &ProverUpdateOp,
    ) -> (a: Answer)
        ensures
            final(state).committed == old(state).committed,
            ({
                let eff = self.update_effect(old(state)@, frame_number, *u);
                answer(a) == eff.answer && final(state)@ == eff.log
            }),
    {
        let a = match &u.address {
            None => {
                return Err(invalid_argument("invoke_update: missing signature"));
            },
            Some(a) => a,
        };
        if a.len() != 32 {
            return Err(invalid_argument("invoke_update: invalid prover address length"));
        }
        match state.get(self.domain.as_slice(), a.as_slice(), Layer::VertexAdds) {
            None => {
                return Err(invalid_argument("invoke_update: prover not found"));
            },
            Some(v) => {
                if v.is_empty() {
                    return Err(invalid_argument("invoke_update: prover has no data"));
                }
            },
        }
        match &u.verified {
            Err(e) => {
                return Err(e.duplicate());
            },
            Ok(v) => if !*v {
                return Err(
                    invalid_argument("invoke_update: signature verification failed at materialize"),
                );
            },
        }
        match &u.writes {
            Err(e) => Err(e.duplicate()),
            Ok(ws) => {
                put_records(&self.domain, state, frame_number, ws);
                Ok(())
            },
        }
    }

    /// Applies an operation to the state; gives what it asks of the store of
    /// shards.
    pub fn invoke_step(
        &self,
        state: &mut HypergraphState<GlobalValue>,
        frame_number: u64,
        input: &[u8],
        s: &GlobalStep,
    ) -> (r: Result<ShardWork, QuilError>)
        ensures
            final(state).committed == old(state).committed,
            ({
                let eff = self.step_effect(old(state)@, frame_number, input@, *s);
                &&& success_of(r) == eff.answer
                &&& final(state)@ == eff.log
            }),
            r matches Ok(w) ==> w@ == self.shard_work(input@, *s),
    {
        if input.len() < 4 {
            return Err(invalid_argument("global intrinsic invoke_step: input too short"));
        }
        let tag: u32 = read_be_u32(input);
        let a: Answer = match self.types.kind_of(tag) {
            GlobalKind::Pause | GlobalKind::Resume | GlobalKind::Reject => match &s.one_filter {
                Err(e) => Err(e.duplicate()),
                Ok(op) => invoke_filter_op(
                    &self.domain,
                    state,
                    frame_number,
                    &op.address,
                    &op.step,
                ),
            },
            GlobalKind::Leave | GlobalKind::Confirm => match &s.many_filters {
                Err(e) => Err(e.duplicate()),
                Ok(op) => invoke_filter_ops(
                    &self.domain,
                    state,
                    frame_number,
                    &op.address,
                    &op.steps,
                ),
            },
            GlobalKind::Join => match &s.join {
                Err(e) => Err(e.duplicate()),
                Ok(op) => invoke_join(&self.domain, state, frame_number, op),
            },
            GlobalKind::Kick => match &s.kick {
                Err(e) => Err(e.duplicate()),
                Ok(a) => invoke_kick(&self.domain, state, frame_number, a),
            },
            GlobalKind::Update => match &s.update {
                Err(e) => Err(e.duplicate()),
                Ok(u) => self.invoke_update(state, frame_number, u),
            },
            GlobalKind::SeniorityMerge => match &s.merge {
                Err(e) => Err(e.duplicate()),
                Ok(op) => invoke_seniority_merge(&self.domain, state, frame_number, op),
            },
            GlobalKind::FrameHeader => match &s.header {
                Err(e) => Err(e.duplicate()),
                Ok(h) => self.invoke_frame_header(state, frame_number, h),
            },
            GlobalKind::ShardSplit => {
                return match &s.split {
                    Err(e) => Err(e.duplicate()),
                    Ok(Err(e)) => Err(e.duplicate()),
                    Ok(Ok(v)) => if self.shards_store && self.shards_db {
                        Ok(ShardWork::Put(copy_paths(v)))
                    } else {
                        Ok(ShardWork::Nothing)
                    },
                };
            },
            GlobalKind::ShardMerge => {
                return match &s.shard_merge {
                    Err(e) => Err(e.duplicate()),
                    Ok(Err(e)) => Err(e.duplicate()),
                    Ok(Ok(v)) => if self.shards_store && self.shards_db {
                        Ok(ShardWork::Remove(copy_paths(v)))
                    } else {
                        Ok(ShardWork::Nothing)
                    },
                };
            },
            GlobalKind::AltShardUpdate => match &s.alt_shard {
                Err(e) => Err(e.duplicate()),
                Ok(Err(e)) => Err(e.duplicate()),
                Ok(Ok(())) => Ok(()),
            },
            GlobalKind::Unknown => {
                let text = hex_encode(sub_bytes(input, 0, 4).as_slice());
                Err(
                    QuilError::InvalidArgument(
                        concat2(
                            "global intrinsic invoke_step: unknown type prefix 0x",
                            text.as_str(),
                        ),
                    ),
                )
            },
        };
        match a {
            Ok(()) => Ok(ShardWork::Nothing),
            Err(e) => Err(e),
        }
    }
}

} // verus!
