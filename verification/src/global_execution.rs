//! The global execution engine: validates and applies the messages of the global
//! domain.

use vstd::prelude::*;

use crate::bytes::{bytes_eq, copy_bytes};
use crate::checks::{
    answer, first_err, lemma_first_err_prefix, lemma_first_err_step, success_of, Answer,
};
use crate::envelope::{envelope_kind, envelope_kind_of, Envelope, EnvelopeKind, EnvelopeTypes};
use crate::error::{invalid_argument, ErrorView, QuilError};
use crate::global_engine::{GlobalStep, ShardWork, ShardWorkView};
use crate::global_intrinsic::{needs_allocation_tree, GlobalIntrinsic, GlobalKind, GlobalReport, GlobalTypes};
use crate::global_join::existing;
use crate::global_steps::GlobalLog;
use crate::records::{bytes_or_none, Field, GlobalValue, Record, RecordView};
use crate::state::{commit_mark, HypergraphState, Layer};
use crate::token_engine::{processed, ProcessMessageResult};

verus! {

/// An operation that is to be validated: its type tag and bytes, the address that
/// its signature names, the address of the allocation that it speaks of, what the
/// checks say of it, and what peeking at it gives.
pub struct GlobalValidation {
    pub inner_type_prefix: u32,
    pub inner_bytes: Vec<u8>,
    pub signer: Option<Vec<u8>>,
    pub allocation_address: Option<Vec<u8>>,
    pub report: GlobalReport,
    pub peek: Answer,
}

/// An operation that is to be applied.
pub struct GlobalRequest {
    pub inner_type_prefix: u32,
    pub inner_bytes: Vec<u8>,
    pub step: GlobalStep,
}

/// The prover whose record an operation is validated against. Only operations on a
/// prover's own standing have one.
pub open spec fn prover_address_of(types: &GlobalTypes, prefix: u32, signer: Option<Vec<u8>>) -> Option<
    Seq<u8>,
> {
    match types.kind(prefix) {
        GlobalKind::Pause | GlobalKind::Resume | GlobalKind::Leave | GlobalKind::Confirm
        | GlobalKind::Reject | GlobalKind::Update | GlobalKind::Join => match signer {
            Some(a) => Some(a@),
            None => None,
        },
        _ => None,
    }
}

/// The prover whose record an operation is validated against.
pub fn extract_prover_address(types: &GlobalTypes, prefix: u32, signer: &Option<Vec<u8>>) -> (r: Option<
    Vec<u8>,
>)
    ensures
        match r {
            Some(a) => prover_address_of(types, prefix, *signer) == Some(a@),
            None => prover_address_of(types, prefix, *signer) is None,
        },
{
    match types.kind_of(prefix) {
        GlobalKind::Pause
        | GlobalKind::Resume
        | GlobalKind::Leave
        | GlobalKind::Confirm
        | GlobalKind::Reject
        | GlobalKind::Update
        | GlobalKind::Join => match signer {
            Some(a) => Some(copy_bytes(a.as_slice())),
            None => None,
        },
        _ => None,
    }
}

/// The prover's record that an operation is validated against.
pub open spec fn prover_tree(domain: Seq<u8>, log: GlobalLog, address: Option<Seq<u8>>) -> Option<
    RecordView,
> {
    match address {
        Some(a) => if a.len() >= 32 {
            existing(domain, log, a)
        } else {
            None
        },
        None => None,
    }
}

/// The allocation's record that an operation is validated against: there is one
/// where the prover is known by its public key.
pub open spec fn allocation_tree(
    domain: Seq<u8>,
    log: GlobalLog,
    address: Option<Seq<u8>>,
    needed: bool,
    allocation: Option<Vec<u8>>,
) -> Option<RecordView> {
    match prover_tree(domain, log, address) {
        Some(p) => if needed && bytes_or_none(p, Field::PublicKey).len() > 0 {
            match allocation {
                Some(a) => existing(domain, log, a@),
                None => None,
            }
        } else {
            None
        },
        None => None,
    }
}

fn load(domain: &Vec<u8>, state: &HypergraphState<GlobalValue>, address: &Vec<u8>) -> (r: Option<Record>)
    ensures
        match r {
            Some(v) => existing(domain@, state@, address@) == Some(v@),
            None => existing(domain@, state@, address@) is None,
        },
{
    match state.get(domain.as_slice(), address.as_slice(), Layer::VertexAdds) {
        Some(v) => if v.is_empty() {
            None
        } else {
            Some(v.record())
        },
        None => None,
    }
}

/// Loads the records that an operation is validated against.
pub fn load_trees_for_validation(
    types: &GlobalTypes,
    domain: &Vec<u8>,
    state: &HypergraphState<GlobalValue>,
    v: &GlobalValidation,
) -> (r: (Option<Record>, Option<Record>))
    ensures
        ({
            let address = prover_address_of(types, v.inner_type_prefix, v.signer);
            let needed = v.inner_type_prefix == types.prover_pause || v.inner_type_prefix
                == types.prover_resume;
            &&& match r.0 {
                Some(p) => prover_tree(domain@, state@, address) == Some(p@),
                None => prover_tree(domain@, state@, address) is None,
            }
            &&& match r.1 {
                Some(a) => allocation_tree(domain@, state@, address, needed, v.allocation_address)
                    == Some(a@),
                None => allocation_tree(
                    domain@,
                    state@,
                    address,
                    needed,
                    v.allocation_address,
                ) is None,
            }
        }),
{
    let address = match extract_prover_address(types, v.inner_type_prefix, &v.signer) {
        Some(a) => a,
        None => {
            return (None, None);
        },
    };
    if address.len() < 32 {
        return (None, None);
    }
    let prover = match load(domain, state, &address) {
        Some(p) => p,
        None => {
            return (None, None);
        },
    };
    if !needs_allocation_tree(types, v.inner_type_prefix) || prover.bytes_or_none(
        Field::PublicKey,
    ).len() == 0 {
        return (Some(prover), None);
    }
    let allocation = match &v.allocation_address {
        Some(a) => load(domain, state, a),
        None => None,
    };
    (Some(prover), allocation)
}

/// The global execution engine.
pub struct GlobalExecutionEngine {
    pub types: GlobalTypes,
    pub envelopes: EnvelopeTypes,
    /// The address of the global domain.
    pub global_domain: Vec<u8>,
    pub intrinsic: Option<GlobalIntrinsic>,
    pub state: Option<HypergraphState<GlobalValue>>,
    /// What is to be done to the store of shards, oldest first.
    pub shard_work: Vec<ShardWork>,
}

/// What the engine holds: the state's log, and the work for the store of shards.
#[verifier::ext_equal]
pub struct GlobalStore {
    pub log: GlobalLog,
    pub work: Seq<ShardWorkView>,
}

/// The views of work items.
pub open spec fn work_views(v: Seq<ShardWork>) -> Seq<ShardWorkView> {
    Seq::new(v.len(), |i: int| v[i]@)
}

/// What the engine holds after a request. One that is not a global operation is
/// passed over, and one that fails adds no work.
pub open spec fn after_global(
    types: &GlobalTypes,
    g: &GlobalIntrinsic,
    s: GlobalStore,
    frame_number: u64,
    r: GlobalRequest,
) -> GlobalStore {
    if !types.prefixes@.contains(r.inner_type_prefix) {
        s
    } else {
        let eff = g.step_effect(s.log, frame_number, r.inner_bytes@, r.step);
        GlobalStore {
            log: eff.log,
            work: if eff.answer is Ok {
                s.work.push(g.shard_work(r.inner_bytes@, r.step))
            } else {
                s.work
            },
        }
    }
}

/// What the engine holds after the requests of a bundle. A request that fails
/// stops none of those after it.
pub open spec fn after_globals(
    types: &GlobalTypes,
    g: &GlobalIntrinsic,
    s: GlobalStore,
    frame_number: u64,
    rs: Seq<Option<GlobalRequest>>,
) -> GlobalStore
    decreases rs.len(),
{
    if rs.len() == 0 {
        s
    } else {
        let before = after_globals(types, g, s, frame_number, rs.drop_last());
        match rs.last() {
            None => before,
            Some(r) => after_global(types, g, before, frame_number, r),
        }
    }
}

impl GlobalExecutionEngine {
    /// The log and the work, of an engine with a state.
    pub open spec fn store(&self) -> GlobalStore {
        GlobalStore { log: self.state->Some_0@, work: work_views(self.shard_work@) }
    }

    /// The validation of one operation. One that is not global is passed over.
    /// Without a state only its structure is looked at, and without an intrinsic it
    /// is only peeked at.
    pub open spec fn inner_validation(&self, v: GlobalValidation) -> Result<(), ErrorView> {
        if !self.types.prefixes@.contains(v.inner_type_prefix) {
            Ok(())
        } else {
            match self.intrinsic {
                Some(g) => {
                    let has_tree = self.state is Some && prover_tree(
                        g.domain@,
                        self.state->Some_0@,
                        prover_address_of(&g.types, v.inner_type_prefix, v.signer),
                    ) is Some;
                    match g.validation(v.inner_bytes@, v.report, has_tree) {
                        Ok(true) => Ok(()),
                        Ok(false) => Err(
                            ErrorView::InvalidArgument("global: signature verification failed"@),
                        ),
                        Err(e) => Err(e),
                    }
                },
                None => answer(v.peek),
            }
        }
    }

    /// The validations of a bundle.
    pub open spec fn bundle_validation(&self, vs: Seq<Option<GlobalValidation>>) -> Seq<
        Result<(), ErrorView>,
    > {
        Seq::new(
            vs.len(),
            |i: int|
                match vs[i] {
                    None => Ok(()),
                    Some(v) => self.inner_validation(v),
                },
        )
    }

    /// An engine that only peeks at operations.
    pub fn new(types: GlobalTypes, envelopes: EnvelopeTypes, global_domain: Vec<u8>) -> (r: Self)
        ensures
            r.types == types,
            r.envelopes == envelopes,
            r.global_domain == global_domain,
            r.intrinsic is None,
            r.state is None,
            r.shard_work@.len() == 0,
    {
        GlobalExecutionEngine {
            types,
            envelopes,
            global_domain,
            intrinsic: None,
            state: None,
            shard_work: Vec::new(),
        }
    }

    /// An engine that validates and applies operations.
    pub fn new_with_intrinsic(
        types: GlobalTypes,
        envelopes: EnvelopeTypes,
        global_domain: Vec<u8>,
        intrinsic: GlobalIntrinsic,
        state: HypergraphState<GlobalValue>,
    ) -> (r: Self)
        ensures
            r.types == types,
            r.envelopes == envelopes,
            r.global_domain == global_domain,
            r.intrinsic == Some(intrinsic),
            r.state == Some(state),
            r.shard_work@.len() == 0,
    {
        let mut r = GlobalExecutionEngine::new(types, envelopes, global_domain);
        r.intrinsic = Some(intrinsic);
        r.state = Some(state);
        r
    }

    /// Installs what crediting frame headers needs; with a state also what the full
    /// check of a kick needs. An engine without an intrinsic stays as it is.
    pub fn install_frame_header_deps(&mut self)
        ensures
            *final(self) == (GlobalExecutionEngine {
                intrinsic: match old(self).intrinsic {
                    None => None,
                    Some(g) => Some(
                        if old(self).state is Some {
                            GlobalIntrinsic {
                                prover_registry: true,
                                reward_issuance: true,
                                frame_prover: true,
                                bls_constructor: true,
                                hypergraph: true,
                                inclusion_prover: true,
                                ..g
                            }
                        } else {
                            GlobalIntrinsic {
                                prover_registry: true,
                                reward_issuance: true,
                                frame_prover: true,
                                ..g
                            }
                        },
                    ),
                },
                ..*old(self)
            }),
    {
        let taken = self.intrinsic.take();
        if let Some(g) = taken {
            let mut updated = g.with_frame_header_deps().with_frame_prover();
            if self.state.is_some() {
                updated = updated.with_kick_verify_deps();
            }
            self.intrinsic = Some(updated);
        }
    }

    /// The engine's name.
    pub fn get_name(&self) -> (r: &str)
        ensures
            r@ == "global"@,
    {
        "global"
    }

    /// Releases what a message locked: nothing is held.
    pub fn unlock(&self) -> (a: Answer)
        ensures
            answer(a) == Ok::<(), ErrorView>(()),
    {
        Ok(())
    }

    /// The addresses that a message locks: global messages lock none.
    pub fn lock(&self) -> (r: Vec<Vec<u8>>)
        ensures
            r@.len() == 0,
    {
        Vec::new()
    }

    /// What a message costs: global messages cost nothing.
    pub fn get_cost(&self, _message: &[u8]) -> (r: Result<i128, QuilError>)
        ensures
            r == Ok::<i128, QuilError>(0),
    {
        Ok(0)
    }

    fn validate_inner(&self, v: &GlobalValidation) -> (a: Answer)
        ensures
            answer(a) == self.inner_validation(*v),
    {
        if !self.types.is_global(v.inner_type_prefix) {
            return Ok(());
        }
        match &self.intrinsic {
            Some(g) => {
                let has_tree = match &self.state {
                    Some(s) => {
                        let (p, _) = load_trees_for_validation(&g.types, &g.domain, s, v);
                        p.is_some()
                    },
                    None => false,
                };
                match g.validate(v.inner_bytes.as_slice(), &v.report, has_tree) {
                    Ok(true) => Ok(()),
                    Ok(false) => Err(invalid_argument("global: signature verification failed")),
                    Err(e) => Err(e),
                }
            },
            None => crate::checks::success(&v.peek),
        }
    }

    fn validate_bundle(&self, vs: &Vec<Option<GlobalValidation>>) -> (a: Answer)
        ensures
            answer(a) == first_err(self.bundle_validation(vs@)),
    {
        let ghost rs = self.bundle_validation(vs@);
        let mut k: usize = 0;
        while k < vs.len()
            invariant
                k <= vs@.len(),
                rs == self.bundle_validation(vs@),
                first_err(rs.take(k as int)) is Ok,
            decreases vs@.len() - k,
        {
            let a = match &vs[k] {
                None => Ok(()),
                Some(v) => self.validate_inner(v),
            };
            proof {
                lemma_first_err_step(rs, k as int);
            }
            if a.is_err() {
                proof {
                    lemma_first_err_prefix(rs, k + 1);
                }
                return a;
            }
            k += 1;
        }
        assert(rs.take(k as int) =~= rs);
        Ok(())
    }

    /// Validates a message, which must be addressed to the global domain. The first
    /// operation of a bundle that is refused decides.
    pub fn validate_message(
        &self,
        address: &[u8],
        message: &[u8],
        contents: &Envelope<GlobalValidation>,
    ) -> (a: Answer)
        ensures
            answer(a) == if address@ != self.global_domain@ {
                Err(ErrorView::InvalidArgument("not a global message"@))
            } else {
                match envelope_kind_of(message@, self.envelopes) {
                    EnvelopeKind::Short => Ok(()),
                    EnvelopeKind::Bundle => match contents.bundle {
                        Err(e) => Err(e@),
                        Ok(vs) => first_err(self.bundle_validation(vs@)),
                    },
                    EnvelopeKind::Request => match contents.request {
                        Err(e) => Err(e@),
                        Ok(v) => self.inner_validation(v),
                    },
                    EnvelopeKind::Unsupported => Err(
                        ErrorView::InvalidArgument("global: unsupported message type"@),
                    ),
                }
            },
    {
        if !bytes_eq(address, self.global_domain.as_slice()) {
            return Err(invalid_argument("not a global message"));
        }
        match envelope_kind(message, &self.envelopes) {
            EnvelopeKind::Short => Ok(()),
            EnvelopeKind::Bundle => match &contents.bundle {
                Err(e) => Err(e.duplicate()),
                Ok(vs) => self.validate_bundle(vs),
            },
            EnvelopeKind::Request => match &contents.request {
                Err(e) => Err(e.duplicate()),
                Ok(v) => self.validate_inner(v),
            },
            EnvelopeKind::Unsupported => Err(invalid_argument("global: unsupported message type")),
        }
    }

    /// Applies one request. Without an intrinsic and a state nothing happens.
    pub fn process_request(&mut self, frame_number: u64, r: &GlobalRequest) -> (a: Answer)
        ensures
            commit_mark(final(self).state) == commit_mark(old(self).state),
            final(self).types == old(self).types,
            final(self).envelopes == old(self).envelopes,
            final(self).intrinsic == old(self).intrinsic,
            final(self).global_domain == old(self).global_domain,
            old(self).intrinsic is None || old(self).state is None ==> a is Ok && *final(self)
                == *old(self),
            old(self).intrinsic is Some && old(self).state is Some ==> {
                &&& final(self).state is Some
                &&& final(self).store() == after_global(
                    &old(self).types,
                    &old(self).intrinsic->Some_0,
                    old(self).store(),
                    frame_number,
                    *r,
                )
                &&& answer(a) == if !old(self).types.prefixes@.contains(r.inner_type_prefix) {
                    Ok(())
                } else {
                    old(self).intrinsic->Some_0.step_effect(
                        old(self).store().log,
                        frame_number,
                        r.inner_bytes@,
                        r.step,
                    ).answer
                }
            },
    {
        if !self.types.is_global(r.inner_type_prefix) {
            return Ok(());
        }
        let res = match &self.intrinsic {
            None => {
                return Ok(());
            },
            Some(g) => match &mut self.state {
                None => {
                    return Ok(());
                },
                Some(s) => g.invoke_step(s, frame_number, r.inner_bytes.as_slice(), &r.step),
            },
        };
        match res {
            Ok(w) => {
                self.shard_work.push(w);
                assert(work_views(self.shard_work@) =~= work_views(old(self).shard_work@).push(w@));
                Ok(())
            },
            Err(e) => Err(e),
        }
    }

    fn commit(&mut self)
        ensures
            final(self).types == old(self).types,
            final(self).envelopes == old(self).envelopes,
            final(self).intrinsic == old(self).intrinsic,
            final(self).global_domain == old(self).global_domain,
            final(self).shard_work == old(self).shard_work,
            old(self).state is None ==> final(self).state is None,
            old(self).state is Some ==> {
                &&& final(self).state is Some
                &&& final(self).state->Some_0@ == old(self).state->Some_0@
                &&& final(self).state->Some_0.committed == final(self).state->Some_0@.len()
            },
    {
        match &mut self.state {
            Some(s) => s.commit(),
            None => {},
        }
    }

    /// Processes a message and commits the state. A request that fails does not
    /// stop the others; only an envelope that does not decode, or that is not
    /// known, is an error, and then nothing is committed.
    pub fn process_message(
        &mut self,
        frame_number: u64,
        message: &[u8],
        contents: &Envelope<GlobalRequest>,
    ) -> (res: Result<ProcessMessageResult, QuilError>)
        ensures
            final(self).types == old(self).types,
            final(self).envelopes == old(self).envelopes,
            final(self).intrinsic == old(self).intrinsic,
            final(self).global_domain == old(self).global_domain,
            res matches Ok(p) ==> p.messages@.len() == 0 && p.state@.len() == 0,
            match envelope_kind_of(message@, old(self).envelopes) {
                EnvelopeKind::Short => res is Ok && *final(self) == *old(self),
                EnvelopeKind::Bundle => {
                    &&& processed(res) == success_of(contents.bundle)
                    &&& contents.bundle is Err ==> *final(self) == *old(self)
                    &&& contents.bundle matches Ok(rs) ==> committed_after(
                        *old(self),
                        *final(self),
                        frame_number,
                        rs@,
                    )
                },
                EnvelopeKind::Request => {
                    &&& processed(res) == success_of(contents.request)
                    &&& contents.request is Err ==> *final(self) == *old(self)
                    &&& contents.request matches Ok(r) ==> committed_after(
                        *old(self),
                        *final(self),
                        frame_number,
                        seq![Some(r)],
                    )
                },
                EnvelopeKind::Unsupported => {
                    &&& processed(res) == Err::<(), ErrorView>(
                        ErrorView::InvalidArgument("global: unsupported message type"@),
                    )
                    &&& *final(self) == *old(self)
                },
            },
    {
        match envelope_kind(message, &self.envelopes) {
            EnvelopeKind::Short => Ok(ProcessMessageResult::empty()),
            EnvelopeKind::Bundle => match &contents.bundle {
                Err(e) => Err(e.duplicate()),
                Ok(rs) => {
                    self.process_all(frame_number, rs);
                    self.commit();
                    Ok(ProcessMessageResult::empty())
                },
            },
            EnvelopeKind::Request => match &contents.request {
                Err(e) => Err(e.duplicate()),
                Ok(r) => {
                    proof {
                        let one = seq![Some(*r)];
                        assert(one.drop_last() =~= Seq::<Option<GlobalRequest>>::empty());
                        if old(self).intrinsic is Some {
                            reveal_with_fuel(after_globals, 2);
                        }
                    }
                    let _ = self.process_request(frame_number, r);
                    self.commit();
                    Ok(ProcessMessageResult::empty())
                },
            },
            EnvelopeKind::Unsupported => Err(invalid_argument("global: unsupported message type")),
        }
    }

    fn process_all(&mut self, frame_number: u64, rs: &Vec<Option<GlobalRequest>>)
        ensures
            commit_mark(final(self).state) == commit_mark(old(self).state),
            final(self).types == old(self).types,
            final(self).envelopes == old(self).envelopes,
            final(self).intrinsic == old(self).intrinsic,
            final(self).global_domain == old(self).global_domain,
            old(self).intrinsic is None || old(self).state is None ==> *final(self) == *old(self),
            old(self).intrinsic is Some && old(self).state is Some ==> {
                &&& final(self).state is Some
                &&& final(self).store() == after_globals(
                    &old(self).types,
                    &old(self).intrinsic->Some_0,
                    old(self).store(),
                    frame_number,
                    rs@,
                )
            },
    {
        let mut k: usize = 0;
        assert(rs@.take(0) =~= Seq::<Option<GlobalRequest>>::empty());
        while k < rs.len()
            invariant
                commit_mark(self.state) == commit_mark(old(self).state),
                k <= rs@.len(),
                self.types == old(self).types,
                self.envelopes == old(self).envelopes,
                self.intrinsic == old(self).intrinsic,
                self.global_domain == old(self).global_domain,
                old(self).intrinsic is None || old(self).state is None ==> *self == *old(self),
                old(self).intrinsic is Some && old(self).state is Some ==> {
                    &&& self.state is Some
                    &&& self.store() == after_globals(
                        &old(self).types,
                        &old(self).intrinsic->Some_0,
                        old(self).store(),
                        frame_number,
                        rs@.take(k as int),
                    )
                },
            decreases rs@.len() - k,
        {
            proof {
                assert(rs@.take(k + 1).drop_last() =~= rs@.take(k as int));
                assert(rs@.take(k + 1).last() == rs@[k as int]);
            }
            if let Some(r) = &rs[k] {
                let _ = self.process_request(frame_number, r);
            }
            k += 1;
        }
        assert(rs@.take(k as int) =~= rs@);
    }
}

/// What an engine has become after it applied requests and committed: where it has
/// an intrinsic and a state, the requests are in the log; and the whole log is
/// committed.
pub open spec fn committed_after(
    before: GlobalExecutionEngine,
    after: GlobalExecutionEngine,
    frame_number: u64,
    rs: Seq<Option<GlobalRequest>>,
) -> bool {
    &&& before.state is None ==> after.state is None && after.shard_work == before.shard_work
    &&& before.state is Some ==> {
        &&& after.state is Some
        &&& after.state->Some_0.committed == after.state->Some_0@.len()
        &&& after.store() == match before.intrinsic {
            Some(g) => after_globals(&before.types, &g, before.store(), frame_number, rs),
            None => before.store(),
        }
    }
}

} // verus!
