//! The compute execution engine: deploys, executes and finalizes code.

use vstd::prelude::*;

use crate::bytes::{copy_bytes, sub_bytes, zero_seq, zeros};
use crate::checks::{
    answer, first_err, lemma_first_err_prefix, lemma_first_err_step, must_hold, require_true, success,
    success_of, Answer,
};
use crate::domains::ExecutionMode;
use crate::envelope::{envelope_kind, envelope_kind_of, Envelope, EnvelopeKind, EnvelopeTypes};
use crate::error::{invalid_argument, ErrorView, QuilError};
use crate::state::{commit_mark, written, HypergraphState, Layer};
use crate::token_engine::{processed, BlobLog, ProcessMessageResult};

verus! {

/// The type tags of the compute operations.
pub struct ComputeTypes {
    /// Every tag that belongs to the compute engine.
    pub prefixes: Vec<u32>,
    pub code_deployment: u32,
    pub code_execute: u32,
    pub code_finalize: u32,
}

/// The operations that the engine tells apart.
#[derive(Clone, Copy, Debug, PartialEq, Eq, Structural)]
pub enum ComputeKind {
    /// Not a compute operation.
    Foreign,
    Deploy,
    Execute,
    Finalize,
    /// A compute operation that the engine only peeks at.
    Other,
}

impl ComputeTypes {
    /// The operation that a type tag names.
    pub open spec fn kind(&self, prefix: u32) -> ComputeKind {
        if !self.prefixes@.contains(prefix) {
            ComputeKind::Foreign
        } else if prefix == self.code_deployment {
            ComputeKind::Deploy
        } else if prefix == self.code_execute {
            ComputeKind::Execute
        } else if prefix == self.code_finalize {
            ComputeKind::Finalize
        } else {
            ComputeKind::Other
        }
    }

    /// Finds the operation that a type tag names.
    pub fn kind_of(&self, prefix: u32) -> (r: ComputeKind)
        ensures
            r == self.kind(prefix),
    {
        let mut i: usize = 0;
        while i < self.prefixes.len()
            invariant
                i <= self.prefixes@.len(),
                forall|j: int| 0 <= j < i ==> self.prefixes@[j] != prefix,
            decreases self.prefixes@.len() - i,
        {
            if self.prefixes[i] == prefix {
                assert(self.prefixes@.contains(prefix));
                return if prefix == self.code_deployment {
                    ComputeKind::Deploy
                } else if prefix == self.code_execute {
                    ComputeKind::Execute
                } else if prefix == self.code_finalize {
                    ComputeKind::Finalize
                } else {
                    ComputeKind::Other
                };
            }
            i += 1;
        }
        ComputeKind::Foreign
    }
}

/// A vertex to be written, in the domain that its operation names.
pub struct PlacedWrite {
    pub domain: Vec<u8>,
    pub address: Vec<u8>,
    pub blob: Vec<u8>,
}

/// What is known of a decoded deployment, execution or finalization: what its check
/// says, and what it writes.
pub struct ComputeReport {
    pub verified: Result<bool, QuilError>,
    pub writes: Result<Vec<PlacedWrite>, QuilError>,
}

/// A request to the compute engine: its type tag, what peeking at it gives, and its
/// reading as the operation that the tag names.
pub struct ComputeRequest {
    pub inner_type_prefix: u32,
    pub peek: Answer,
    pub decoded: Result<ComputeReport, QuilError>,
}

/// The compute execution engine: which of the optional providers are installed, and
/// the state.
pub struct ComputeExecutionEngine {
    pub mode: ExecutionMode,
    pub envelopes: EnvelopeTypes,
    pub types: ComputeTypes,
    pub bulletproofs: bool,
    pub key_manager: bool,
    pub circuit_compiler: bool,
    /// Without a state operations are checked and nothing is written.
    pub state: Option<HypergraphState<Vec<u8>>>,
}

/// What a request, or several, come to.
pub struct ComputeEffect {
    pub answer: Result<(), ErrorView>,
    pub log: BlobLog,
}

/// The log with vertices written.
pub open spec fn placed(log: BlobLog, frame_number: u64, ws: Seq<PlacedWrite>) -> BlobLog
    decreases ws.len(),
{
    if ws.len() == 0 {
        log
    } else {
        placed(log, frame_number, ws.drop_last()).push(
            written(
                ws.last().domain@,
                ws.last().address@,
                Layer::VertexAdds,
                frame_number,
                ws.last().blob@,
            ),
        )
    }
}

/// The check of a request. Each operation is checked where its provider is
/// installed; an execution must also come out true.
pub open spec fn compute_check(e: &ComputeExecutionEngine, r: ComputeRequest) -> Result<
    (),
    ErrorView,
> {
    match e.types.kind(r.inner_type_prefix) {
        ComputeKind::Foreign => Ok(()),
        ComputeKind::Other => answer(r.peek),
        ComputeKind::Deploy => match r.decoded {
            Err(err) => Err(err@),
            Ok(d) => if e.circuit_compiler {
                success_of(d.verified)
            } else {
                Ok(())
            },
        },
        ComputeKind::Execute => match r.decoded {
            Err(err) => Err(err@),
            Ok(d) => if e.bulletproofs {
                must_hold(
                    d.verified,
                    ErrorView::InvalidArgument("code execute: verify failed"@),
                )
            } else {
                Ok(())
            },
        },
        ComputeKind::Finalize => match r.decoded {
            Err(err) => Err(err@),
            Ok(d) => if e.key_manager {
                success_of(d.verified)
            } else {
                Ok(())
            },
        },
    }
}

/// Does a request write?
pub open spec fn compute_writes(e: &ComputeExecutionEngine, r: ComputeRequest) -> bool {
    match e.types.kind(r.inner_type_prefix) {
        ComputeKind::Deploy | ComputeKind::Execute | ComputeKind::Finalize => true,
        _ => false,
    }
}

/// The effect of a request. `has_state` says whether there is anything to write to.
pub open spec fn compute_effect(
    e: &ComputeExecutionEngine,
    has_state: bool,
    log: BlobLog,
    frame_number: u64,
    r: ComputeRequest,
) -> ComputeEffect {
    match compute_check(e, r) {
        Err(err) => ComputeEffect { answer: Err(err), log },
        Ok(()) => if has_state && compute_writes(e, r) {
            match r.decoded->Ok_0.writes {
                Err(err) => ComputeEffect { answer: Err(err@), log },
                Ok(ws) => ComputeEffect {
                    answer: Ok(()),
                    log: placed(log, frame_number, ws@),
                },
            }
        } else {
            ComputeEffect { answer: Ok(()), log }
        },
    }
}

/// The effect of the requests of a bundle, in order, up to the first failure; what
/// was written before it stays.
pub open spec fn bundle_effect(
    e: &ComputeExecutionEngine,
    has_state: bool,
    log: BlobLog,
    frame_number: u64,
    rs: Seq<Option<ComputeRequest>>,
) -> ComputeEffect
    decreases rs.len(),
{
    if rs.len() == 0 {
        ComputeEffect { answer: Ok(()), log }
    } else {
        let before = bundle_effect(e, has_state, log, frame_number, rs.drop_last());
        if before.answer is Err {
            before
        } else {
            match rs.last() {
                None => before,
                Some(r) => compute_effect(e, has_state, before.log, frame_number, r),
            }
        }
    }
}

/// The log of an engine; one without a state has none.
pub open spec fn log_of(e: &ComputeExecutionEngine) -> BlobLog {
    match e.state {
        Some(s) => s@,
        None => Seq::empty(),
    }
}

/// The domain that a finalization is for: the first 32 bytes of the address, or
/// zeros where it is shorter.
pub open spec fn finalize_domain_of(address: Seq<u8>) -> Seq<u8> {
    if address.len() >= 32 {
        address.take(32)
    } else {
        zero_seq(32)
    }
}

/// The domain that a finalization is for.
pub fn finalize_domain(address: &[u8]) -> (r: Vec<u8>)
    ensures
        r@ == finalize_domain_of(address@),
        r@.len() == 32,
{
    if address.len() >= 32 {
        let r = sub_bytes(address, 0, 32);
        assert(r@ =~= address@.take(32));
        r
    } else {
        zeros(32)
    }
}

fn place_all(state: &mut HypergraphState<Vec<u8>>, frame_number: u64, ws: &Vec<PlacedWrite>)
    ensures
        final(state).committed == old(state).committed,
        final(state)@ == placed(old(state)@, frame_number, ws@),
{
    let ghost log = state@;
    let mut i: usize = 0;
    assert(ws@.take(0) =~= Seq::<PlacedWrite>::empty());
    while i < ws.len()
        invariant
            state.committed == old(state).committed,
            i <= ws@.len(),
            state@ == placed(log, frame_number, ws@.take(i as int)),
        decreases ws@.len() - i,
    {
        proof {
            assert(ws@.take(i + 1).drop_last() =~= ws@.take(i as int));
            assert(ws@.take(i + 1).last() == ws@[i as int]);
        }
        state.set(
            ws[i].domain.as_slice(),
            ws[i].address.as_slice(),
            Layer::VertexAdds,
            frame_number,
            copy_bytes(ws[i].blob.as_slice()),
        );
        i += 1;
    }
    assert(ws@.take(i as int) =~= ws@);
}

proof fn lemma_bundle_prefix(
    e: &ComputeExecutionEngine,
    has_state: bool,
    log: BlobLog,
    frame_number: u64,
    rs: Seq<Option<ComputeRequest>>,
    n: int,
)
    requires
        0 <= n <= rs.len(),
        bundle_effect(e, has_state, log, frame_number, rs.take(n)).answer is Err,
    ensures
        bundle_effect(e, has_state, log, frame_number, rs) == bundle_effect(
            e,
            has_state,
            log,
            frame_number,
            rs.take(n),
        ),
    decreases rs.len(),
{
    if n == rs.len() {
        assert(rs.take(n) =~= rs);
    } else {
        assert(rs.drop_last().take(n) =~= rs.take(n));
        lemma_bundle_prefix(e, has_state, log, frame_number, rs.drop_last(), n);
    }
}

/// The effect of a request does not look at what the engine holds.
proof fn lemma_effect_ignores_state(
    a: &ComputeExecutionEngine,
    b: &ComputeExecutionEngine,
    has_state: bool,
    log: BlobLog,
    frame_number: u64,
    r: ComputeRequest,
)
    requires
        *a == (ComputeExecutionEngine { state: a.state, ..*b }),
    ensures
        compute_effect(a, has_state, log, frame_number, r) == compute_effect(
            b,
            has_state,
            log,
            frame_number,
            r,
        ),
{
}

impl ComputeExecutionEngine {
    /// The structural validation of a slot.
    pub open spec fn slot_validation(&self, slot: Option<ComputeRequest>) -> Result<(), ErrorView> {
        match slot {
            Some(r) => if self.types.prefixes@.contains(r.inner_type_prefix) {
                answer(r.peek)
            } else {
                Ok(())
            },
            None => Ok(()),
        }
    }

    /// The structural validations of a bundle.
    pub open spec fn bundle_validation(&self, rs: Seq<Option<ComputeRequest>>) -> Seq<
        Result<(), ErrorView>,
    > {
        Seq::new(rs.len(), |i: int| self.slot_validation(rs[i]))
    }

    /// An engine without a state and without providers.
    pub fn new(mode: ExecutionMode, envelopes: EnvelopeTypes, types: ComputeTypes) -> (r: Self)
        ensures
            r == (ComputeExecutionEngine {
                mode,
                envelopes,
                types,
                bulletproofs: false,
                key_manager: false,
                circuit_compiler: false,
                state: None,
            }),
    {
        ComputeExecutionEngine {
            mode,
            envelopes,
            types,
            bulletproofs: false,
            key_manager: false,
            circuit_compiler: false,
            state: None,
        }
    }

    /// An engine over a state, without providers.
    pub fn new_with_state(
        mode: ExecutionMode,
        envelopes: EnvelopeTypes,
        types: ComputeTypes,
        state: HypergraphState<Vec<u8>>,
    ) -> (r: Self)
        ensures
            r == (ComputeExecutionEngine {
                mode,
                envelopes,
                types,
                bulletproofs: false,
                key_manager: false,
                circuit_compiler: false,
                state: Some(state),
            }),
    {
        ComputeExecutionEngine {
            state: Some(state),
            ..ComputeExecutionEngine::new(mode, envelopes, types)
        }
    }

    /// Installs the providers that check deployments, executions and
    /// finalizations.
    pub fn with_crypto(self) -> (r: Self)
        ensures
            r == (ComputeExecutionEngine {
                bulletproofs: true,
                key_manager: true,
                circuit_compiler: true,
                ..self
            }),
    {
        ComputeExecutionEngine {
            bulletproofs: true,
            key_manager: true,
            circuit_compiler: true,
            ..self
        }
    }

    /// The engine's name.
    pub fn get_name(&self) -> (r: &str)
        ensures
            r@ == "compute"@,
    {
        "compute"
    }

    /// Releases what a message locked: nothing is held.
    pub fn unlock(&self) -> (a: Answer)
        ensures
            answer(a) == Ok::<(), ErrorView>(()),
    {
        Ok(())
    }

    /// The addresses that a message locks: compute messages lock none.
    pub fn lock(&self) -> (r: Vec<Vec<u8>>)
        ensures
            r@.len() == 0,
    {
        Vec::new()
    }

    /// What a message costs: compute messages cost nothing.
    pub fn get_cost(&self, _message: &[u8]) -> (r: Result<i128, QuilError>)
        ensures
            r == Ok::<i128, QuilError>(0),
    {
        Ok(0)
    }

    fn check(&self, r: &ComputeRequest) -> (a: Answer)
        ensures
            answer(a) == compute_check(self, *r),
    {
        let kind = self.types.kind_of(r.inner_type_prefix);
        match kind {
            ComputeKind::Foreign => Ok(()),
            ComputeKind::Other => success(&r.peek),
            ComputeKind::Deploy => match &r.decoded {
                Err(e) => Err(e.duplicate()),
                Ok(d) => if self.circuit_compiler {
                    success(&d.verified)
                } else {
                    Ok(())
                },
            },
            ComputeKind::Execute => match &r.decoded {
                Err(e) => Err(e.duplicate()),
                Ok(d) => if self.bulletproofs {
                    require_true(&d.verified, invalid_argument("code execute: verify failed"))
                } else {
                    Ok(())
                },
            },
            ComputeKind::Finalize => match &r.decoded {
                Err(e) => Err(e.duplicate()),
                Ok(d) => if self.key_manager {
                    success(&d.verified)
                } else {
                    Ok(())
                },
            },
        }
    }

    /// Checks one request and applies it to the state.
    pub fn process_request(&mut self, frame_number: u64, r: &ComputeRequest) -> (a: Answer)
        ensures
            commit_mark(final(self).state) == commit_mark(old(self).state),
            *final(self) == (ComputeExecutionEngine { state: final(self).state, ..*old(self) }),
            old(self).state is Some <==> final(self).state is Some,
            ({
                let eff = compute_effect(
                    old(self),
                    old(self).state is Some,
                    log_of(old(self)),
                    frame_number,
                    *r,
                );
                &&& answer(a) == eff.answer
                &&& log_of(final(self)) == eff.log
            }),
    {
        if let Err(e) = self.check(r) {
            return Err(e);
        }
        let writes = match self.types.kind_of(r.inner_type_prefix) {
            ComputeKind::Deploy | ComputeKind::Execute | ComputeKind::Finalize => true,
            _ => false,
        };
        if !writes {
            return Ok(());
        }
        match &mut self.state {
            None => Ok(()),
            Some(s) => match &r.decoded {
                Err(e) => Err(e.duplicate()),
                Ok(d) => match &d.writes {
                    Err(e) => Err(e.duplicate()),
                    Ok(ws) => {
                        place_all(s, frame_number, ws);
                        Ok(())
                    },
                },
            },
        }
    }

    fn process_all(&mut self, frame_number: u64, rs: &Vec<Option<ComputeRequest>>) -> (a: Answer)
        ensures
            commit_mark(final(self).state) == commit_mark(old(self).state),
            *final(self) == (ComputeExecutionEngine { state: final(self).state, ..*old(self) }),
            old(self).state is Some <==> final(self).state is Some,
            ({
                let eff = bundle_effect(
                    old(self),
                    old(self).state is Some,
                    log_of(old(self)),
                    frame_number,
                    rs@,
                );
                &&& answer(a) == eff.answer
                &&& log_of(final(self)) == eff.log
            }),
    {
        let ghost has = self.state is Some;
        let ghost log = log_of(self);
        let mut k: usize = 0;
        assert(rs@.take(0) =~= Seq::<Option<ComputeRequest>>::empty());
        while k < rs.len()
            invariant
                commit_mark(self.state) == commit_mark(old(self).state),
                k <= rs@.len(),
                has == (old(self).state is Some),
                has == (self.state is Some),
                log == log_of(old(self)),
                *self == (ComputeExecutionEngine { state: self.state, ..*old(self) }),
                ({
                    let eff = bundle_effect(
                        old(self),
                        has,
                        log,
                        frame_number,
                        rs@.take(k as int),
                    );
                    &&& eff.answer == Ok::<(), ErrorView>(())
                    &&& log_of(self) == eff.log
                }),
            decreases rs@.len() - k,
        {
            proof {
                assert(rs@.take(k + 1).drop_last() =~= rs@.take(k as int));
                assert(rs@.take(k + 1).last() == rs@[k as int]);
            }
            if let Some(r) = &rs[k] {
                proof {
                    lemma_effect_ignores_state(
                        self,
                        old(self),
                        has,
                        log_of(self),
                        frame_number,
                        *r,
                    );
                }
                let a = self.process_request(frame_number, r);
                if a.is_err() {
                    proof {
                        lemma_bundle_prefix(old(self), has, log, frame_number, rs@, k + 1);
                    }
                    return a;
                }
            }
            k += 1;
        }
        assert(rs@.take(k as int) =~= rs@);
        Ok(())
    }

    /// Processes a message. The first request of a bundle that fails makes the
    /// whole message fail; what was written before it stays.
    pub fn process_message(
        &mut self,
        frame_number: u64,
        message: &[u8],
        contents: &Envelope<ComputeRequest>,
    ) -> (res: Result<ProcessMessageResult, QuilError>)
        ensures
            commit_mark(final(self).state) == commit_mark(old(self).state),
            *final(self) == (ComputeExecutionEngine { state: final(self).state, ..*old(self) }),
            res matches Ok(p) ==> p.messages@.len() == 0 && p.state@.len() == 0,
            ({
                let eff = match envelope_kind_of(message@, old(self).envelopes) {
                    EnvelopeKind::Short => ComputeEffect {
                        answer: Ok(()),
                        log: log_of(old(self)),
                    },
                    EnvelopeKind::Bundle => match contents.bundle {
                        Err(e) => ComputeEffect { answer: Err(e@), log: log_of(old(self)) },
                        Ok(rs) => bundle_effect(
                            old(self),
                            old(self).state is Some,
                            log_of(old(self)),
                            frame_number,
                            rs@,
                        ),
                    },
                    EnvelopeKind::Request => match contents.request {
                        Err(e) => ComputeEffect { answer: Err(e@), log: log_of(old(self)) },
                        Ok(r) => compute_effect(
                            old(self),
                            old(self).state is Some,
                            log_of(old(self)),
                            frame_number,
                            r,
                        ),
                    },
                    EnvelopeKind::Unsupported => ComputeEffect {
                        answer: Err(
                            ErrorView::InvalidArgument("compute: unsupported message type"@),
                        ),
                        log: log_of(old(self)),
                    },
                };
                &&& processed(res) == eff.answer
                &&& log_of(final(self)) == eff.log
            }),
    {
        let a = match envelope_kind(message, &self.envelopes) {
            EnvelopeKind::Short => Ok(()),
            EnvelopeKind::Bundle => match &contents.bundle {
                Err(e) => Err(e.duplicate()),
                Ok(rs) => self.process_all(frame_number, rs),
            },
            EnvelopeKind::Request => match &contents.request {
                Err(e) => Err(e.duplicate()),
                Ok(r) => self.process_request(frame_number, r),
            },
            EnvelopeKind::Unsupported => Err(
                invalid_argument("compute: unsupported message type"),
            ),
        };
        match a {
            Ok(()) => Ok(ProcessMessageResult::empty()),
            Err(e) => Err(e),
        }
    }

    fn validate_slot(&self, r: &ComputeRequest) -> (a: Answer)
        ensures
            answer(a) == self.slot_validation(Some(*r)),
    {
        match self.types.kind_of(r.inner_type_prefix) {
            ComputeKind::Foreign => Ok(()),
            _ => success(&r.peek),
        }
    }

    fn validate_slots(&self, rs: &Vec<Option<ComputeRequest>>) -> (a: Answer)
        ensures
            answer(a) == first_err(self.bundle_validation(rs@)),
    {
        let ghost vs = self.bundle_validation(rs@);
        let mut k: usize = 0;
        while k < rs.len()
            invariant
                k <= rs@.len(),
                vs == self.bundle_validation(rs@),
                first_err(vs.take(k as int)) is Ok,
            decreases rs@.len() - k,
        {
            let a = match &rs[k] {
                None => Ok(()),
                Some(r) => self.validate_slot(r),
            };
            proof {
                assert(vs[k as int] == self.slot_validation(rs@[k as int]));
                lemma_first_err_step(vs, k as int);
            }
            if a.is_err() {
                proof {
                    lemma_first_err_prefix(vs, k + 1);
                }
                return a;
            }
            k += 1;
        }
        assert(vs.take(k as int) =~= vs);
        Ok(())
    }

    /// Validates a message by structure.
    pub fn validate_message(&self, message: &[u8], contents: &Envelope<ComputeRequest>) -> (a: Answer)
        ensures
            answer(a) == match envelope_kind_of(message@, self.envelopes) {
                EnvelopeKind::Short => Ok(()),
                EnvelopeKind::Bundle => match contents.bundle {
                    Err(e) => Err(e@),
                    Ok(rs) => first_err(self.bundle_validation(rs@)),
                },
                EnvelopeKind::Request => match contents.request {
                    Err(e) => Err(e@),
                    Ok(r) => self.slot_validation(Some(r)),
                },
                EnvelopeKind::Unsupported => Err(
                    ErrorView::InvalidArgument("compute: unsupported message type"@),
                ),
            },
    {
        match envelope_kind(message, &self.envelopes) {
            EnvelopeKind::Short => Ok(()),
            EnvelopeKind::Bundle => match &contents.bundle {
                Err(e) => Err(e.duplicate()),
                Ok(rs) => self.validate_slots(rs),
            },
            EnvelopeKind::Request => match &contents.request {
                Err(e) => Err(e.duplicate()),
                Ok(r) => self.validate_slot(r),
            },
            EnvelopeKind::Unsupported => Err(invalid_argument("compute: unsupported message type")),
        }
    }
}

} // verus!
