//! The hypergraph execution engine: adds and removes vertices and hyperedges.

use vstd::prelude::*;

use crate::assoc::value_of;
use crate::auth::{
    auth_outcome, extract_hyperedge_id, hyperedge_id, signature_of, signed_bytes,
    verify_op_signature, AuthCheck, HyperedgeAdd, HyperedgeRemove, OpForAuth, SignedView,
    ValidSignatures, VertexAdd, VertexRemove, WriteKeys, HYPEREDGE_MIN_VALUE_LEN,
};
use crate::bytes::{bytes_eq, copy_all, copy_bytes, sub_bytes, views, zero_seq, zeros};
use crate::checks::{
    answer, first_err, lemma_first_err_prefix, lemma_first_err_step, success, success_of, Answer,
};
use crate::codec::{hex_encode, hex_text};
use crate::domains::{ExecutionMode, SystemDomains};
use crate::envelope::{envelope_kind, envelope_kind_of, Envelope, EnvelopeKind, EnvelopeTypes};
use crate::error::{invalid_argument, outcome, ErrorView, QuilError};
use crate::state::{commit_mark, deleted, written, ChangeView, HypergraphState, Layer};
use crate::text::concat3;
use crate::token_engine::{processed, BlobLog, ProcessMessageResult};

verus! {

/// A decoded and well-formed operation.
pub enum HypergraphOp {
    /// A vertex to be added, with the encoded tree of its data.
    VertexAdd { op: VertexAdd, tree: Result<Vec<u8>, QuilError> },
    VertexRemove(VertexRemove),
    /// A hyperedge to be added, with the success of committing to its tree.
    HyperedgeAdd { op: HyperedgeAdd, commit: Answer },
    HyperedgeRemove(HyperedgeRemove),
}

/// A request to the hypergraph engine: its type tag, its reading as an operation,
/// the addresses that it locks where it decodes at all, and the signatures that were
/// checked for it and hold.
pub struct HypergraphRequest {
    pub inner_type_prefix: u32,
    pub validated: Result<HypergraphOp, QuilError>,
    pub lock_writes: Option<Result<Vec<Vec<u8>>, QuilError>>,
    pub valid: ValidSignatures,
    /// The cost of a vertex to be added.
    pub vertex_add_cost: Result<i128, QuilError>,
}

/// The type tags of the hypergraph operations, and what some of them cost.
pub struct HypergraphTypes {
    /// Every tag that belongs to the hypergraph engine.
    pub prefixes: Vec<u32>,
    pub vertex_add: u32,
    pub vertex_remove: u32,
    pub hyperedge_remove: u32,
    pub vertex_remove_cost: i128,
    pub hyperedge_remove_cost: i128,
}

impl HypergraphOp {
    /// The operation as it is checked.
    pub open spec fn for_auth<'a>(&'a self) -> OpForAuth<'a> {
        match self {
            HypergraphOp::VertexAdd { op, tree } => OpForAuth::VertexAdd(op),
            HypergraphOp::VertexRemove(op) => OpForAuth::VertexRemove(op),
            HypergraphOp::HyperedgeAdd { op, commit } => OpForAuth::HyperedgeAdd { op },
            HypergraphOp::HyperedgeRemove(op) => OpForAuth::HyperedgeRemove(op),
        }
    }

    /// The domain that the operation writes to.
    pub open spec fn domain(&self) -> Seq<u8> {
        self.for_auth().spec_domain()
    }

    /// The operation's name.
    pub open spec fn label(&self) -> Seq<char> {
        match self {
            HypergraphOp::VertexAdd { op, tree } => "vertex_add"@,
            HypergraphOp::VertexRemove(op) => "vertex_remove"@,
            HypergraphOp::HyperedgeAdd { op, commit } => "hyperedge_add"@,
            HypergraphOp::HyperedgeRemove(op) => "hyperedge_remove"@,
        }
    }

    fn as_op<'a>(&'a self) -> (r: OpForAuth<'a>)
        ensures
            r == self.for_auth(),
    {
        match self {
            HypergraphOp::VertexAdd { op, tree: _ } => OpForAuth::VertexAdd(op),
            HypergraphOp::VertexRemove(op) => OpForAuth::VertexRemove(op),
            HypergraphOp::HyperedgeAdd { op, commit: _ } => OpForAuth::HyperedgeAdd { op },
            HypergraphOp::HyperedgeRemove(op) => OpForAuth::HyperedgeRemove(op),
        }
    }

    fn name(&self) -> (r: &'static str)
        ensures
            r@ == self.label(),
    {
        match self {
            HypergraphOp::VertexAdd { op: _, tree: _ } => "vertex_add",
            HypergraphOp::VertexRemove(_) => "vertex_remove",
            HypergraphOp::HyperedgeAdd { op: _, commit: _ } => "hyperedge_add",
            HypergraphOp::HyperedgeRemove(_) => "hyperedge_remove",
        }
    }
}

/// What a check of the signature means for an operation. Without a resolver it is
/// let through.
pub open spec fn auth_answer(check: AuthCheck, label: Seq<char>) -> Result<(), ErrorView> {
    match check {
        AuthCheck::Verified | AuthCheck::NoResolver => Ok(()),
        AuthCheck::UnknownDomain => Err(
            ErrorView::InvalidArgument(
                "hypergraph "@ + label + ": unknown deployment (no write key resolves)"@,
            ),
        ),
        AuthCheck::Invalid => Err(
            ErrorView::InvalidArgument(
                "hypergraph "@ + label + ": signature does not verify against write key"@,
            ),
        ),
    }
}

/// Turns a check of the signature into an answer.
pub fn auth_check_to_result(check: AuthCheck, op_label: &str) -> (a: Answer)
    ensures
        answer(a) == auth_answer(check, op_label@),
{
    match check {
        AuthCheck::Verified | AuthCheck::NoResolver => Ok(()),
        AuthCheck::UnknownDomain => Err(
            QuilError::InvalidArgument(
                concat3(
                    "hypergraph ",
                    op_label,
                    ": unknown deployment (no write key resolves)",
                ),
            ),
        ),
        AuthCheck::Invalid => Err(
            QuilError::InvalidArgument(
                concat3(
                    "hypergraph ",
                    op_label,
                    ": signature does not verify against write key",
                ),
            ),
        ),
    }
}

/// The address of a hyperedge: the second half of its identifier, or zeros where
/// its value is too short to hold one.
pub open spec fn hyperedge_address(value: Seq<u8>) -> Seq<u8> {
    match hyperedge_id(value) {
        Some(id) => id.subrange(32, 64),
        None => zero_seq(32),
    }
}

fn find_hyperedge_address(value: &Vec<u8>) -> (r: Vec<u8>)
    ensures
        r@ == hyperedge_address(value@),
{
    match extract_hyperedge_id(value) {
        Some(id) => sub_bytes(id.as_slice(), 32, 64),
        None => zeros(32),
    }
}

/// The hypergraph execution engine.
pub struct HypergraphExecutionEngine {
    pub mode: ExecutionMode,
    pub envelopes: EnvelopeTypes,
    pub types: HypergraphTypes,
    pub domains: SystemDomains,
    /// The write keys of the hypergraphs, where they are resolved at all.
    pub config_resolver: Option<WriteKeys>,
    /// Without a state operations are answered and nothing is written.
    pub state: Option<HypergraphState<Vec<u8>>>,
}

/// What an operation comes to.
pub struct HypergraphEffect {
    pub answer: Result<(), ErrorView>,
    pub log: BlobLog,
}

/// The resolver's answer for a domain, if there is a resolver.
pub open spec fn resolved(resolver: Option<WriteKeys>, domain: Seq<u8>) -> Option<Option<Seq<u8>>> {
    match resolver {
        Some(w) => Some(value_of(w.keys@, domain)),
        None => None,
    }
}

/// Whether an operation is authorised: a hyperedge's tree must be there and must
/// commit, and the signature must hold.
pub open spec fn authority(
    resolver: Option<WriteKeys>,
    op: HypergraphOp,
    r: HypergraphRequest,
) -> Result<
    (),
    ErrorView,
> {
    let committed = match op {
        HypergraphOp::HyperedgeAdd { op: h, commit } => if h.value@.len()
            < HYPEREDGE_MIN_VALUE_LEN {
            Err(ErrorView::InvalidArgument("hyperedge commit: value too short"@))
        } else {
            answer(commit)
        },
        _ => Ok(()),
    };
    match committed {
        Err(e) => Err(e),
        Ok(()) => match auth_outcome(resolved(resolver, op.domain()), op.for_auth(), r.valid@) {
            Err(e) => Err(e),
            Ok(check) => auth_answer(check, op.label()),
        },
    }
}

/// The change that an authorised operation makes.
pub open spec fn op_change(op: HypergraphOp, frame_number: u64) -> Result<
    ChangeView<Seq<u8>>,
    ErrorView,
> {
    match op {
        HypergraphOp::VertexAdd { op: v, tree } => match tree {
            Err(e) => Err(e@),
            Ok(blob) => Ok(
                written(v.domain@, v.data_address@, Layer::VertexAdds, frame_number, blob@),
            ),
        },
        HypergraphOp::VertexRemove(v) => Ok(
            deleted(v.domain@, v.data_address@, Layer::VertexRemoves, frame_number),
        ),
        HypergraphOp::HyperedgeAdd { op: h, commit } => Ok(
            written(
                h.domain@,
                hyperedge_address(h.value@),
                Layer::HyperedgeAdds,
                frame_number,
                h.value@,
            ),
        ),
        HypergraphOp::HyperedgeRemove(h) => Ok(
            deleted(
                h.domain@,
                hyperedge_address(h.value@),
                Layer::HyperedgeRemoves,
                frame_number,
            ),
        ),
    }
}

/// The effect of a request on the state. The operation must be for the domain that
/// it was sent to, which must not be one that the node manages; and it must be
/// authorised.
pub open spec fn op_effect(
    e: &HypergraphExecutionEngine,
    log: BlobLog,
    frame_number: u64,
    domain: Seq<u8>,
    r: HypergraphRequest,
) -> HypergraphEffect {
    match r.validated {
        Err(err) => HypergraphEffect { answer: Err(err@), log },
        Ok(op) => if op.domain() != domain {
            HypergraphEffect {
                answer: Err(
                    ErrorView::InvalidArgument(
                        "hypergraph: inner-domain/routing-domain mismatch (inner="@ + hex_text(
                            op.domain(),
                        ) + ", routing="@ + hex_text(domain) + ")"@,
                    ),
                ),
                log,
            }
        } else if e.domains.holds(domain) {
            HypergraphEffect {
                answer: Err(
                    ErrorView::InvalidArgument(
                        "hypergraph: write to system-managed domain "@ + hex_text(domain)
                            + " rejected"@,
                    ),
                ),
                log,
            }
        } else {
            match authority(e.config_resolver, op, r) {
                Err(err) => HypergraphEffect { answer: Err(err), log },
                Ok(()) => match op_change(op, frame_number) {
                    Err(err) => HypergraphEffect { answer: Err(err), log },
                    Ok(c) => HypergraphEffect { answer: Ok(()), log: log.push(c) },
                },
            }
        },
    }
}

/// The log after the requests of a bundle. What is not a hypergraph operation is
/// passed over, and one that is refused stops none of those after it.
pub open spec fn after_ops(
    e: &HypergraphExecutionEngine,
    log: BlobLog,
    frame_number: u64,
    domain: Seq<u8>,
    rs: Seq<Option<HypergraphRequest>>,
) -> BlobLog
    decreases rs.len(),
{
    if rs.len() == 0 {
        log
    } else {
        let before = after_ops(e, log, frame_number, domain, rs.drop_last());
        match rs.last() {
            None => before,
            Some(r) => if e.types.prefixes@.contains(r.inner_type_prefix) {
                op_effect(e, before, frame_number, domain, r).log
            } else {
                before
            },
        }
    }
}

/// The error for a message that is neither a bundle nor a request.
pub open spec fn not_an_envelope() -> ErrorView {
    ErrorView::InvalidArgument("hypergraph: unsupported message type"@)
}

/// What one slot of a bundle adds to the locked addresses.
pub open spec fn slot_locks(types: &HypergraphTypes, slot: Option<HypergraphRequest>) -> Result<
    Seq<Seq<u8>>,
    ErrorView,
> {
    match slot {
        None => Ok(Seq::empty()),
        Some(r) => if types.prefixes@.contains(r.inner_type_prefix) {
            match r.lock_writes {
                None => Ok(Seq::empty()),
                Some(Err(e)) => Err(e@),
                Some(Ok(w)) => Ok(views(w@)),
            }
        } else {
            Ok(Seq::empty())
        },
    }
}

/// What all slots of a bundle add to the locked addresses, in order.
pub open spec fn bundle_locks(types: &HypergraphTypes, rs: Seq<Option<HypergraphRequest>>) -> Result<
    Seq<Seq<u8>>,
    ErrorView,
>
    decreases rs.len(),
{
    if rs.len() == 0 {
        Ok(Seq::empty())
    } else {
        match bundle_locks(types, rs.drop_last()) {
            Err(e) => Err(e),
            Ok(s) => match slot_locks(types, rs.last()) {
                Err(e) => Err(e),
                Ok(t) => Ok(s + t),
            },
        }
    }
}

impl HypergraphTypes {
    /// Does the tag belong to the hypergraph engine?
    pub fn is_hypergraph(&self, prefix: u32) -> (r: bool)
        ensures
            r == self.prefixes@.contains(prefix),
    {
        let mut i: usize = 0;
        while i < self.prefixes.len()
            invariant
                i <= self.prefixes@.len(),
                forall|j: int| 0 <= j < i ==> self.prefixes@[j] != prefix,
            decreases self.prefixes@.len() - i,
        {
            if self.prefixes[i] == prefix {
                return true;
            }
            i += 1;
        }
        false
    }
}

impl HypergraphExecutionEngine {
    /// The structural validation of a bundle.
    pub open spec fn bundle_validation(&self, rs: Seq<Option<HypergraphRequest>>) -> Seq<
        Result<(), ErrorView>,
    > {
        Seq::new(rs.len(), |i: int| self.slot_validation(rs[i]))
    }

    /// The structural validation of a slot.
    pub open spec fn slot_validation(&self, slot: Option<HypergraphRequest>) -> Result<
        (),
        ErrorView,
    > {
        match slot {
            Some(r) => if self.types.prefixes@.contains(r.inner_type_prefix) {
                success_of(r.validated)
            } else {
                Ok(())
            },
            None => Ok(()),
        }
    }

    /// An engine without a state and without a resolver.
    pub fn new(
        mode: ExecutionMode,
        envelopes: EnvelopeTypes,
        types: HypergraphTypes,
        domains: SystemDomains,
    ) -> (r: Self)
        ensures
            r == (HypergraphExecutionEngine {
                mode,
                envelopes,
                types,
                domains,
                config_resolver: None,
                state: None,
            }),
    {
        HypergraphExecutionEngine {
            mode,
            envelopes,
            types,
            domains,
            config_resolver: None,
            state: None,
        }
    }

    /// An engine over a state, without a resolver.
    pub fn new_with_state(
        mode: ExecutionMode,
        envelopes: EnvelopeTypes,
        types: HypergraphTypes,
        domains: SystemDomains,
        state: HypergraphState<Vec<u8>>,
    ) -> (r: Self)
        ensures
            r == (HypergraphExecutionEngine {
                mode,
                envelopes,
                types,
                domains,
                config_resolver: None,
                state: Some(state),
            }),
    {
        HypergraphExecutionEngine {
            mode,
            envelopes,
            types,
            domains,
            config_resolver: None,
            state: Some(state),
        }
    }

    /// Installs a resolver of write keys, so that signatures are checked.
    pub fn with_config_resolver(self, resolver: WriteKeys) -> (r: Self)
        ensures
            r == (HypergraphExecutionEngine { config_resolver: Some(resolver), ..self }),
    {
        HypergraphExecutionEngine { config_resolver: Some(resolver), ..self }
    }

    /// The engine's name.
    pub fn get_name(&self) -> (r: &str)
        ensures
            r@ == "hypergraph"@,
    {
        "hypergraph"
    }

    /// Releases what a message locked: nothing is held.
    pub fn unlock(&self) -> (a: Answer)
        ensures
            answer(a) == Ok::<(), ErrorView>(()),
    {
        Ok(())
    }

    /// Checks that an operation is authorised.
    fn verify_op_authority(&self, op: &HypergraphOp, r: &HypergraphRequest) -> (a: Answer)
        ensures
            answer(a) == authority(self.config_resolver, *op, *r),
    {
        if let HypergraphOp::HyperedgeAdd { op: h, commit } = op {
            if h.value.len() < HYPEREDGE_MIN_VALUE_LEN {
                return Err(invalid_argument("hyperedge commit: value too short"));
            }
            if let Err(e) = commit {
                return Err(e.duplicate());
            }
        }
        let check = verify_op_signature(self.config_resolver.as_ref(), &op.as_op(), &r.valid);
        match check {
            Err(e) => Err(e),
            Ok(c) => auth_check_to_result(c, op.name()),
        }
    }

    fn check_op(&self, domain: &[u8], op: &HypergraphOp, r: &HypergraphRequest) -> (a: Answer)
        ensures
            answer(a) == if op.domain() != domain@ {
                Err::<(), ErrorView>(
                    ErrorView::InvalidArgument(
                        "hypergraph: inner-domain/routing-domain mismatch (inner="@ + hex_text(
                            op.domain(),
                        ) + ", routing="@ + hex_text(domain@) + ")"@,
                    ),
                )
            } else if self.domains.holds(domain@) {
                Err::<(), ErrorView>(
                    ErrorView::InvalidArgument(
                        "hypergraph: write to system-managed domain "@ + hex_text(domain@)
                            + " rejected"@,
                    ),
                )
            } else {
                authority(self.config_resolver, *op, *r)
            },
    {
        let o = op.as_op();
        let inner = o.domain();
        if !bytes_eq(inner, domain) {
            let head = concat3(
                "hypergraph: inner-domain/routing-domain mismatch (inner=",
                hex_encode(inner).as_str(),
                ", routing=",
            );
            return Err(
                QuilError::InvalidArgument(
                    concat3(head.as_str(), hex_encode(domain).as_str(), ")"),
                ),
            );
        }
        if bytes_eq(inner, self.domains.global.as_slice()) || bytes_eq(
            inner,
            self.domains.compute.as_slice(),
        ) || bytes_eq(inner, self.domains.quil_token.as_slice()) {
            return Err(
                QuilError::InvalidArgument(
                    concat3(
                        "hypergraph: write to system-managed domain ",
                        hex_encode(inner).as_str(),
                        " rejected",
                    ),
                ),
            );
        }
        self.verify_op_authority(op, r)
    }

    /// Applies one operation to the state.
    pub fn invoke_hypergraph_op(&mut self, frame_number: u64, domain: &[u8], r: &HypergraphRequest) -> (a: Answer)
        ensures
            commit_mark(final(self).state) == commit_mark(old(self).state),
            *final(self) == (HypergraphExecutionEngine { state: final(self).state, ..*old(self) }),
            old(self).state is None ==> a is Ok && *final(self) == *old(self),
            old(self).state is Some ==> {
                let eff = op_effect(old(self), old(self).state->Some_0@, frame_number, domain@, *r);
                &&& final(self).state is Some
                &&& final(self).state->Some_0@ == eff.log
                &&& answer(a) == eff.answer
            },
    {
        if self.state.is_none() {
            return Ok(());
        }
        let op = match &r.validated {
            Err(e) => {
                return Err(e.duplicate());
            },
            Ok(op) => op,
        };
        if let Err(e) = self.check_op(domain, op, r) {
            return Err(e);
        }
        match &mut self.state {
            None => Ok(()),
            Some(state) => match op {
                HypergraphOp::VertexAdd { op: v, tree } => match tree {
                    Err(e) => Err(e.duplicate()),
                    Ok(blob) => {
                        state.set(
                            v.domain.as_slice(),
                            v.data_address.as_slice(),
                            Layer::VertexAdds,
                            frame_number,
                            copy_bytes(blob.as_slice()),
                        );
                        Ok(())
                    },
                },
                HypergraphOp::VertexRemove(v) => {
                    state.delete(
                        v.domain.as_slice(),
                        v.data_address.as_slice(),
                        Layer::VertexRemoves,
                        frame_number,
                    );
                    Ok(())
                },
                HypergraphOp::HyperedgeAdd { op: h, commit: _ } => {
                    let addr = find_hyperedge_address(&h.value);
                    state.set(
                        h.domain.as_slice(),
                        addr.as_slice(),
                        Layer::HyperedgeAdds,
                        frame_number,
                        copy_bytes(h.value.as_slice()),
                    );
                    Ok(())
                },
                HypergraphOp::HyperedgeRemove(h) => {
                    let addr = find_hyperedge_address(&h.value);
                    state.delete(
                        h.domain.as_slice(),
                        addr.as_slice(),
                        Layer::HyperedgeRemoves,
                        frame_number,
                    );
                    Ok(())
                },
            },
        }
    }

    fn validate_slot(&self, r: &HypergraphRequest) -> (a: Answer)
        ensures
            answer(a) == self.slot_validation(Some(*r)),
    {
        if self.types.is_hypergraph(r.inner_type_prefix) {
            success(&r.validated)
        } else {
            Ok(())
        }
    }

    fn validate_slots(&self, rs: &Vec<Option<HypergraphRequest>>) -> (a: Answer)
        ensures
            answer(a) == first_err(self.bundle_validation(rs@)),
    {
        let ghost vs = self.bundle_validation(rs@);
        let mut k: usize = 0;
        while k < rs.len()
            invariant
                k <= rs@.len(),
                vs == self.bundle_validation(rs@),
                first_err(vs.take(k as int)) is Ok,
            decreases rs@.len() - k,
        {
            let a = match &rs[k] {
                None => Ok(()),
                Some(r) => self.validate_slot(r),
            };
            proof {
                assert(vs[k as int] == self.slot_validation(rs@[k as int]));
                lemma_first_err_step(vs, k as int);
            }
            if a.is_err() {
                proof {
                    lemma_first_err_prefix(vs, k + 1);
                }
                return a;
            }
            k += 1;
        }
        assert(vs.take(k as int) =~= vs);
        Ok(())
    }

    /// Validates a message by structure.
    pub fn validate_message(&self, message: &[u8], contents: &Envelope<HypergraphRequest>) -> (a: Answer)
        ensures
            answer(a) == match envelope_kind_of(message@, self.envelopes) {
                EnvelopeKind::Bundle => match contents.bundle {
                    Err(e) => Err(e@),
                    Ok(rs) => first_err(self.bundle_validation(rs@)),
                },
                EnvelopeKind::Request => match contents.request {
                    Err(e) => Err(e@),
                    Ok(r) => self.slot_validation(Some(r)),
                },
                _ => Err(not_an_envelope()),
            },
    {
        match envelope_kind(message, &self.envelopes) {
            EnvelopeKind::Bundle => match &contents.bundle {
                Err(e) => Err(e.duplicate()),
                Ok(rs) => self.validate_slots(rs),
            },
            EnvelopeKind::Request => match &contents.request {
                Err(e) => Err(e.duplicate()),
                Ok(r) => self.validate_slot(r),
            },
            _ => Err(invalid_argument("hypergraph: unsupported message type")),
        }
    }

    fn process_slots(&mut self, frame_number: u64, address: &[u8], rs: &Vec<Option<HypergraphRequest>>)
        ensures
            commit_mark(final(self).state) == commit_mark(old(self).state),
            *final(self) == (HypergraphExecutionEngine { state: final(self).state, ..*old(self) }),
            old(self).state is None ==> *final(self) == *old(self),
            old(self).state is Some ==> {
                &&& final(self).state is Some
                &&& final(self).state->Some_0@ == after_ops(
                    old(self),
                    old(self).state->Some_0@,
                    frame_number,
                    address@,
                    rs@,
                )
            },
    {
        let mut k: usize = 0;
        assert(rs@.take(0) =~= Seq::<Option<HypergraphRequest>>::empty());
        while k < rs.len()
            invariant
                commit_mark(self.state) == commit_mark(old(self).state),
                k <= rs@.len(),
                *self == (HypergraphExecutionEngine { state: self.state, ..*old(self) }),
                old(self).state is None ==> *self == *old(self),
                old(self).state is Some ==> {
                    &&& self.state is Some
                    &&& self.state->Some_0@ == after_ops(
                        old(self),
                        old(self).state->Some_0@,
                        frame_number,
                        address@,
                        rs@.take(k as int),
                    )
                },
            decreases rs@.len() - k,
        {
            proof {
                assert(rs@.take(k + 1).drop_last() =~= rs@.take(k as int));
                assert(rs@.take(k + 1).last() == rs@[k as int]);
            }
            if let Some(r) = &rs[k] {
                if self.types.is_hypergraph(r.inner_type_prefix) {
                    proof {
                        if self.state is Some {
                            lemma_effect_ignores_state(
                                self,
                                old(self),
                                self.state->Some_0@,
                                frame_number,
                                address@,
                                *r,
                            );
                        }
                    }
                    let _ = self.invoke_hypergraph_op(frame_number, address, r);
                }
            }
            k += 1;
        }
        assert(rs@.take(k as int) =~= rs@);
    }

    /// Processes a message. An operation that is refused leaves no trace and stops
    /// none of those after it.
    pub fn process_message(
        &mut self,
        frame_number: u64,
        address: &[u8],
        message: &[u8],
        contents: &Envelope<HypergraphRequest>,
    ) -> (res: Result<ProcessMessageResult, QuilError>)
        ensures
            commit_mark(final(self).state) == commit_mark(old(self).state),
            *final(self) == (HypergraphExecutionEngine { state: final(self).state, ..*old(self) }),
            res matches Ok(p) ==> p.messages@.len() == 0 && p.state@.len() == 0,
            old(self).state is None ==> *final(self) == *old(self),
            match envelope_kind_of(message@, old(self).envelopes) {
                EnvelopeKind::Bundle => {
                    &&& processed(res) == success_of(contents.bundle)
                    &&& contents.bundle is Err ==> *final(self) == *old(self)
                    &&& old(self).state is Some ==> (contents.bundle matches Ok(rs)
                        ==> final(self).state is Some && final(self).state->Some_0@ == after_ops(
                        old(self),
                        old(self).state->Some_0@,
                        frame_number,
                        address@,
                        rs@,
                    ))
                },
                EnvelopeKind::Request => {
                    &&& processed(res) == success_of(contents.request)
                    &&& contents.request is Err ==> *final(self) == *old(self)
                    &&& old(self).state is Some ==> (contents.request matches Ok(r)
                        ==> final(self).state is Some && final(self).state->Some_0@ == after_ops(
                        old(self),
                        old(self).state->Some_0@,
                        frame_number,
                        address@,
                        seq![Some(r)],
                    ))
                },
                _ => processed(res) == Err::<(), ErrorView>(not_an_envelope()) && *final(self)
                    == *old(self),
            },
    {
        match envelope_kind(message, &self.envelopes) {
            EnvelopeKind::Bundle => match &contents.bundle {
                Err(e) => Err(e.duplicate()),
                Ok(rs) => {
                    self.process_slots(frame_number, address, rs);
                    Ok(ProcessMessageResult::empty())
                },
            },
            EnvelopeKind::Request => match &contents.request {
                Err(e) => Err(e.duplicate()),
                Ok(r) => {
                    proof {
                        let one = seq![Some(*r)];
                        assert(one.drop_last() =~= Seq::<Option<HypergraphRequest>>::empty());
                        reveal_with_fuel(after_ops, 2);
                    }
                    if self.types.is_hypergraph(r.inner_type_prefix) {
                        let _ = self.invoke_hypergraph_op(frame_number, address, r);
                    }
                    Ok(ProcessMessageResult::empty())
                },
            },
            _ => Err(invalid_argument("hypergraph: unsupported message type")),
        }
    }

    fn lock_slots(&self, rs: &Vec<Option<HypergraphRequest>>) -> (r: Result<Vec<Vec<u8>>, QuilError>)
        ensures
            match r {
                Ok(v) => bundle_locks(&self.types, rs@) == Ok::<Seq<Seq<u8>>, ErrorView>(views(v@)),
                Err(e) => bundle_locks(&self.types, rs@) == Err::<Seq<Seq<u8>>, ErrorView>(e@),
            },
    {
        let mut out: Vec<Vec<u8>> = Vec::new();
        let mut k: usize = 0;
        assert(rs@.take(0) =~= Seq::<Option<HypergraphRequest>>::empty());
        assert(views(out@) =~= Seq::<Seq<u8>>::empty());
        while k < rs.len()
            invariant
                k <= rs@.len(),
                bundle_locks(&self.types, rs@.take(k as int)) == Ok::<Seq<Seq<u8>>, ErrorView>(
                    views(out@),
                ),
            decreases rs@.len() - k,
        {
            let ghost before = views(out@);
            proof {
                assert(rs@.take(k + 1).drop_last() =~= rs@.take(k as int));
                assert(rs@.take(k + 1).last() == rs@[k as int]);
                assert(before + Seq::<Seq<u8>>::empty() =~= before);
            }
            if let Some(r) = &rs[k] {
                if self.types.is_hypergraph(r.inner_type_prefix) {
                    match &r.lock_writes {
                        None => {},
                        Some(Err(e)) => {
                            proof {
                                lemma_locks_prefix(&self.types, rs@, k + 1);
                            }
                            return Err(e.duplicate());
                        },
                        Some(Ok(w)) => {
                            let mut more = copy_all(w);
                            let ghost mv = views(more@);
                            proof {
                                assert forall|i: int| 0 <= i < more@.len() implies more@[i]@
                                    == mv[i] by {}
                                assert(mv == views(w@));
                            }
                            let ghost ov = out@;
                            out.append(&mut more);
                            assert(views(out@) =~= before + mv);
                        },
                    }
                }
            }
            k += 1;
        }
        assert(rs@.take(k as int) =~= rs@);
        Ok(out)
    }

    /// The addresses that a message locks: those that the operations of a bundle
    /// write, or those of a single operation. `single` is what reading the message
    /// itself as an operation gives.
    pub fn lock(
        &self,
        message: &[u8],
        bundle: &Result<Vec<Option<HypergraphRequest>>, QuilError>,
        single: &Option<Result<Vec<Vec<u8>>, QuilError>>,
    ) -> (r: Result<Vec<Vec<u8>>, QuilError>)
        ensures
            (match r {
                Ok(v) => Ok::<Seq<Seq<u8>>, ErrorView>(views(v@)),
                Err(e) => Err::<Seq<Seq<u8>>, ErrorView>(e@),
            }) == match envelope_kind_of(message@, self.envelopes) {
                EnvelopeKind::Short => Ok(Seq::empty()),
                EnvelopeKind::Bundle => match *bundle {
                    Err(e) => Err(e@),
                    Ok(rs) => bundle_locks(&self.types, rs@),
                },
                _ => match *single {
                    None => Ok(Seq::empty()),
                    Some(Err(e)) => Err(e@),
                    Some(Ok(w)) => Ok(views(w@)),
                },
            },
    {
        let none: Vec<Vec<u8>> = Vec::new();
        assert(views(none@) =~= Seq::<Seq<u8>>::empty());
        match envelope_kind(message, &self.envelopes) {
            EnvelopeKind::Short => Ok(none),
            EnvelopeKind::Bundle => match bundle {
                Err(e) => Err(e.duplicate()),
                Ok(rs) => self.lock_slots(rs),
            },
            _ => match single {
                None => Ok(none),
                Some(Err(e)) => Err(e.duplicate()),
                Some(Ok(w)) => Ok(copy_all(w)),
            },
        }
    }

    /// What a message costs.
    pub fn get_cost(&self, message: &[u8], request: &Result<HypergraphRequest, QuilError>) -> (c: Result<
        i128,
        QuilError,
    >)
        ensures
            outcome(c) == if message@.len() < 8 {
                Ok::<i128, ErrorView>(0i128)
            } else {
                match *request {
                    Err(e) => Err(e@),
                    Ok(r) => if r.inner_type_prefix == self.types.vertex_add {
                        outcome(r.vertex_add_cost)
                    } else if r.inner_type_prefix == self.types.vertex_remove {
                        Ok(self.types.vertex_remove_cost)
                    } else if r.inner_type_prefix == self.types.hyperedge_remove {
                        Ok(self.types.hyperedge_remove_cost)
                    } else {
                        Ok(0i128)
                    },
                }
            },
    {
        if message.len() < 8 {
            return Ok(0);
        }
        match request {
            Err(e) => Err(e.duplicate()),
            Ok(r) => if r.inner_type_prefix == self.types.vertex_add {
                match &r.vertex_add_cost {
                    Ok(n) => Ok(*n),
                    Err(e) => Err(e.duplicate()),
                }
            } else if r.inner_type_prefix == self.types.vertex_remove {
                Ok(self.types.vertex_remove_cost)
            } else if r.inner_type_prefix == self.types.hyperedge_remove {
                Ok(self.types.hyperedge_remove_cost)
            } else {
                Ok(0)
            },
        }
    }
}

/// The effect of a request does not look at what the engine holds.
proof fn lemma_effect_ignores_state(
    a: &HypergraphExecutionEngine,
    b: &HypergraphExecutionEngine,
    log: BlobLog,
    frame_number: u64,
    domain: Seq<u8>,
    r: HypergraphRequest,
)
    requires
        a.domains == b.domains,
        a.config_resolver == b.config_resolver,
    ensures
        op_effect(a, log, frame_number, domain, r) == op_effect(b, log, frame_number, domain, r),
{
}

proof fn lemma_locks_prefix(types: &HypergraphTypes, rs: Seq<Option<HypergraphRequest>>, n: int)
    requires
        0 <= n <= rs.len(),
        bundle_locks(types, rs.take(n)) is Err,
    ensures
        bundle_locks(types, rs) == bundle_locks(types, rs.take(n)),
    decreases rs.len(),
{
    if n == rs.len() {
        assert(rs.take(n) =~= rs);
    } else {
        assert(rs.drop_last().take(n) =~= rs.take(n));
        lemma_locks_prefix(types, rs.drop_last(), n);
    }
}

/// No operation writes to a domain that the node manages, nor to another domain
/// than the one it was sent to.
pub proof fn law_only_the_routed_user_domain_is_written(
    e: &HypergraphExecutionEngine,
    log: BlobLog,
    frame_number: u64,
    domain: Seq<u8>,
    r: HypergraphRequest,
)
    ensures
        ({
            let eff = op_effect(e, log, frame_number, domain, r);
            &&& eff.answer is Err ==> eff.log == log
            &&& eff.answer is Ok ==> {
                &&& !e.domains.holds(domain)
                &&& eff.log.len() == log.len() + 1
                &&& eff.log.drop_last() == log
                &&& eff.log.last().place.domain == domain
            }
        }),
{
    let eff = op_effect(e, log, frame_number, domain, r);
    if eff.answer is Ok {
        let c = op_change(r.validated->Ok_0, frame_number)->Ok_0;
        assert(log.push(c).drop_last() =~= log);
    }
}

/// Where there is a resolver, an operation goes through only if its domain has a
/// write key and its signature holds under it.
pub proof fn law_writes_need_the_write_key(
    e: &HypergraphExecutionEngine,
    log: BlobLog,
    frame_number: u64,
    domain: Seq<u8>,
    r: HypergraphRequest,
)
    requires
        e.config_resolver is Some,
        op_effect(e, log, frame_number, domain, r).answer is Ok,
    ensures
        ({
            let op = r.validated->Ok_0.for_auth();
            let key = value_of(e.config_resolver->Some_0.keys@, domain);
            &&& key is Some
            &&& signed_bytes(op) is Ok
            &&& r.valid@.contains(
                SignedView {
                    key: key->Some_0,
                    message: signed_bytes(op)->Ok_0,
                    signature: signature_of(op),
                },
            )
        }),
{
}

} // verus!
