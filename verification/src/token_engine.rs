//! The token execution engine: checks token operations and writes what they
//! create and spend.

use vstd::prelude::*;

use crate::assoc::value_of;
use crate::bytes::{be_nat, bytes_eq, copy_bytes, views};
use crate::checks::{
    answer, both, first_err, lemma_first_err_prefix, lemma_first_err_step, must_hold, require_true,
    success, success_of, Answer,
};
use crate::domains::ExecutionMode;
use crate::envelope::{envelope_kind, envelope_kind_of, Envelope, EnvelopeKind, EnvelopeTypes};
use crate::error::{invalid_argument, outcome, ErrorView, QuilError};
use crate::state::{
    commit_mark, lemma_lookup_written, lookup, written, ChangeView, HypergraphState, Layer, Place,
};
use crate::text::{concat3, decimal, decimal_seq};
use crate::token_ops::{
    all_outputs, all_signatures, output_views, parse_tx_input_sigs, parse_tx_outputs, ConfigView,
    DeployReport,
    InputReport, Materialized, MintInputReport, MintOutputReport, MintReport, MintVariant,
    OutputReport, OutputView, PendingInputReport, PendingOutputReport, PendingReport, TokenKind,
    TokenRequest, TokenTypes, TransactionOutput, TransactionReport, UpdateReport, VertexWrite,
};

verus! {

/// A log of raw vertices.
pub type BlobLog = Seq<ChangeView<Seq<u8>>>;

/// What the engine works with: the type tags and addresses of the token
/// operations, and which of the optional providers are installed.
pub struct TokenWiring {
    pub envelopes: EnvelopeTypes,
    pub types: TokenTypes,
    pub quil_token: Vec<u8>,
    pub metadata_address: Vec<u8>,
    pub bulletproofs: bool,
    pub decaf: bool,
    pub key_manager: bool,
    pub clock_store: bool,
}

/// What an operation comes to: the engine's answer, the changes it makes to the
/// state, and whether the domain's cached configuration becomes stale.
pub struct TokenEffect {
    pub answer: Result<(), ErrorView>,
    pub changes: BlobLog,
    pub invalidates: bool,
}

/// Nothing happens.
pub open spec fn no_effect(a: Result<(), ErrorView>) -> TokenEffect {
    TokenEffect { answer: a, changes: Seq::empty(), invalidates: false }
}

/// The vertex additions of a list of writes.
pub open spec fn vertex_changes(domain: Seq<u8>, frame_number: u64, ws: Seq<VertexWrite>) -> BlobLog {
    Seq::new(
        ws.len(),
        |i: int| written(domain, ws[i].address@, Layer::VertexAdds, frame_number, ws[i].blob@),
    )
}

/// What a materialized operation adds: first what it creates, then the markers
/// of what it spends.
pub open spec fn materialized_changes(domain: Seq<u8>, frame_number: u64, m: Materialized) -> BlobLog {
    vertex_changes(domain, frame_number, m.created@) + vertex_changes(
        domain,
        frame_number,
        m.spent_markers@,
    )
}

/// An operation that writes its materialization once its checks have passed.
pub open spec fn write_effect(
    checks: Result<(), ErrorView>,
    m: Result<Materialized, QuilError>,
    domain: Seq<u8>,
    frame_number: u64,
) -> TokenEffect {
    match checks {
        Err(e) => no_effect(Err(e)),
        Ok(()) => match m {
            Err(e) => no_effect(Err(e@)),
            Ok(m) => TokenEffect {
                answer: Ok(()),
                changes: materialized_changes(domain, frame_number, m),
                invalidates: false,
            },
        },
    }
}

/// The checks of one input before anything is summed up.
pub open spec fn input_check(i: InputReport, idx: nat) -> Result<(), ErrorView> {
    first_err(
        seq![
            success_of(i.as_standard),
            answer(i.structure),
            must_hold(
                i.hidden_signature,
                ErrorView::InvalidArgument(
                    "transaction: input "@ + decimal_seq(idx) + " hidden-signature verify failed"@,
                ),
            ),
        ],
    )
}

/// The checks of all inputs, in order.
pub open spec fn input_checks(is: Seq<InputReport>) -> Seq<Result<(), ErrorView>> {
    Seq::new(is.len(), |k: int| input_check(is[k], k as nat))
}

/// Each output must decode.
pub open spec fn output_checks(os: Seq<OutputReport>) -> Seq<Result<(), ErrorView>> {
    Seq::new(os.len(), |k: int| success_of(os[k].as_standard))
}

/// Is there a spent marker at the address?
pub open spec fn is_spent(log: BlobLog, domain: Seq<u8>, address: Seq<u8>) -> bool {
    lookup(log, Place { domain, address, layer: Layer::VertexAdds }) is Some
}

/// An input must not have been spent before.
pub open spec fn spent_check(log: BlobLog, domain: Seq<u8>, i: InputReport, idx: nat) -> Result<
    (),
    ErrorView,
> {
    both(
        success_of(i.as_standard),
        match i.spent_address {
            Err(e) => Err(e@),
            Ok(a) => if is_spent(log, domain, a@) {
                Err(
                    ErrorView::InvalidArgument(
                        "transaction: input "@ + decimal_seq(idx) + " already spent (double-spend)"@,
                    ),
                )
            } else {
                Ok(())
            },
        },
    )
}

/// The spent checks of all inputs, in order.
pub open spec fn spent_checks(log: BlobLog, domain: Seq<u8>, is: Seq<InputReport>) -> Seq<
    Result<(), ErrorView>,
> {
    Seq::new(is.len(), |k: int| spent_check(log, domain, is[k], k as nat))
}

/// May tokens of this variant be minted at all?
pub open spec fn mintable(variant: Option<MintVariant>) -> Result<(), ErrorView> {
    match variant {
        Some(MintVariant::NoMint) => Err(
            ErrorView::InvalidArgument("mint transaction: token has NoMintBehavior (not mintable)"@),
        ),
        Some(MintVariant::Unknown) | None => Err(
            ErrorView::InvalidArgument(
                "mint transaction: unrecognized MintBehavior/ProofBasis combination or token config resolver unavailable for domain"@,
            ),
        ),
        _ => Ok(()),
    }
}

/// An operation of an update that the prior configuration forbids: another
/// behavior, or a smaller supply where both name one.
pub open spec fn update_gate(behavior: u64, supply: Seq<u8>, prior_behavior: u64, prior_supply: Seq<u8>) -> Result<
    (),
    ErrorView,
> {
    if prior_behavior != behavior {
        Err(ErrorView::InvalidArgument("token update: behavior cannot be updated"@))
    } else if prior_supply.len() > 0 && supply.len() > 0 && be_nat(supply) < be_nat(prior_supply) {
        Err(ErrorView::InvalidArgument("token update: supply cannot be reduced"@))
    } else {
        Ok(())
    }
}

/// `num_bigint::BigUint::from_bytes_be` on both byte strings and `<` between the
/// two numbers: reads each string as an unsigned big-endian number, the empty one
/// as zero, and compares.
#[verifier::external_body]
fn be_less(a: &[u8], b: &[u8]) -> (r: bool)
    ensures
        r == (be_nat(a@) < be_nat(b@)),
{
    num_bigint::BigUint::from_bytes_be(a) < num_bigint::BigUint::from_bytes_be(b)
}

impl TokenWiring {
    /// Is the domain the QUIL token's?
    pub open spec fn is_quil(&self, domain: Seq<u8>) -> bool {
        domain == self.quil_token@
    }

    /// The checks of a transaction, which run where both proof providers are
    /// installed.
    pub open spec fn transaction_checks(
        &self,
        log: BlobLog,
        domain: Seq<u8>,
        t: TransactionReport,
    ) -> Result<(), ErrorView> {
        if self.bulletproofs && self.decaf {
            first_err(
                seq![
                    answer(t.challenge),
                    first_err(input_checks(t.inputs@)),
                    first_err(output_checks(t.outputs@)),
                    must_hold(
                        t.sums.at(self.is_quil(domain)),
                        ErrorView::InvalidArgument(
                            "transaction: bulletproof range/sum verify failed"@,
                        ),
                    ),
                    first_err(spent_checks(log, domain, t.inputs@)),
                ],
            )
        } else {
            Ok(())
        }
    }

    /// What stands ready for the materialization of a transaction: its outputs
    /// and the signatures of its inputs.
    pub open spec fn prepared(
        &self,
        log: BlobLog,
        domain: Seq<u8>,
        frame_number: u64,
        t: TransactionReport,
    ) -> Result<(Seq<OutputView>, Seq<Seq<u8>>), ErrorView> {
        match self.transaction_checks(log, domain, t) {
            Err(e) => Err(e),
            Ok(()) => match all_outputs(&self.types, t.outputs@, frame_number) {
                Err(e) => Err(e),
                Ok(outputs) => match all_signatures(&self.types, t.inputs@) {
                    Err(e) => Err(e),
                    Ok(signatures) => Ok((outputs, signatures)),
                },
            },
        }
    }

    /// The effect of a transaction.
    pub open spec fn transaction_effect(
        &self,
        log: BlobLog,
        domain: Seq<u8>,
        frame_number: u64,
        r: Result<TransactionReport, QuilError>,
    ) -> TokenEffect {
        match r {
            Err(e) => no_effect(Err(e@)),
            Ok(t) => write_effect(
                match self.prepared(log, domain, frame_number, t) {
                    Ok(_) => Ok(()),
                    Err(e) => Err(e),
                },
                t.materialized,
                domain,
                frame_number,
            ),
        }
    }

    /// Runs the checks of a transaction and collects what its materialization
    /// is handed.
    pub fn prepare_transaction(
        &self,
        state: &HypergraphState<Vec<u8>>,
        domain: &[u8],
        frame_number: u64,
        t: &TransactionReport,
    ) -> (r: Result<(Vec<TransactionOutput>, Vec<Vec<u8>>), QuilError>)
        ensures
            match r {
                Ok(p) => self.prepared(state@, domain@, frame_number, *t) == Ok::<
                    (Seq<OutputView>, Seq<Seq<u8>>),
                    ErrorView,
                >((output_views(p.0@), views(p.1@))),
                Err(e) => self.prepared(state@, domain@, frame_number, *t) == Err::<
                    (Seq<OutputView>, Seq<Seq<u8>>),
                    ErrorView,
                >(e@),
            },
    {
        if self.bulletproofs && self.decaf {
            let a = self.check_transaction(state, domain, t);
            if let Err(e) = a {
                return Err(e);
            }
        }
        match parse_tx_outputs(&self.types, &t.outputs, frame_number) {
            Err(e) => Err(e),
            Ok(outputs) => match parse_tx_input_sigs(&self.types, &t.inputs) {
                Err(e) => Err(e),
                Ok(signatures) => Ok((outputs, signatures)),
            },
        }
    }

    fn check_transaction(
        &self,
        state: &HypergraphState<Vec<u8>>,
        domain: &[u8],
        t: &TransactionReport,
    ) -> (a: Answer)
        requires
            self.bulletproofs && self.decaf,
        ensures
            answer(a) == self.transaction_checks(state@, domain@, *t),
    {
        proof {
            reveal_with_fuel(first_err, 6);
        }
        let ghost s = seq![
            answer(t.challenge),
            first_err(input_checks(t.inputs@)),
            first_err(output_checks(t.outputs@)),
            must_hold(
                t.sums.at(self.is_quil(domain@)),
                ErrorView::InvalidArgument("transaction: bulletproof range/sum verify failed"@),
            ),
            first_err(spent_checks(state@, domain@, t.inputs@)),
        ];
        proof {
            lemma_five(s);
        }
        if let Err(e) = &t.challenge {
            return Err(e.duplicate());
        }
        let a = check_inputs(&t.inputs);
        if a.is_err() {
            return a;
        }
        let a = check_outputs(&t.outputs);
        if a.is_err() {
            return a;
        }
        let quil = bytes_eq(domain, self.quil_token.as_slice());
        let a = require_true(
            t.sums.pick(quil),
            invalid_argument("transaction: bulletproof range/sum verify failed"),
        );
        if a.is_err() {
            return a;
        }
        check_unspent(state, domain, &t.inputs)
    }
}

/// The first error of five checks.
proof fn lemma_five(s: Seq<Result<(), ErrorView>>)
    requires
        s.len() == 5,
    ensures
        first_err(s) == both(s[0], both(s[1], both(s[2], both(s[3], s[4])))),
{
    reveal_with_fuel(first_err, 6);
    assert(s.drop_last().last() == s[3]);
    assert(s.drop_last().drop_last().last() == s[2]);
    assert(s.drop_last().drop_last().drop_last().last() == s[1]);
    assert(s.drop_last().drop_last().drop_last().drop_last().last() == s[0]);
}

/// The first error of three checks.
proof fn lemma_three(s: Seq<Result<(), ErrorView>>)
    requires
        s.len() == 3,
    ensures
        first_err(s) == both(s[0], both(s[1], s[2])),
{
    reveal_with_fuel(first_err, 4);
    assert(s.drop_last().last() == s[1]);
    assert(s.drop_last().drop_last().last() == s[0]);
}

fn indexed_error(head: &str, idx: usize, tail: &str) -> (r: QuilError)
    ensures
        r@ == ErrorView::InvalidArgument(head@ + decimal_seq(idx as nat) + tail@),
{
    QuilError::InvalidArgument(concat3(head, decimal(idx as u64).as_str(), tail))
}

fn check_input(i: &InputReport, idx: usize) -> (a: Answer)
    ensures
        answer(a) == input_check(*i, idx as nat),
{
    proof {
        lemma_three(
            seq![
                success_of(i.as_standard),
                answer(i.structure),
                must_hold(
                    i.hidden_signature,
                    ErrorView::InvalidArgument(
                        "transaction: input "@ + decimal_seq(idx as nat)
                            + " hidden-signature verify failed"@,
                    ),
                ),
            ],
        );
    }
    let a = success(&i.as_standard);
    if a.is_err() {
        return a;
    }
    let a = success(&i.structure);
    if a.is_err() {
        return a;
    }
    require_true(
        &i.hidden_signature,
        indexed_error("transaction: input ", idx, " hidden-signature verify failed"),
    )
}

fn check_inputs(is: &Vec<InputReport>) -> (a: Answer)
    ensures
        answer(a) == first_err(input_checks(is@)),
{
    let ghost rs = input_checks(is@);
    let mut k: usize = 0;
    while k < is.len()
        invariant
            k <= is@.len(),
            rs == input_checks(is@),
            first_err(rs.take(k as int)) is Ok,
        decreases is@.len() - k,
    {
        let a = check_input(&is[k], k);
        proof {
            lemma_first_err_step(rs, k as int);
        }
        if a.is_err() {
            proof {
                lemma_first_err_prefix(rs, k + 1);
            }
            return a;
        }
        k += 1;
    }
    assert(rs.take(k as int) =~= rs);
    Ok(())
}

fn check_outputs(os: &Vec<OutputReport>) -> (a: Answer)
    ensures
        answer(a) == first_err(output_checks(os@)),
{
    let ghost rs = output_checks(os@);
    let mut k: usize = 0;
    while k < os.len()
        invariant
            k <= os@.len(),
            rs == output_checks(os@),
            first_err(rs.take(k as int)) is Ok,
        decreases os@.len() - k,
    {
        let a = success(&os[k].as_standard);
        proof {
            lemma_first_err_step(rs, k as int);
        }
        if a.is_err() {
            proof {
                lemma_first_err_prefix(rs, k + 1);
            }
            return a;
        }
        k += 1;
    }
    assert(rs.take(k as int) =~= rs);
    Ok(())
}

fn check_unspent(state: &HypergraphState<Vec<u8>>, domain: &[u8], is: &Vec<InputReport>) -> (a: Answer)
    ensures
        answer(a) == first_err(spent_checks(state@, domain@, is@)),
{
    let ghost rs = spent_checks(state@, domain@, is@);
    let mut k: usize = 0;
    while k < is.len()
        invariant
            k <= is@.len(),
            rs == spent_checks(state@, domain@, is@),
            first_err(rs.take(k as int)) is Ok,
        decreases is@.len() - k,
    {
        let i = &is[k];
        let mut a = success(&i.as_standard);
        if a.is_ok() {
            a = match &i.spent_address {
                Err(e) => Err(e.duplicate()),
                Ok(addr) => if state.get(domain, addr.as_slice(), Layer::VertexAdds).is_some() {
                    Err(indexed_error("transaction: input ", k, " already spent (double-spend)"))
                } else {
                    Ok(())
                },
            };
        }
        proof {
            assert(rs[k as int] == spent_check(state@, domain@, *i, k as nat));
            lemma_first_err_step(rs, k as int);
        }
        if a.is_err() {
            proof {
                lemma_first_err_prefix(rs, k + 1);
            }
            return a;
        }
        k += 1;
    }
    assert(rs.take(k as int) =~= rs);
    Ok(())
}

/// Each input of a mint must decode.
pub open spec fn mint_input_checks(is: Seq<MintInputReport>) -> Seq<Result<(), ErrorView>> {
    Seq::new(is.len(), |k: int| success_of(is[k].decoded))
}

/// Each output of a mint must decode.
pub open spec fn mint_output_checks(os: Seq<MintOutputReport>) -> Seq<Result<(), ErrorView>> {
    Seq::new(os.len(), |k: int| answer(os[k].decoded))
}

/// The recipient of each output of a mint must decode.
pub open spec fn recipient_checks(os: Seq<MintOutputReport>) -> Seq<Result<(), ErrorView>> {
    Seq::new(os.len(), |k: int| answer(os[k].recipient))
}

/// The multiproof of each input of a mint.
pub open spec fn verkle_checks(is: Seq<MintInputReport>) -> Seq<Result<(), ErrorView>> {
    Seq::new(is.len(), |k: int| answer(is[k].verkle))
}

/// The payment behind each input of a mint.
pub open spec fn payment_checks(is: Seq<MintInputReport>) -> Seq<Result<(), ErrorView>> {
    Seq::new(is.len(), |k: int| answer(is[k].payment))
}

/// The checks of a mint that its variant adds.
pub open spec fn variant_checks(w: &TokenWiring, m: MintReport) -> Result<(), ErrorView> {
    match m.config.variant {
        Some(MintVariant::ProofOfMeaningfulWork) => if w.key_manager {
            answer(m.proof_of_work)
        } else {
            Ok(())
        },
        Some(MintVariant::Authority) | Some(MintVariant::Signature) => if w.key_manager && w.decaf
            && m.config.has_authority_key_type && m.config.has_authority_public_key {
            must_hold(
                m.authority,
                ErrorView::InvalidArgument("mint authority/signature: verify failed"@),
            )
        } else {
            Ok(())
        },
        Some(MintVariant::VerkleMultiproofWithSignature) => if m.config.has_verkle_root {
            both(
                first_err(recipient_checks(m.outputs@)),
                both(answer(m.transcript), first_err(verkle_checks(m.inputs@))),
            )
        } else {
            Ok(())
        },
        Some(MintVariant::Payment) => if !w.decaf {
            Ok(())
        } else if !m.config.has_payment_address {
            Err(ErrorView::InvalidArgument("mint payment: resolver missing payment_address"@))
        } else {
            both(
                first_err(recipient_checks(m.outputs@)),
                both(answer(m.transcript), first_err(payment_checks(m.inputs@))),
            )
        },
        _ => Ok(()),
    }
}

/// The checks of a mint.
pub open spec fn mint_checks(w: &TokenWiring, m: MintReport) -> Result<(), ErrorView> {
    both(
        first_err(mint_input_checks(m.inputs@)),
        both(
            first_err(mint_output_checks(m.outputs@)),
            both(
                mintable(m.config.variant),
                if w.bulletproofs {
                    both(
                        must_hold(
                            m.sums,
                            ErrorView::InvalidArgument(
                                "mint transaction: bulletproof range/sum verify failed"@,
                            ),
                        ),
                        variant_checks(w, m),
                    )
                } else {
                    Ok(())
                },
            ),
        ),
    )
}

/// The materialization that a mint's variant calls for.
pub open spec fn mint_materialized(w: &TokenWiring, domain: Seq<u8>, m: MintReport) -> Result<
    Materialized,
    QuilError,
> {
    if m.config.variant == Some(MintVariant::ProofOfMeaningfulWork) {
        m.materialized_work.at(w.is_quil(domain))
    } else {
        m.materialized_authority
    }
}

/// The effect of a mint.
pub open spec fn mint_effect(
    w: &TokenWiring,
    domain: Seq<u8>,
    frame_number: u64,
    r: Result<MintReport, QuilError>,
) -> TokenEffect {
    match r {
        Err(e) => no_effect(Err(e@)),
        Ok(m) => write_effect(
            mint_checks(w, m),
            mint_materialized(w, domain, m),
            domain,
            frame_number,
        ),
    }
}

/// The checks of a pending transaction.
pub open spec fn pending_checks(w: &TokenWiring, domain: Seq<u8>, p: PendingReport) -> Result<
    (),
    ErrorView,
> {
    both(
        answer(p.structure),
        if w.bulletproofs && w.decaf {
            must_hold(
                p.verified.at(w.is_quil(domain)),
                ErrorView::InvalidArgument("pending transaction: crypto verify failed"@),
            )
        } else {
            Ok(())
        },
    )
}

/// The effect of a pending transaction.
pub open spec fn pending_effect(
    w: &TokenWiring,
    domain: Seq<u8>,
    frame_number: u64,
    r: Result<PendingReport, QuilError>,
) -> TokenEffect {
    match r {
        Err(e) => no_effect(Err(e@)),
        Ok(p) => write_effect(pending_checks(w, domain, p), p.materialized, domain, frame_number),
    }
}

/// The effect of writing a configuration: the cached one becomes stale, also
/// where there was nothing to write.
pub open spec fn config_effect(
    config: Seq<u8>,
    checks: Result<(), ErrorView>,
    writes: Result<Vec<VertexWrite>, QuilError>,
    domain: Seq<u8>,
    frame_number: u64,
) -> TokenEffect {
    if config.len() == 0 {
        TokenEffect { answer: Ok(()), changes: Seq::empty(), invalidates: true }
    } else {
        match checks {
            Err(e) => no_effect(Err(e)),
            Ok(()) => match writes {
                Err(e) => no_effect(Err(e@)),
                Ok(ws) => TokenEffect {
                    answer: Ok(()),
                    changes: vertex_changes(domain, frame_number, ws@),
                    invalidates: true,
                },
            },
        }
    }
}

/// The effect of a deployment. Only a 32-byte domain can be deployed to.
pub open spec fn deploy_effect(domain: Seq<u8>, frame_number: u64, r: Result<DeployReport, QuilError>) -> TokenEffect {
    if domain.len() != 32 {
        no_effect(Ok(()))
    } else {
        match r {
            Err(e) => no_effect(Err(e@)),
            Ok(d) => config_effect(d.config@, answer(d.parsed), d.writes, domain, frame_number),
        }
    }
}

/// The configuration that stands in a domain: what its metadata vertex reads as.
pub open spec fn prior_config(w: &TokenWiring, log: BlobLog, domain: Seq<u8>, u: UpdateReport) -> Option<
    ConfigView,
> {
    match lookup(log, Place { domain, address: w.metadata_address@, layer: Layer::VertexAdds }) {
        Some(blob) => value_of(u.prior@, blob),
        None => None,
    }
}

/// The checks of an update. A prior configuration counts where the domain has a
/// metadata vertex that reads as one.
pub open spec fn update_checks(w: &TokenWiring, log: BlobLog, domain: Seq<u8>, u: UpdateReport) -> Result<
    (),
    ErrorView,
> {
    match u.parsed {
        Err(e) => Err(e@),
        Ok(c) => match prior_config(w, log, domain, u) {
            Some(p) => update_gate(c.behavior, c.supply@, p.behavior, p.supply),
            None => Ok(()),
        },
    }
}

/// The effect of an update. Only a 32-byte domain can be updated.
pub open spec fn update_effect(
    w: &TokenWiring,
    log: BlobLog,
    domain: Seq<u8>,
    frame_number: u64,
    r: Result<UpdateReport, QuilError>,
) -> TokenEffect {
    if domain.len() != 32 {
        no_effect(Ok(()))
    } else {
        match r {
            Err(e) => no_effect(Err(e@)),
            Ok(u) => config_effect(
                u.config@,
                update_checks(w, log, domain, u),
                u.writes,
                domain,
                frame_number,
            ),
        }
    }
}

/// The effect of a request on a state.
pub open spec fn request_effect(
    w: &TokenWiring,
    log: BlobLog,
    domain: Seq<u8>,
    frame_number: u64,
    r: TokenRequest,
) -> TokenEffect {
    match w.types.kind(r.inner_type_prefix) {
        TokenKind::Transaction => w.transaction_effect(log, domain, frame_number, r.transaction),
        TokenKind::Mint => mint_effect(w, domain, frame_number, r.mint),
        TokenKind::Pending => pending_effect(w, domain, frame_number, r.pending),
        TokenKind::Deploy => deploy_effect(domain, frame_number, r.deploy),
        TokenKind::Update => update_effect(w, log, domain, frame_number, r.update),
        TokenKind::Foreign | TokenKind::Other => no_effect(Ok(())),
    }
}

fn write_vertices(
    state: &mut HypergraphState<Vec<u8>>,
    domain: &[u8],
    frame_number: u64,
    ws: &Vec<VertexWrite>,
)
    ensures
        final(state).committed == old(state).committed,
        final(state)@ == old(state)@ + vertex_changes(domain@, frame_number, ws@),
        old(state).wf() ==> final(state).wf(),
{
    let ghost cs = vertex_changes(domain@, frame_number, ws@);
    let mut k: usize = 0;
    assert(state@ =~= old(state)@ + cs.take(0));
    while k < ws.len()
        invariant
            state.committed == old(state).committed,
            k <= ws@.len(),
            cs == vertex_changes(domain@, frame_number, ws@),
            state@ == old(state)@ + cs.take(k as int),
            old(state).wf() ==> state.wf(),
        decreases ws@.len() - k,
    {
        state.set(
            domain,
            ws[k].address.as_slice(),
            Layer::VertexAdds,
            frame_number,
            copy_bytes(ws[k].blob.as_slice()),
        );
        assert(state@ =~= old(state)@ + cs.take(k + 1));
        k += 1;
    }
    assert(cs.take(k as int) =~= cs);
}

/// Writes what a materialized operation creates and spends.
pub fn write_tx_result(
    state: &mut HypergraphState<Vec<u8>>,
    domain: &[u8],
    frame_number: u64,
    result: &Materialized,
)
    ensures
        final(state).committed == old(state).committed,
        final(state)@ == old(state)@ + materialized_changes(domain@, frame_number, *result),
        old(state).wf() ==> final(state).wf(),
{
    write_vertices(state, domain, frame_number, &result.created);
    write_vertices(state, domain, frame_number, &result.spent_markers);
    assert(state@ =~= old(state)@ + materialized_changes(domain@, frame_number, *result));
}

fn write_checked(
    state: &mut HypergraphState<Vec<u8>>,
    domain: &[u8],
    frame_number: u64,
    checks: Answer,
    m: &Result<Materialized, QuilError>,
) -> (a: Answer)
    ensures
        final(state).committed == old(state).committed,
        ({
            let eff = write_effect(answer(checks), *m, domain@, frame_number);
            &&& answer(a) == eff.answer
            &&& final(state)@ == old(state)@ + eff.changes
            &&& !eff.invalidates
        }),
        old(state).wf() ==> final(state).wf(),
{
    assert(old(state)@ + Seq::<ChangeView<Seq<u8>>>::empty() =~= old(state)@);
    if checks.is_err() {
        return checks;
    }
    match m {
        Err(e) => Err(e.duplicate()),
        Ok(m) => {
            write_tx_result(state, domain, frame_number, m);
            Ok(())
        },
    }
}

fn check_mint_inputs(is: &Vec<MintInputReport>) -> (a: Answer)
    ensures
        answer(a) == first_err(mint_input_checks(is@)),
{
    let ghost rs = mint_input_checks(is@);
    let mut k: usize = 0;
    while k < is.len()
        invariant
            k <= is@.len(),
            rs == mint_input_checks(is@),
            first_err(rs.take(k as int)) is Ok,
        decreases is@.len() - k,
    {
        let a = success(&is[k].decoded);
        proof {
            lemma_first_err_step(rs, k as int);
        }
        if a.is_err() {
            proof {
                lemma_first_err_prefix(rs, k + 1);
            }
            return a;
        }
        k += 1;
    }
    assert(rs.take(k as int) =~= rs);
    Ok(())
}

fn check_mint_outputs(is: &Vec<MintOutputReport>) -> (a: Answer)
    ensures
        answer(a) == first_err(mint_output_checks(is@)),
{
    let ghost rs = mint_output_checks(is@);
    let mut k: usize = 0;
    while k < is.len()
        invariant
            k <= is@.len(),
            rs == mint_output_checks(is@),
            first_err(rs.take(k as int)) is Ok,
        decreases is@.len() - k,
    {
        let a = success(&is[k].decoded);
        proof {
            lemma_first_err_step(rs, k as int);
        }
        if a.is_err() {
            proof {
                lemma_first_err_prefix(rs, k + 1);
            }
            return a;
        }
        k += 1;
    }
    assert(rs.take(k as int) =~= rs);
    Ok(())
}

fn check_recipients(is: &Vec<MintOutputReport>) -> (a: Answer)
    ensures
        answer(a) == first_err(recipient_checks(is@)),
{
    let ghost rs = recipient_checks(is@);
    let mut k: usize = 0;
    while k < is.len()
        invariant
            k <= is@.len(),
            rs == recipient_checks(is@),
            first_err(rs.take(k as int)) is Ok,
        decreases is@.len() - k,
    {
        let a = success(&is[k].recipient);
        proof {
            lemma_first_err_step(rs, k as int);
        }
        if a.is_err() {
            proof {
                lemma_first_err_prefix(rs, k + 1);
            }
            return a;
        }
        k += 1;
    }
    assert(rs.take(k as int) =~= rs);
    Ok(())
}

fn check_verkle(is: &Vec<MintInputReport>) -> (a: Answer)
    ensures
        answer(a) == first_err(verkle_checks(is@)),
{
    let ghost rs = verkle_checks(is@);
    let mut k: usize = 0;
    while k < is.len()
        invariant
            k <= is@.len(),
            rs == verkle_checks(is@),
            first_err(rs.take(k as int)) is Ok,
        decreases is@.len() - k,
    {
        let a = success(&is[k].verkle);
        proof {
            lemma_first_err_step(rs, k as int);
        }
        if a.is_err() {
            proof {
                lemma_first_err_prefix(rs, k + 1);
            }
            return a;
        }
        k += 1;
    }
    assert(rs.take(k as int) =~= rs);
    Ok(())
}

fn check_payments(is: &Vec<MintInputReport>) -> (a: Answer)
    ensures
        answer(a) == first_err(payment_checks(is@)),
{
    let ghost rs = payment_checks(is@);
    let mut k: usize = 0;
    while k < is.len()
        invariant
            k <= is@.len(),
            rs == payment_checks(is@),
            first_err(rs.take(k as int)) is Ok,
        decreases is@.len() - k,
    {
        let a = success(&is[k].payment);
        proof {
            lemma_first_err_step(rs, k as int);
        }
        if a.is_err() {
            proof {
                lemma_first_err_prefix(rs, k + 1);
            }
            return a;
        }
        k += 1;
    }
    assert(rs.take(k as int) =~= rs);
    Ok(())
}

fn check_variant(w: &TokenWiring, m: &MintReport) -> (a: Answer)
    ensures
        answer(a) == variant_checks(w, *m),
{
    match m.config.variant {
        Some(MintVariant::ProofOfMeaningfulWork) => if w.key_manager {
            success(&m.proof_of_work)
        } else {
            Ok(())
        },
        Some(MintVariant::Authority) | Some(MintVariant::Signature) => if w.key_manager && w.decaf
            && m.config.has_authority_key_type && m.config.has_authority_public_key {
            require_true(
                &m.authority,
                invalid_argument("mint authority/signature: verify failed"),
            )
        } else {
            Ok(())
        },
        Some(MintVariant::VerkleMultiproofWithSignature) => if m.config.has_verkle_root {
            let a = check_recipients(&m.outputs);
            if a.is_err() {
                return a;
            }
            let a = success(&m.transcript);
            if a.is_err() {
                return a;
            }
            check_verkle(&m.inputs)
        } else {
            Ok(())
        },
        Some(MintVariant::Payment) => if !w.decaf {
            Ok(())
        } else if !m.config.has_payment_address {
            Err(invalid_argument("mint payment: resolver missing payment_address"))
        } else {
            let a = check_recipients(&m.outputs);
            if a.is_err() {
                return a;
            }
            let a = success(&m.transcript);
            if a.is_err() {
                return a;
            }
            check_payments(&m.inputs)
        },
        _ => Ok(()),
    }
}

fn check_mint(w: &TokenWiring, m: &MintReport) -> (a: Answer)
    ensures
        answer(a) == mint_checks(w, *m),
{
    let a = check_mint_inputs(&m.inputs);
    if a.is_err() {
        return a;
    }
    let a = check_mint_outputs(&m.outputs);
    if a.is_err() {
        return a;
    }
    match m.config.variant {
        Some(MintVariant::NoMint) => {
            return Err(
                invalid_argument("mint transaction: token has NoMintBehavior (not mintable)"),
            );
        },
        Some(MintVariant::Unknown) | None => {
            return Err(
                invalid_argument(
                    "mint transaction: unrecognized MintBehavior/ProofBasis combination or token config resolver unavailable for domain",
                ),
            );
        },
        _ => {},
    }
    if w.bulletproofs {
        let a = require_true(
            &m.sums,
            invalid_argument("mint transaction: bulletproof range/sum verify failed"),
        );
        if a.is_err() {
            return a;
        }
        return check_variant(w, m);
    }
    Ok(())
}

fn run_mint(
    w: &TokenWiring,
    state: &mut HypergraphState<Vec<u8>>,
    domain: &[u8],
    frame_number: u64,
    r: &Result<MintReport, QuilError>,
) -> (a: Answer)
    ensures
        final(state).committed == old(state).committed,
        ({
            let eff = mint_effect(w, domain@, frame_number, *r);
            &&& answer(a) == eff.answer
            &&& final(state)@ == old(state)@ + eff.changes
            &&& !eff.invalidates
        }),
        old(state).wf() ==> final(state).wf(),
{
    match r {
        Err(e) => {
            assert(old(state)@ + Seq::<ChangeView<Seq<u8>>>::empty() =~= old(state)@);
            Err(e.duplicate())
        },
        Ok(m) => {
            let checks = check_mint(w, m);
            let quil = bytes_eq(domain, w.quil_token.as_slice());
            let is_work = match m.config.variant {
                Some(MintVariant::ProofOfMeaningfulWork) => true,
                _ => false,
            };
            let materialized = if is_work {
                m.materialized_work.pick(quil)
            } else {
                &m.materialized_authority
            };
            write_checked(state, domain, frame_number, checks, materialized)
        },
    }
}

fn run_pending(
    w: &TokenWiring,
    state: &mut HypergraphState<Vec<u8>>,
    domain: &[u8],
    frame_number: u64,
    r: &Result<PendingReport, QuilError>,
) -> (a: Answer)
    ensures
        final(state).committed == old(state).committed,
        ({
            let eff = pending_effect(w, domain@, frame_number, *r);
            &&& answer(a) == eff.answer
            &&& final(state)@ == old(state)@ + eff.changes
            &&& !eff.invalidates
        }),
        old(state).wf() ==> final(state).wf(),
{
    match r {
        Err(e) => {
            assert(old(state)@ + Seq::<ChangeView<Seq<u8>>>::empty() =~= old(state)@);
            Err(e.duplicate())
        },
        Ok(p) => {
            let mut checks = success(&p.structure);
            if checks.is_ok() && w.bulletproofs && w.decaf {
                let quil = bytes_eq(domain, w.quil_token.as_slice());
                checks = require_true(
                    p.verified.pick(quil),
                    invalid_argument("pending transaction: crypto verify failed"),
                );
            }
            write_checked(state, domain, frame_number, checks, &p.materialized)
        },
    }
}

fn run_transaction(
    w: &TokenWiring,
    state: &mut HypergraphState<Vec<u8>>,
    domain: &[u8],
    frame_number: u64,
    r: &Result<TransactionReport, QuilError>,
) -> (a: Answer)
    ensures
        final(state).committed == old(state).committed,
        ({
            let eff = w.transaction_effect(old(state)@, domain@, frame_number, *r);
            &&& answer(a) == eff.answer
            &&& final(state)@ == old(state)@ + eff.changes
            &&& !eff.invalidates
        }),
        old(state).wf() ==> final(state).wf(),
{
    match r {
        Err(e) => {
            assert(old(state)@ + Seq::<ChangeView<Seq<u8>>>::empty() =~= old(state)@);
            Err(e.duplicate())
        },
        Ok(t) => {
            let checks = match w.prepare_transaction(state, domain, frame_number, t) {
                Ok(_) => Ok(()),
                Err(e) => Err(e),
            };
            write_checked(state, domain, frame_number, checks, &t.materialized)
        },
    }
}

/// Writes a configuration; tells also whether the cached one becomes stale.
fn write_config(
    state: &mut HypergraphState<Vec<u8>>,
    domain: &[u8],
    frame_number: u64,
    config: &Vec<u8>,
    checks: Answer,
    writes: &Result<Vec<VertexWrite>, QuilError>,
) -> (r: (Answer, bool))
    ensures
        final(state).committed == old(state).committed,
        ({
            let eff = config_effect(config@, answer(checks), *writes, domain@, frame_number);
            &&& answer(r.0) == eff.answer
            &&& final(state)@ == old(state)@ + eff.changes
            &&& r.1 == eff.invalidates
        }),
        old(state).wf() ==> final(state).wf(),
{
    assert(old(state)@ + Seq::<ChangeView<Seq<u8>>>::empty() =~= old(state)@);
    if config.len() == 0 {
        return (Ok(()), true);
    }
    if checks.is_err() {
        return (checks, false);
    }
    match writes {
        Err(e) => (Err(e.duplicate()), false),
        Ok(ws) => {
            write_vertices(state, domain, frame_number, ws);
            (Ok(()), true)
        },
    }
}

fn run_deploy(
    state: &mut HypergraphState<Vec<u8>>,
    domain: &[u8],
    frame_number: u64,
    r: &Result<DeployReport, QuilError>,
) -> (res: (Answer, bool))
    ensures
        final(state).committed == old(state).committed,
        ({
            let eff = deploy_effect(domain@, frame_number, *r);
            &&& answer(res.0) == eff.answer
            &&& final(state)@ == old(state)@ + eff.changes
            &&& res.1 == eff.invalidates
        }),
        old(state).wf() ==> final(state).wf(),
{
    assert(old(state)@ + Seq::<ChangeView<Seq<u8>>>::empty() =~= old(state)@);
    if domain.len() != 32 {
        return (Ok(()), false);
    }
    match r {
        Err(e) => (Err(e.duplicate()), false),
        Ok(d) => write_config(
            state,
            domain,
            frame_number,
            &d.config,
            success(&d.parsed),
            &d.writes,
        ),
    }
}

fn check_update(
    w: &TokenWiring,
    state: &HypergraphState<Vec<u8>>,
    domain: &[u8],
    u: &UpdateReport,
) -> (a: Answer)
    ensures
        answer(a) == update_checks(w, state@, domain@, *u),
{
    match &u.parsed {
        Err(e) => Err(e.duplicate()),
        Ok(c) => match state.get(domain, w.metadata_address.as_slice(), Layer::VertexAdds) {
            None => Ok(()),
            Some(blob) => match u.prior.get(blob) {
                None => Ok(()),
                Some(p) => {
                    if p.behavior != c.behavior {
                        return Err(invalid_argument("token update: behavior cannot be updated"));
                    }
                    if p.supply.len() > 0 && c.supply.len() > 0 && be_less(
                        c.supply.as_slice(),
                        p.supply.as_slice(),
                    ) {
                        return Err(invalid_argument("token update: supply cannot be reduced"));
                    }
                    Ok(())
                },
            },
        },
    }
}

fn run_update(
    w: &TokenWiring,
    state: &mut HypergraphState<Vec<u8>>,
    domain: &[u8],
    frame_number: u64,
    r: &Result<UpdateReport, QuilError>,
) -> (res: (Answer, bool))
    ensures
        final(state).committed == old(state).committed,
        ({
            let eff = update_effect(w, old(state)@, domain@, frame_number, *r);
            &&& answer(res.0) == eff.answer
            &&& final(state)@ == old(state)@ + eff.changes
            &&& res.1 == eff.invalidates
        }),
        old(state).wf() ==> final(state).wf(),
{
    assert(old(state)@ + Seq::<ChangeView<Seq<u8>>>::empty() =~= old(state)@);
    if domain.len() != 32 {
        return (Ok(()), false);
    }
    match r {
        Err(e) => (Err(e.duplicate()), false),
        Ok(u) => {
            let checks = check_update(w, state, domain, u);
            write_config(state, domain, frame_number, &u.config, checks, &u.writes)
        },
    }
}

/// What processing a message hands on. The engine's effects are in its state,
/// so both lists stay empty.
pub struct ProcessMessageResult {
    pub messages: Vec<Vec<u8>>,
    pub state: Vec<Vec<u8>>,
}

impl ProcessMessageResult {
    /// The result that hands nothing on.
    pub fn empty() -> (r: ProcessMessageResult)
        ensures
            r.messages@.len() == 0,
            r.state@.len() == 0,
    {
        ProcessMessageResult { messages: Vec::new(), state: Vec::new() }
    }
}

/// The outcome of processing, with the error by its view.
pub open spec fn processed(r: Result<ProcessMessageResult, QuilError>) -> Result<(), ErrorView> {
    success_of(r)
}

/// What the engine holds: the state's log, and the domains whose cached
/// configuration became stale, oldest first.
#[verifier::ext_equal]
pub struct TokenStore {
    pub log: BlobLog,
    pub stale: Seq<Seq<u8>>,
}

/// What the engine holds after a request.
pub open spec fn after_request(
    w: &TokenWiring,
    s: TokenStore,
    domain: Seq<u8>,
    frame_number: u64,
    r: TokenRequest,
) -> TokenStore {
    let e = request_effect(w, s.log, domain, frame_number, r);
    TokenStore {
        log: s.log + e.changes,
        stale: if e.invalidates {
            s.stale.push(domain)
        } else {
            s.stale
        },
    }
}

/// What the engine holds after the requests of a bundle, each on what those
/// before it left. A request that is refused stops none of those after it.
pub open spec fn after_bundle(
    w: &TokenWiring,
    s: TokenStore,
    domain: Seq<u8>,
    frame_number: u64,
    rs: Seq<Option<TokenRequest>>,
) -> TokenStore
    decreases rs.len(),
{
    if rs.len() == 0 {
        s
    } else {
        let before = after_bundle(w, s, domain, frame_number, rs.drop_last());
        match rs.last() {
            None => before,
            Some(r) => after_request(w, before, domain, frame_number, r),
        }
    }
}

/// Structural validation of a request: the checks that need neither the state
/// nor a proof provider.
pub open spec fn request_validation(w: &TokenWiring, domain: Seq<u8>, r: TokenRequest) -> Result<
    (),
    ErrorView,
> {
    match w.types.kind(r.inner_type_prefix) {
        TokenKind::Foreign => Ok(()),
        TokenKind::Transaction => match r.transaction {
            Err(e) => Err(e@),
            Ok(t) => both(answer(t.structure), first_err(input_structure(t.inputs@))),
        },
        TokenKind::Mint => match r.mint {
            Err(e) => Err(e@),
            Ok(m) => answer(m.structure),
        },
        TokenKind::Pending => match r.pending {
            Err(e) => Err(e@),
            Ok(p) => both(
                answer(p.structure),
                both(
                    first_err(pending_input_structure(p.inputs@, w.is_quil(domain))),
                    first_err(pending_output_structure(p.outputs@)),
                ),
            ),
        },
        _ => answer(r.peek),
    }
}

/// Each input must decode and be well formed.
pub open spec fn input_structure(is: Seq<InputReport>) -> Seq<Result<(), ErrorView>> {
    Seq::new(is.len(), |k: int| both(success_of(is[k].as_standard), answer(is[k].structure)))
}

/// Each pending input must decode and be well formed for its domain.
pub open spec fn pending_input_structure(is: Seq<PendingInputReport>, is_quil: bool) -> Seq<
    Result<(), ErrorView>,
> {
    Seq::new(is.len(), |k: int| both(answer(is[k].decoded), answer(is[k].structure.at(is_quil))))
}

/// Each pending output must decode and be well formed.
pub open spec fn pending_output_structure(os: Seq<PendingOutputReport>) -> Seq<
    Result<(), ErrorView>,
> {
    Seq::new(os.len(), |k: int| both(answer(os[k].decoded), answer(os[k].structure)))
}

/// The validations of a bundle's requests; an empty slot has nothing to object.
pub open spec fn bundle_validation(w: &TokenWiring, domain: Seq<u8>, rs: Seq<Option<TokenRequest>>) -> Seq<
    Result<(), ErrorView>,
> {
    Seq::new(
        rs.len(),
        |k: int|
            match rs[k] {
                None => Ok(()),
                Some(r) => request_validation(w, domain, r),
            },
    )
}

fn check_input_structure(is: &Vec<InputReport>) -> (a: Answer)
    ensures
        answer(a) == first_err(input_structure(is@)),
{
    let ghost rs = input_structure(is@);
    let mut k: usize = 0;
    while k < is.len()
        invariant
            k <= is@.len(),
            rs == input_structure(is@),
            first_err(rs.take(k as int)) is Ok,
        decreases is@.len() - k,
    {
        let mut a = success(&is[k].as_standard);
        if a.is_ok() {
            a = success(&is[k].structure);
        }
        proof {
            lemma_first_err_step(rs, k as int);
        }
        if a.is_err() {
            proof {
                lemma_first_err_prefix(rs, k + 1);
            }
            return a;
        }
        k += 1;
    }
    assert(rs.take(k as int) =~= rs);
    Ok(())
}

fn check_pending_inputs(is: &Vec<PendingInputReport>, is_quil: bool) -> (a: Answer)
    ensures
        answer(a) == first_err(pending_input_structure(is@, is_quil)),
{
    let ghost rs = pending_input_structure(is@, is_quil);
    let mut k: usize = 0;
    while k < is.len()
        invariant
            k <= is@.len(),
            rs == pending_input_structure(is@, is_quil),
            first_err(rs.take(k as int)) is Ok,
        decreases is@.len() - k,
    {
        let mut a = success(&is[k].decoded);
        if a.is_ok() {
            a = success(is[k].structure.pick(is_quil));
        }
        proof {
            lemma_first_err_step(rs, k as int);
        }
        if a.is_err() {
            proof {
                lemma_first_err_prefix(rs, k + 1);
            }
            return a;
        }
        k += 1;
    }
    assert(rs.take(k as int) =~= rs);
    Ok(())
}

fn check_pending_outputs(os: &Vec<PendingOutputReport>) -> (a: Answer)
    ensures
        answer(a) == first_err(pending_output_structure(os@)),
{
    let ghost rs = pending_output_structure(os@);
    let mut k: usize = 0;
    while k < os.len()
        invariant
            k <= os@.len(),
            rs == pending_output_structure(os@),
            first_err(rs.take(k as int)) is Ok,
        decreases os@.len() - k,
    {
        let mut a = success(&os[k].decoded);
        if a.is_ok() {
            a = success(&os[k].structure);
        }
        proof {
            lemma_first_err_step(rs, k as int);
        }
        if a.is_err() {
            proof {
                lemma_first_err_prefix(rs, k + 1);
            }
            return a;
        }
        k += 1;
    }
    assert(rs.take(k as int) =~= rs);
    Ok(())
}

fn validate_request(w: &TokenWiring, domain: &[u8], r: &TokenRequest) -> (a: Answer)
    ensures
        answer(a) == request_validation(w, domain@, *r),
{
    match w.types.kind_of(r.inner_type_prefix) {
        TokenKind::Foreign => Ok(()),
        TokenKind::Transaction => match &r.transaction {
            Err(e) => Err(e.duplicate()),
            Ok(t) => {
                let a = success(&t.structure);
                if a.is_err() {
                    return a;
                }
                check_input_structure(&t.inputs)
            },
        },
        TokenKind::Mint => match &r.mint {
            Err(e) => Err(e.duplicate()),
            Ok(m) => success(&m.structure),
        },
        TokenKind::Pending => match &r.pending {
            Err(e) => Err(e.duplicate()),
            Ok(p) => {
                let a = success(&p.structure);
                if a.is_err() {
                    return a;
                }
                let quil = bytes_eq(domain, w.quil_token.as_slice());
                let a = check_pending_inputs(&p.inputs, quil);
                if a.is_err() {
                    return a;
                }
                check_pending_outputs(&p.outputs)
            },
        },
        _ => success(&r.peek),
    }
}

/// The cost of a message.
pub open spec fn request_cost(
    types: &TokenTypes,
    message: Seq<u8>,
    request: Result<TokenRequest, QuilError>,
) -> Result<i128, ErrorView> {
    if message.len() < 8 {
        Ok(0i128)
    } else {
        match request {
            Err(_) => Ok(0i128),
            Ok(r) => match types.kind(r.inner_type_prefix) {
                TokenKind::Deploy => match r.deploy {
                    Err(e) => Err(e@),
                    Ok(d) => Ok(d.config@.len() as i128),
                },
                TokenKind::Update => match r.update {
                    Err(e) => Err(e@),
                    Ok(u) => Ok(u.config@.len() as i128),
                },
                TokenKind::Transaction => match r.transaction {
                    Err(e) => Err(e@),
                    Ok(t) => outcome(t.cost),
                },
                TokenKind::Pending => match r.pending {
                    Err(e) => Err(e@),
                    Ok(p) => outcome(p.cost),
                },
                TokenKind::Mint => match r.mint {
                    Err(e) => Err(e@),
                    Ok(m) => outcome(m.cost),
                },
                TokenKind::Foreign | TokenKind::Other => Ok(0i128),
            },
        }
    }
}

fn repeat_cost(c: &Result<i128, QuilError>) -> (r: Result<i128, QuilError>)
    ensures
        outcome(r) == outcome(*c),
{
    match c {
        Ok(n) => Ok(*n),
        Err(e) => Err(e.duplicate()),
    }
}

fn validate_bundle(w: &TokenWiring, domain: &[u8], rs: &Vec<Option<TokenRequest>>) -> (a: Answer)
    ensures
        answer(a) == first_err(bundle_validation(w, domain@, rs@)),
{
    let ghost vs = bundle_validation(w, domain@, rs@);
    let mut k: usize = 0;
    while k < rs.len()
        invariant
            k <= rs@.len(),
            vs == bundle_validation(w, domain@, rs@),
            first_err(vs.take(k as int)) is Ok,
        decreases rs@.len() - k,
    {
        let a = match &rs[k] {
            None => Ok(()),
            Some(r) => validate_request(w, domain, r),
        };
        proof {
            lemma_first_err_step(vs, k as int);
        }
        if a.is_err() {
            proof {
                lemma_first_err_prefix(vs, k + 1);
            }
            return a;
        }
        k += 1;
    }
    assert(vs.take(k as int) =~= vs);
    Ok(())
}

/// The token execution engine.
pub struct TokenExecutionEngine {
    pub mode: ExecutionMode,
    pub wiring: TokenWiring,
    /// Without a state the engine answers every operation and writes nothing.
    pub state: Option<HypergraphState<Vec<u8>>>,
    /// The domains whose cached configuration must be read anew, oldest first.
    pub invalidated: Vec<Vec<u8>>,
}

impl TokenExecutionEngine {
    /// The state's log and the stale domains, of an engine with a state.
    pub open spec fn store(&self) -> TokenStore {
        TokenStore { log: self.state->Some_0@, stale: views(self.invalidated@) }
    }

    /// An engine without a state and without proof providers.
    pub fn new(
        mode: ExecutionMode,
        envelopes: EnvelopeTypes,
        types: TokenTypes,
        quil_token: Vec<u8>,
        metadata_address: Vec<u8>,
    ) -> (r: Self)
        ensures
            r.mode == mode,
            r.state is None,
            r.invalidated@.len() == 0,
            r.wiring == (TokenWiring {
                envelopes,
                types,
                quil_token,
                metadata_address,
                bulletproofs: false,
                decaf: false,
                key_manager: false,
                clock_store: false,
            }),
    {
        TokenExecutionEngine {
            mode,
            wiring: TokenWiring {
                envelopes,
                types,
                quil_token,
                metadata_address,
                bulletproofs: false,
                decaf: false,
                key_manager: false,
                clock_store: false,
            },
            state: None,
            invalidated: Vec::new(),
        }
    }

    /// An engine over a state, without proof providers.
    pub fn new_with_state(
        mode: ExecutionMode,
        envelopes: EnvelopeTypes,
        types: TokenTypes,
        quil_token: Vec<u8>,
        metadata_address: Vec<u8>,
        state: HypergraphState<Vec<u8>>,
    ) -> (r: Self)
        ensures
            r.mode == mode,
            r.state == Some(state),
            r.invalidated@.len() == 0,
            r.wiring == (TokenWiring {
                envelopes,
                types,
                quil_token,
                metadata_address,
                bulletproofs: false,
                decaf: false,
                key_manager: false,
                clock_store: false,
            }),
    {
        let mut r = TokenExecutionEngine::new(mode, envelopes, types, quil_token, metadata_address);
        r.state = Some(state);
        r
    }

    /// Installs the proof providers and the key manager.
    pub fn with_crypto(self) -> (r: Self)
        ensures
            r == (TokenExecutionEngine {
                wiring: TokenWiring {
                    bulletproofs: true,
                    decaf: true,
                    key_manager: true,
                    ..self.wiring
                },
                ..self
            }),
    {
        let mut r = self;
        r.wiring.bulletproofs = true;
        r.wiring.decaf = true;
        r.wiring.key_manager = true;
        r
    }

    /// Installs the store of past frames, which the proof-of-work check reads.
    pub fn with_clock_store(self) -> (r: Self)
        ensures
            r == (TokenExecutionEngine {
                wiring: TokenWiring { clock_store: true, ..self.wiring },
                ..self
            }),
    {
        let mut r = self;
        r.wiring.clock_store = true;
        r
    }

    /// The engine's name.
    pub fn get_name(&self) -> (r: &str)
        ensures
            r@ == "token"@,
    {
        "token"
    }

    /// Releases what a message locked: nothing is held.
    pub fn unlock(&self) -> (a: Answer)
        ensures
            answer(a) == Ok::<(), ErrorView>(()),
    {
        Ok(())
    }

    /// Applies one request to the state.
    pub fn process_request(&mut self, frame_number: u64, address: &[u8], r: &TokenRequest) -> (a: Answer)
        ensures
            commit_mark(final(self).state) == commit_mark(old(self).state),
            final(self).wiring == old(self).wiring,
            final(self).mode == old(self).mode,
            old(self).state is None ==> a is Ok && *final(self) == *old(self),
            old(self).state is Some ==> {
                &&& final(self).state is Some
                &&& answer(a) == request_effect(
                    &old(self).wiring,
                    old(self).store().log,
                    address@,
                    frame_number,
                    *r,
                ).answer
                &&& final(self).store() == after_request(
                    &old(self).wiring,
                    old(self).store(),
                    address@,
                    frame_number,
                    *r,
                )
            },
    {
        let kind = self.wiring.types.kind_of(r.inner_type_prefix);
        let mut stale = false;
        let ghost w = self.wiring;
        let a: Answer = match &mut self.state {
            None => {
                return Ok(());
            },
            Some(state) => {
                assert(state@ + Seq::<ChangeView<Seq<u8>>>::empty() =~= state@);
                match kind {
                    TokenKind::Foreign => Ok(()),
                    TokenKind::Other => Ok(()),
                    TokenKind::Transaction => run_transaction(
                        &self.wiring,
                        state,
                        address,
                        frame_number,
                        &r.transaction,
                    ),
                    TokenKind::Mint => run_mint(
                        &self.wiring,
                        state,
                        address,
                        frame_number,
                        &r.mint,
                    ),
                    TokenKind::Pending => run_pending(
                        &self.wiring,
                        state,
                        address,
                        frame_number,
                        &r.pending,
                    ),
                    TokenKind::Deploy => {
                        let (a, s) = run_deploy(state, address, frame_number, &r.deploy);
                        stale = s;
                        a
                    },
                    TokenKind::Update => {
                        let (a, s) = run_update(
                            &self.wiring,
                            state,
                            address,
                            frame_number,
                            &r.update,
                        );
                        stale = s;
                        a
                    },
                }
            },
        };
        if stale {
            self.invalidated.push(copy_bytes(address));
            assert(views(self.invalidated@) =~= views(old(self).invalidated@).push(address@));
        }
        a
    }

    /// Processes a message. A request that is refused leaves no trace; only an
    /// envelope that does not decode, or that is not known, is an error.
    pub fn process_message(
        &mut self,
        frame_number: u64,
        address: &[u8],
        message: &[u8],
        contents: &Envelope<TokenRequest>,
    ) -> (res: Result<ProcessMessageResult, QuilError>)
        ensures
            commit_mark(final(self).state) == commit_mark(old(self).state),
            final(self).wiring == old(self).wiring,
            final(self).mode == old(self).mode,
            res matches Ok(p) ==> p.messages@.len() == 0 && p.state@.len() == 0,
            old(self).state is None ==> *final(self) == *old(self),
            old(self).state is Some ==> final(self).state is Some,
            match envelope_kind_of(message@, old(self).wiring.envelopes) {
                EnvelopeKind::Short => res is Ok && *final(self) == *old(self),
                EnvelopeKind::Bundle => {
                    &&& processed(res) == success_of(contents.bundle)
                    &&& contents.bundle is Err ==> *final(self) == *old(self)
                    &&& old(self).state is Some ==> (contents.bundle matches Ok(rs)
                        ==> final(self).store() == after_bundle(
                        &old(self).wiring,
                        old(self).store(),
                        address@,
                        frame_number,
                        rs@,
                    ))
                },
                EnvelopeKind::Request => {
                    &&& processed(res) == success_of(contents.request)
                    &&& contents.request is Err ==> *final(self) == *old(self)
                    &&& old(self).state is Some ==> (contents.request matches Ok(r)
                        ==> final(self).store() == after_request(
                        &old(self).wiring,
                        old(self).store(),
                        address@,
                        frame_number,
                        r,
                    ))
                },
                EnvelopeKind::Unsupported => {
                    &&& processed(res) == Err::<(), ErrorView>(
                        ErrorView::InvalidArgument("token: unsupported message type"@),
                    )
                    &&& *final(self) == *old(self)
                },
            },
    {
        match envelope_kind(message, &self.wiring.envelopes) {
            EnvelopeKind::Short => Ok(ProcessMessageResult::empty()),
            EnvelopeKind::Bundle => match &contents.bundle {
                Err(e) => Err(e.duplicate()),
                Ok(rs) => {
                    let mut k: usize = 0;
                    assert(rs@.take(0) =~= Seq::<Option<TokenRequest>>::empty());
                    while k < rs.len()
                        invariant
                            k <= rs@.len(),
                            commit_mark(self.state) == commit_mark(old(self).state),
                            self.wiring == old(self).wiring,
                            self.mode == old(self).mode,
                            old(self).state is None ==> *self == *old(self),
                            old(self).state is Some ==> self.state is Some && self.store()
                                == after_bundle(
                                &old(self).wiring,
                                old(self).store(),
                                address@,
                                frame_number,
                                rs@.take(k as int),
                            ),
                        decreases rs@.len() - k,
                    {
                        proof {
                            assert(rs@.take(k + 1).drop_last() =~= rs@.take(k as int));
                            assert(rs@.take(k + 1).last() == rs@[k as int]);
                        }
                        if let Some(r) = &rs[k] {
                            let _ = self.process_request(frame_number, address, r);
                        }
                        k += 1;
                    }
                    assert(rs@.take(k as int) =~= rs@);
                    Ok(ProcessMessageResult::empty())
                },
            },
            EnvelopeKind::Request => match &contents.request {
                Err(e) => Err(e.duplicate()),
                Ok(r) => {
                    let _ = self.process_request(frame_number, address, r);
                    Ok(ProcessMessageResult::empty())
                },
            },
            EnvelopeKind::Unsupported => Err(invalid_argument("token: unsupported message type")),
        }
    }

    /// Validates a message by structure alone. The first request of a bundle
    /// that is refused decides.
    pub fn validate_message(
        &self,
        address: &[u8],
        message: &[u8],
        contents: &Envelope<TokenRequest>,
    ) -> (a: Answer)
        ensures
            answer(a) == match envelope_kind_of(message@, self.wiring.envelopes) {
                EnvelopeKind::Short => Ok(()),
                EnvelopeKind::Bundle => match contents.bundle {
                    Err(e) => Err(e@),
                    Ok(rs) => first_err(bundle_validation(&self.wiring, address@, rs@)),
                },
                EnvelopeKind::Request => match contents.request {
                    Err(e) => Err(e@),
                    Ok(r) => request_validation(&self.wiring, address@, r),
                },
                EnvelopeKind::Unsupported => Err(
                    ErrorView::InvalidArgument("token: unsupported message type"@),
                ),
            },
    {
        match envelope_kind(message, &self.wiring.envelopes) {
            EnvelopeKind::Short => Ok(()),
            EnvelopeKind::Bundle => match &contents.bundle {
                Err(e) => Err(e.duplicate()),
                Ok(rs) => validate_bundle(&self.wiring, address, rs),
            },
            EnvelopeKind::Request => match &contents.request {
                Err(e) => Err(e.duplicate()),
                Ok(r) => validate_request(&self.wiring, address, r),
            },
            EnvelopeKind::Unsupported => Err(invalid_argument("token: unsupported message type")),
        }
    }

    /// What a message costs. Deployments and updates cost their configuration's
    /// length; anything that is not a token request costs nothing.
    pub fn get_cost(&self, message: &[u8], request: &Result<TokenRequest, QuilError>) -> (c: Result<
        i128,
        QuilError,
    >)
        ensures
            outcome(c) == request_cost(&self.wiring.types, message@, *request),
    {
        if message.len() < 8 {
            return Ok(0);
        }
        match request {
            Err(_) => Ok(0),
            Ok(r) => match self.wiring.types.kind_of(r.inner_type_prefix) {
                TokenKind::Deploy => match &r.deploy {
                    Err(e) => Err(e.duplicate()),
                    Ok(d) => Ok(d.config.len() as i128),
                },
                TokenKind::Update => match &r.update {
                    Err(e) => Err(e.duplicate()),
                    Ok(u) => Ok(u.config.len() as i128),
                },
                TokenKind::Transaction => match &r.transaction {
                    Err(e) => Err(e.duplicate()),
                    Ok(t) => repeat_cost(&t.cost),
                },
                TokenKind::Pending => match &r.pending {
                    Err(e) => Err(e.duplicate()),
                    Ok(p) => repeat_cost(&p.cost),
                },
                TokenKind::Mint => match &r.mint {
                    Err(e) => Err(e.duplicate()),
                    Ok(m) => repeat_cost(&m.cost),
                },
                TokenKind::Foreign | TokenKind::Other => Ok(0),
            },
        }
    }

    /// The addresses that a message locks: token messages lock none.
    pub fn lock(&self) -> (r: Vec<Vec<u8>>)
        ensures
            r@.len() == 0,
    {
        Vec::new()
    }
}

/// A request that is refused changes nothing: neither the state nor the cached
/// configurations.
pub proof fn law_refused_request_leaves_no_trace(
    w: &TokenWiring,
    s: TokenStore,
    domain: Seq<u8>,
    frame_number: u64,
    r: TokenRequest,
)
    requires
        request_effect(w, s.log, domain, frame_number, r).answer is Err,
    ensures
        after_request(w, s, domain, frame_number, r) == s,
{
    assert(s.log + Seq::<ChangeView<Seq<u8>>>::empty() =~= s.log);
}

/// Requests only add to the log: what was written stays written.
pub proof fn law_bundle_extends_log(
    w: &TokenWiring,
    s: TokenStore,
    domain: Seq<u8>,
    frame_number: u64,
    rs: Seq<Option<TokenRequest>>,
)
    ensures
        s.log.is_prefix_of(after_bundle(w, s, domain, frame_number, rs).log),
    decreases rs.len(),
{
    if rs.len() > 0 {
        law_bundle_extends_log(w, s, domain, frame_number, rs.drop_last());
    }
}

/// A transaction cannot be replayed. Where the proof providers are installed and
/// a transaction that marks one of its inputs as spent went through, the same
/// transaction is refused from then on, in whatever state follows by further
/// writes.
pub proof fn law_spent_input_refused(
    w: &TokenWiring,
    log: BlobLog,
    domain: Seq<u8>,
    frame_number: u64,
    t: TransactionReport,
    input: int,
    marker: int,
    later: BlobLog,
    later_frame: u64,
)
    requires
        w.bulletproofs && w.decaf,
        w.transaction_effect(log, domain, frame_number, Ok(t)).answer is Ok,
        0 <= input < t.inputs@.len(),
        0 <= marker < t.materialized->Ok_0.spent_markers@.len(),
        t.inputs@[input].spent_address->Ok_0@
            == t.materialized->Ok_0.spent_markers@[marker].address@,
        forall|i: int| 0 <= i < later.len() ==> (#[trigger] later[i]).value is Some,
    ensures
        w.transaction_effect(
            log + w.transaction_effect(log, domain, frame_number, Ok(t)).changes + later,
            domain,
            later_frame,
            Ok(t),
        ).answer is Err,
{
    let m = t.materialized->Ok_0;
    let changes = w.transaction_effect(log, domain, frame_number, Ok(t)).changes;
    let more = changes + later;
    let at = m.created@.len() + marker;
    let place = Place {
        domain,
        address: m.spent_markers@[marker].address@,
        layer: Layer::VertexAdds,
    };
    assert(changes == materialized_changes(domain, frame_number, m));
    assert(more[at].place == place);
    lemma_lookup_written(log, more, place, at);
    assert(log + changes + later =~= log + more);
    let log2 = log + changes + later;
    let s = seq![
        answer(t.challenge),
        first_err(input_checks(t.inputs@)),
        first_err(output_checks(t.outputs@)),
        must_hold(
            t.sums.at(w.is_quil(domain)),
            ErrorView::InvalidArgument("transaction: bulletproof range/sum verify failed"@),
        ),
        first_err(spent_checks(log, domain, t.inputs@)),
    ];
    let s2 = s.update(4, first_err(spent_checks(log2, domain, t.inputs@)));
    lemma_five(s);
    lemma_five(s2);
    crate::checks::lemma_first_err_ok(spent_checks(log, domain, t.inputs@));
    crate::checks::lemma_first_err_ok(spent_checks(log2, domain, t.inputs@));
    assert(spent_checks(log, domain, t.inputs@)[input] is Ok);
    assert(spent_checks(log2, domain, t.inputs@)[input] is Err);
    assert(s2 =~= seq![
        answer(t.challenge),
        first_err(input_checks(t.inputs@)),
        first_err(output_checks(t.outputs@)),
        must_hold(
            t.sums.at(w.is_quil(domain)),
            ErrorView::InvalidArgument("transaction: bulletproof range/sum verify failed"@),
        ),
        first_err(spent_checks(log2, domain, t.inputs@)),
    ]);
}

/// An update that goes through on a domain with a readable configuration keeps
/// the behavior, and does not shrink a supply that it restates.
pub proof fn law_update_keeps_behavior_and_supply(
    w: &TokenWiring,
    log: BlobLog,
    domain: Seq<u8>,
    frame_number: u64,
    u: UpdateReport,
)
    requires
        domain.len() == 32,
        u.config@.len() > 0,
        prior_config(w, log, domain, u) is Some,
        update_effect(w, log, domain, frame_number, Ok(u)).answer is Ok,
    ensures
        ({
            let prior = prior_config(w, log, domain, u)->Some_0;
            &&& u.parsed is Ok
            &&& u.parsed->Ok_0.behavior == prior.behavior
            &&& prior.supply.len() > 0 && u.parsed->Ok_0.supply@.len() > 0 ==> be_nat(prior.supply)
                <= be_nat(u.parsed->Ok_0.supply@)
        }),
{
}

} // verus!
