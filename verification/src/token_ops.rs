//! The token operations, and what is known of them when they reach the engine.
//!
//! The canonical decoders, the provers and the token configuration live outside
//! this crate. What they say of an operation reaches the engine as a report of
//! plain values; the engine decides, in order, which of those answers count, what
//! is refused and what is written.

use vstd::prelude::*;
use vstd::string::*;

use crate::assoc::KeyMap;
use crate::bytes::{be_bytes_u64, be_nat, be_seq, copy_bytes, read_be_u32, views};
use crate::checks::{answer, Answer};
use crate::error::{invalid_argument, ErrorView, QuilError};
use crate::text::{concat3, decimal, decimal_seq};

verus! {

/// The type tags of the token operations and of their parts.
pub struct TokenTypes {
    /// Every tag that belongs to the token engine.
    pub prefixes: Vec<u32>,
    pub transaction: u32,
    pub mint_transaction: u32,
    pub pending_transaction: u32,
    pub token_deploy: u32,
    pub token_update: u32,
    pub mint_transaction_input: u32,
    pub pending_transaction_input: u32,
    pub mint_transaction_output: u32,
    pub pending_transaction_output: u32,
}

/// The operations that the engine tells apart.
#[derive(Clone, Copy, Debug, PartialEq, Eq, Structural)]
pub enum TokenKind {
    /// Not a token operation.
    Foreign,
    Transaction,
    Mint,
    Pending,
    Deploy,
    Update,
    /// A token operation that the engine only peeks at.
    Other,
}

impl TokenTypes {
    /// The operation that a type tag names.
    pub open spec fn kind(&self, prefix: u32) -> TokenKind {
        if !self.prefixes@.contains(prefix) {
            TokenKind::Foreign
        } else if prefix == self.transaction {
            TokenKind::Transaction
        } else if prefix == self.mint_transaction {
            TokenKind::Mint
        } else if prefix == self.pending_transaction {
            TokenKind::Pending
        } else if prefix == self.token_deploy {
            TokenKind::Deploy
        } else if prefix == self.token_update {
            TokenKind::Update
        } else {
            TokenKind::Other
        }
    }

    /// Finds the operation that a type tag names.
    pub fn kind_of(&self, prefix: u32) -> (r: TokenKind)
        ensures
            r == self.kind(prefix),
    {
        let mut known = false;
        let mut i: usize = 0;
        while i < self.prefixes.len()
            invariant
                i <= self.prefixes@.len(),
                known == exists|j: int| 0 <= j < i && self.prefixes@[j] == prefix,
            decreases self.prefixes@.len() - i,
        {
            if self.prefixes[i] == prefix {
                known = true;
            }
            i += 1;
        }
        if !known {
            TokenKind::Foreign
        } else if prefix == self.transaction {
            TokenKind::Transaction
        } else if prefix == self.mint_transaction {
            TokenKind::Mint
        } else if prefix == self.pending_transaction {
            TokenKind::Pending
        } else if prefix == self.token_deploy {
            TokenKind::Deploy
        } else if prefix == self.token_update {
            TokenKind::Update
        } else {
            TokenKind::Other
        }
    }
}

/// An answer that depends on whether the domain is the QUIL token's.
pub struct ByDomain<T> {
    pub quil: T,
    pub other: T,
}

impl<T> ByDomain<T> {
    /// The answer for a domain.
    pub open spec fn at(&self, is_quil: bool) -> T {
        if is_quil {
            self.quil
        } else {
            self.other
        }
    }

    /// The answer for a domain.
    pub fn pick(&self, is_quil: bool) -> (r: &T)
        ensures
            *r == self.at(is_quil),
    {
        if is_quil {
            &self.quil
        } else {
            &self.other
        }
    }
}

/// A decoded input.
pub struct TokenInput {
    pub commitment: Vec<u8>,
    pub signature: Vec<u8>,
}

/// What is known of one raw input of a transaction: its reading under each of
/// the three input types, and what the checks say of the standard reading.
pub struct InputReport {
    pub raw: Vec<u8>,
    pub as_standard: Result<TokenInput, QuilError>,
    pub as_mint: Result<TokenInput, QuilError>,
    pub as_pending: Result<TokenInput, QuilError>,
    pub structure: Answer,
    pub hidden_signature: Result<bool, QuilError>,
    /// Where the marker stands that says the input is spent.
    pub spent_address: Result<Vec<u8>, QuilError>,
}

/// A decoded output with one recipient.
pub struct SingleOutput {
    pub commitment: Vec<u8>,
    pub recipient: Result<Vec<u8>, QuilError>,
}

/// A decoded output with two recipients; an absent one is `None`.
pub struct PendingOutput {
    pub commitment: Vec<u8>,
    pub to: Option<Result<Vec<u8>, QuilError>>,
    pub refund: Option<Result<Vec<u8>, QuilError>>,
}

/// What is known of one raw output of a transaction: its reading under each of
/// the three output types.
pub struct OutputReport {
    pub raw: Vec<u8>,
    pub as_standard: Result<SingleOutput, QuilError>,
    pub as_mint: Result<SingleOutput, QuilError>,
    pub as_pending: Result<PendingOutput, QuilError>,
}

/// A vertex to be written.
pub struct VertexWrite {
    pub address: Vec<u8>,
    pub blob: Vec<u8>,
}

/// What an operation creates and spends.
pub struct Materialized {
    pub created: Vec<VertexWrite>,
    pub spent_markers: Vec<VertexWrite>,
}

/// What is known of a decoded transaction.
pub struct TransactionReport {
    pub cost: Result<i128, QuilError>,
    pub structure: Answer,
    pub inputs: Vec<InputReport>,
    pub outputs: Vec<OutputReport>,
    /// Building the transcript and hashing it to the challenge.
    pub challenge: Answer,
    /// The range proof and the balance of inputs, outputs and fees.
    pub sums: ByDomain<Result<bool, QuilError>>,
    pub materialized: Result<Materialized, QuilError>,
}

/// How the tokens of a domain are minted.
#[derive(Clone, Copy, Debug, PartialEq, Eq, Structural)]
pub enum MintVariant {
    ProofOfMeaningfulWork,
    Authority,
    Signature,
    VerkleMultiproofWithSignature,
    Payment,
    NoMint,
    Unknown,
}

/// What the token configuration says of minting in a domain.
pub struct MintConfig {
    pub variant: Option<MintVariant>,
    pub has_authority_key_type: bool,
    pub has_authority_public_key: bool,
    pub has_verkle_root: bool,
    pub has_payment_address: bool,
}

/// What is known of one input of a mint.
pub struct MintInputReport {
    pub decoded: Result<TokenInput, QuilError>,
    pub verkle: Answer,
    pub payment: Answer,
}

/// What is known of one output of a mint.
pub struct MintOutputReport {
    pub decoded: Answer,
    pub recipient: Answer,
}

/// What is known of a decoded mint.
pub struct MintReport {
    pub cost: Result<i128, QuilError>,
    pub structure: Answer,
    pub inputs: Vec<MintInputReport>,
    pub outputs: Vec<MintOutputReport>,
    pub config: MintConfig,
    /// The range proof and the balance of inputs and outputs.
    pub sums: Result<bool, QuilError>,
    pub proof_of_work: Answer,
    pub authority: Result<bool, QuilError>,
    pub transcript: Answer,
    pub materialized_work: ByDomain<Result<Materialized, QuilError>>,
    pub materialized_authority: Result<Materialized, QuilError>,
}

/// What is known of one input of a pending transaction.
pub struct PendingInputReport {
    pub decoded: Answer,
    /// The older signature form is allowed in the QUIL domain only.
    pub structure: ByDomain<Answer>,
}

/// What is known of one output of a pending transaction.
pub struct PendingOutputReport {
    pub decoded: Answer,
    pub structure: Answer,
}

/// What is known of a decoded pending transaction.
pub struct PendingReport {
    pub cost: Result<i128, QuilError>,
    pub structure: Answer,
    pub inputs: Vec<PendingInputReport>,
    pub outputs: Vec<PendingOutputReport>,
    pub verified: ByDomain<Result<bool, QuilError>>,
    pub materialized: Result<Materialized, QuilError>,
}

/// The part of a token's configuration that an update may not change freely.
pub struct TokenConfig {
    pub behavior: u64,
    /// Big-endian; empty where none is set.
    pub supply: Vec<u8>,
}

/// The mathematical value of a [`TokenConfig`].
pub struct ConfigView {
    pub behavior: u64,
    pub supply: Seq<u8>,
}

impl View for TokenConfig {
    type V = ConfigView;

    open spec fn view(&self) -> ConfigView {
        ConfigView { behavior: self.behavior, supply: self.supply@ }
    }
}

/// What is known of a decoded deployment.
pub struct DeployReport {
    pub config: Vec<u8>,
    pub parsed: Answer,
    pub writes: Result<Vec<VertexWrite>, QuilError>,
}

/// What is known of a decoded update.
pub struct UpdateReport {
    pub config: Vec<u8>,
    pub parsed: Result<TokenConfig, QuilError>,
    /// What reading a metadata vertex as a configuration gives, for each vertex that may
    /// stand when the update is applied and that can be read.
    pub prior: KeyMap<Vec<u8>, TokenConfig>,
    pub writes: Result<Vec<VertexWrite>, QuilError>,
}

/// A request to the token engine: its type tag, and what each reading of its
/// bytes gives.
pub struct TokenRequest {
    pub inner_type_prefix: u32,
    pub peek: Answer,
    pub transaction: Result<TransactionReport, QuilError>,
    pub mint: Result<MintReport, QuilError>,
    pub pending: Result<PendingReport, QuilError>,
    pub deploy: Result<DeployReport, QuilError>,
    pub update: Result<UpdateReport, QuilError>,
}

/// An output as it is handed on for materialization.
pub struct TransactionOutput {
    pub frame_number: Vec<u8>,
    pub commitment: Vec<u8>,
    pub recipient: Vec<u8>,
}

/// The mathematical value of a [`TransactionOutput`].
pub struct OutputView {
    pub frame_number: Seq<u8>,
    pub commitment: Seq<u8>,
    pub recipient: Seq<u8>,
}

impl View for TransactionOutput {
    type V = OutputView;

    open spec fn view(&self) -> OutputView {
        OutputView {
            frame_number: self.frame_number@,
            commitment: self.commitment@,
            recipient: self.recipient@,
        }
    }
}

/// The views of a list of outputs.
pub open spec fn output_views(v: Seq<TransactionOutput>) -> Seq<OutputView> {
    Seq::new(v.len(), |i: int| v[i]@)
}

/// An output to `recipient`, stamped with the frame.
pub open spec fn output_to(frame_number: u64, commitment: Seq<u8>, recipient: Seq<u8>) -> OutputView {
    OutputView { frame_number: be_seq(frame_number as nat, 8), commitment, recipient }
}

/// What a single-recipient reading contributes.
pub open spec fn single_outputs(
    r: Result<SingleOutput, QuilError>,
    frame_number: u64,
) -> Result<Seq<OutputView>, ErrorView> {
    match r {
        Err(e) => Err(e@),
        Ok(o) => match o.recipient {
            Err(e) => Err(e@),
            Ok(to) => Ok(seq![output_to(frame_number, o.commitment@, to@)]),
        },
    }
}

/// What a two-recipient reading contributes: the recipient, who must decode,
/// then the refund, which is left out where it does not.
pub open spec fn pending_outputs(
    r: Result<PendingOutput, QuilError>,
    frame_number: u64,
) -> Result<Seq<OutputView>, ErrorView> {
    match r {
        Err(e) => Err(e@),
        Ok(o) => {
            let refund = match o.refund {
                Some(Ok(to)) => seq![output_to(frame_number, o.commitment@, to@)],
                _ => Seq::empty(),
            };
            match o.to {
                Some(Err(e)) => Err(e@),
                Some(Ok(to)) => Ok(seq![output_to(frame_number, o.commitment@, to@)] + refund),
                None => Ok(refund),
            }
        },
    }
}

/// What one raw output contributes. One too short for a type tag is passed over.
pub open spec fn outputs_of(
    types: &TokenTypes,
    o: OutputReport,
    frame_number: u64,
) -> Result<Seq<OutputView>, ErrorView> {
    if o.raw@.len() < 4 {
        Ok(Seq::empty())
    } else if be_nat(o.raw@.subrange(0, 4)) == types.pending_transaction_output as nat {
        pending_outputs(o.as_pending, frame_number)
    } else if be_nat(o.raw@.subrange(0, 4)) == types.mint_transaction_output as nat {
        single_outputs(o.as_mint, frame_number)
    } else {
        single_outputs(o.as_standard, frame_number)
    }
}

/// What all raw outputs contribute, in order; the first failure decides.
pub open spec fn all_outputs(
    types: &TokenTypes,
    os: Seq<OutputReport>,
    frame_number: u64,
) -> Result<Seq<OutputView>, ErrorView>
    decreases os.len(),
{
    if os.len() == 0 {
        Ok(Seq::empty())
    } else {
        match all_outputs(types, os.drop_last(), frame_number) {
            Err(e) => Err(e),
            Ok(s) => match outputs_of(types, os.last(), frame_number) {
                Err(e) => Err(e),
                Ok(t) => Ok(s + t),
            },
        }
    }
}

/// The reading of a raw input that its type tag names.
pub open spec fn input_reading(types: &TokenTypes, i: InputReport) -> Result<TokenInput, QuilError> {
    if be_nat(i.raw@.subrange(0, 4)) == types.pending_transaction_input as nat {
        i.as_pending
    } else if be_nat(i.raw@.subrange(0, 4)) == types.mint_transaction_input as nat {
        i.as_mint
    } else {
        i.as_standard
    }
}

/// The signatures of all raw inputs long enough for a type tag, in order; the
/// first failure decides.
pub open spec fn all_signatures(types: &TokenTypes, is: Seq<InputReport>) -> Result<
    Seq<Seq<u8>>,
    ErrorView,
>
    decreases is.len(),
{
    if is.len() == 0 {
        Ok(Seq::empty())
    } else {
        match all_signatures(types, is.drop_last()) {
            Err(e) => Err(e),
            Ok(s) => if is.last().raw@.len() < 4 {
                Ok(s)
            } else {
                match input_reading(types, is.last()) {
                    Err(e) => Err(e@),
                    Ok(i) => Ok(s.push(i.signature@)),
                }
            },
        }
    }
}

proof fn lemma_outputs_prefix(types: &TokenTypes, os: Seq<OutputReport>, frame_number: u64, n: int)
    requires
        0 <= n <= os.len(),
        all_outputs(types, os.take(n), frame_number) is Err,
    ensures
        all_outputs(types, os, frame_number) == all_outputs(types, os.take(n), frame_number),
    decreases os.len(),
{
    if n == os.len() {
        assert(os.take(n) =~= os);
    } else {
        assert(os.drop_last().take(n) =~= os.take(n));
        lemma_outputs_prefix(types, os.drop_last(), frame_number, n);
    }
}

proof fn lemma_signatures_prefix(types: &TokenTypes, is: Seq<InputReport>, n: int)
    requires
        0 <= n <= is.len(),
        all_signatures(types, is.take(n)) is Err,
    ensures
        all_signatures(types, is) == all_signatures(types, is.take(n)),
    decreases is.len(),
{
    if n == is.len() {
        assert(is.take(n) =~= is);
    } else {
        assert(is.drop_last().take(n) =~= is.take(n));
        lemma_signatures_prefix(types, is.drop_last(), n);
    }
}

fn push_output(
    out: &mut Vec<TransactionOutput>,
    frame_number: u64,
    commitment: &Vec<u8>,
    recipient: &Vec<u8>,
)
    ensures
        output_views(final(out)@) == output_views(old(out)@).push(
            output_to(frame_number, commitment@, recipient@),
        ),
{
    out.push(
        TransactionOutput {
            frame_number: be_bytes_u64(frame_number),
            commitment: copy_bytes(commitment.as_slice()),
            recipient: copy_bytes(recipient.as_slice()),
        },
    );
    assert(output_views(out@) =~= output_views(old(out)@).push(
        output_to(frame_number, commitment@, recipient@),
    ));
}

fn push_single(out: &mut Vec<TransactionOutput>, r: &Result<SingleOutput, QuilError>, frame_number: u64) -> (a:
    Answer)
    ensures
        match single_outputs(*r, frame_number) {
            Ok(s) => a is Ok && output_views(final(out)@) == output_views(old(out)@) + s,
            Err(e) => answer(a) == Err::<(), ErrorView>(e),
        },
{
    match r {
        Err(e) => Err(e.duplicate()),
        Ok(o) => match &o.recipient {
            Err(e) => Err(e.duplicate()),
            Ok(to) => {
                push_output(out, frame_number, &o.commitment, to);
                assert(output_views(out@) =~= output_views(old(out)@) + seq![
                    output_to(frame_number, o.commitment@, to@),
                ]);
                Ok(())
            },
        },
    }
}

fn push_pending(
    out: &mut Vec<TransactionOutput>,
    r: &Result<PendingOutput, QuilError>,
    frame_number: u64,
) -> (a: Answer)
    ensures
        match pending_outputs(*r, frame_number) {
            Ok(s) => a is Ok && output_views(final(out)@) == output_views(old(out)@) + s,
            Err(e) => answer(a) == Err::<(), ErrorView>(e),
        },
{
    match r {
        Err(e) => Err(e.duplicate()),
        Ok(o) => {
            if let Some(to) = &o.to {
                match to {
                    Err(e) => {
                        return Err(e.duplicate());
                    },
                    Ok(to) => push_output(out, frame_number, &o.commitment, to),
                }
            }
            if let Some(Ok(to)) = &o.refund {
                push_output(out, frame_number, &o.commitment, to);
            }
            assert(output_views(out@) =~= output_views(old(out)@) + pending_outputs(
                *r,
                frame_number,
            )->Ok_0);
            Ok(())
        },
    }
}

/// Collects what the raw outputs contribute to a transaction.
pub fn parse_tx_outputs(types: &TokenTypes, raw_outputs: &Vec<OutputReport>, frame_number: u64) -> (r:
    Result<Vec<TransactionOutput>, QuilError>)
    ensures
        match r {
            Ok(v) => all_outputs(types, raw_outputs@, frame_number) == Ok::<
                Seq<OutputView>,
                ErrorView,
            >(output_views(v@)),
            Err(e) => all_outputs(types, raw_outputs@, frame_number) == Err::<
                Seq<OutputView>,
                ErrorView,
            >(e@),
        },
{
    let mut out: Vec<TransactionOutput> = Vec::new();
    let ghost os = raw_outputs@;
    let mut i: usize = 0;
    assert(output_views(out@) =~= Seq::<OutputView>::empty());
    while i < raw_outputs.len()
        invariant
            i <= raw_outputs@.len(),
            os == raw_outputs@,
            all_outputs(types, os.take(i as int), frame_number) == Ok::<Seq<OutputView>, ErrorView>(
                output_views(out@),
            ),
        decreases raw_outputs@.len() - i,
    {
        let o = &raw_outputs[i];
        let ghost before = output_views(out@);
        proof {
            assert(os.take(i + 1).drop_last() =~= os.take(i as int));
            assert(os.take(i + 1).last() == *o);
        }
        if o.raw.len() >= 4 {
            let tag: u32 = read_be_u32(o.raw.as_slice());
            let a = if tag == types.pending_transaction_output {
                push_pending(&mut out, &o.as_pending, frame_number)
            } else if tag == types.mint_transaction_output {
                push_single(&mut out, &o.as_mint, frame_number)
            } else {
                push_single(&mut out, &o.as_standard, frame_number)
            };
            if let Err(e) = a {
                proof {
                    lemma_outputs_prefix(types, os, frame_number, i + 1);
                }
                return Err(e);
            }
        } else {
            assert(before + Seq::<OutputView>::empty() =~= before);
        }
        i += 1;
    }
    assert(os.take(i as int) =~= os);
    Ok(out)
}

/// Collects the signatures of the raw inputs of a transaction.
pub fn parse_tx_input_sigs(types: &TokenTypes, raw_inputs: &Vec<InputReport>) -> (r: Result<
    Vec<Vec<u8>>,
    QuilError,
>)
    ensures
        match r {
            Ok(v) => all_signatures(types, raw_inputs@) == Ok::<Seq<Seq<u8>>, ErrorView>(views(v@)),
            Err(e) => all_signatures(types, raw_inputs@) == Err::<Seq<Seq<u8>>, ErrorView>(e@),
        },
{
    let mut out: Vec<Vec<u8>> = Vec::new();
    let ghost is = raw_inputs@;
    let mut i: usize = 0;
    assert(views(out@) =~= Seq::<Seq<u8>>::empty());
    while i < raw_inputs.len()
        invariant
            i <= raw_inputs@.len(),
            is == raw_inputs@,
            all_signatures(types, is.take(i as int)) == Ok::<Seq<Seq<u8>>, ErrorView>(views(out@)),
        decreases raw_inputs@.len() - i,
    {
        let n = &raw_inputs[i];
        let ghost before = views(out@);
        proof {
            assert(is.take(i + 1).drop_last() =~= is.take(i as int));
            assert(is.take(i + 1).last() == *n);
        }
        if n.raw.len() >= 4 {
            let tag: u32 = read_be_u32(n.raw.as_slice());
            let reading = if tag == types.pending_transaction_input {
                &n.as_pending
            } else if tag == types.mint_transaction_input {
                &n.as_mint
            } else {
                &n.as_standard
            };
            match reading {
                Ok(input) => {
                    out.push(copy_bytes(input.signature.as_slice()));
                    assert(views(out@) =~= before.push(input.signature@));
                },
                Err(e) => {
                    proof {
                        lemma_signatures_prefix(types, is, i + 1);
                    }
                    return Err(e.duplicate());
                },
            }
        }
        i += 1;
    }
    assert(is.take(i as int) =~= is);
    Ok(out)
}

/// What is known of an output of a pending transaction nested in a payment: its
/// commitment and the verification keys of its two recipients.
pub struct NestedOutput {
    pub commitment: Vec<u8>,
    pub to_key: Result<Vec<u8>, QuilError>,
    pub refund_key: Result<Vec<u8>, QuilError>,
}

/// What is known of a pending transaction nested in a payment.
pub struct NestedPayment {
    pub verified: Result<bool, QuilError>,
    pub outputs: Vec<Result<NestedOutput, QuilError>>,
}

/// The output of a nested payment that a mint's own checks go on with.
pub struct NestedPendingResult {
    pub output_commitment: Vec<u8>,
    pub to_verification_key: Vec<u8>,
    pub refund_verification_key: Vec<u8>,
}

/// The bytes of the output that a payment refers to: its commitment and its two
/// keys. The nested transaction must decode and verify, the index must name one of
/// its outputs, and that output and its recipients must decode, in this order.
pub open spec fn nested_payment(nested: Result<NestedPayment, QuilError>, output_idx: usize) -> Result<
    (Seq<u8>, Seq<u8>, Seq<u8>),
    ErrorView,
> {
    match nested {
        Err(e) => Err(e@),
        Ok(n) => match n.verified {
            Err(e) => Err(e@),
            Ok(false) => Err(
                ErrorView::InvalidArgument(
                    "mint payment: nested PendingTransaction verify failed"@,
                ),
            ),
            Ok(true) => if output_idx >= n.outputs@.len() {
                Err(
                    ErrorView::InvalidArgument(
                        "mint payment: nested output_idx "@ + decimal_seq(output_idx as nat)
                            + " >= outputs len "@ + decimal_seq(n.outputs@.len()),
                    ),
                )
            } else {
                match n.outputs@[output_idx as int] {
                    Err(e) => Err(e@),
                    Ok(o) => match o.to_key {
                        Err(e) => Err(e@),
                        Ok(to) => match o.refund_key {
                            Err(e) => Err(e@),
                            Ok(refund) => Ok((o.commitment@, to@, refund@)),
                        },
                    },
                }
            },
        },
    }
}

/// Checks the pending transaction that pays for a mint and takes out the output
/// that the payment refers to.
pub fn check_nested_payment(nested: &Result<NestedPayment, QuilError>, output_idx: usize) -> (r:
    Result<NestedPendingResult, QuilError>)
    ensures
        match r {
            Ok(p) => nested_payment(*nested, output_idx) == Ok::<
                (Seq<u8>, Seq<u8>, Seq<u8>),
                ErrorView,
            >((p.output_commitment@, p.to_verification_key@, p.refund_verification_key@)),
            Err(e) => nested_payment(*nested, output_idx) == Err::<
                (Seq<u8>, Seq<u8>, Seq<u8>),
                ErrorView,
            >(e@),
        },
{
    let n = match nested {
        Err(e) => {
            return Err(e.duplicate());
        },
        Ok(n) => n,
    };
    match &n.verified {
        Err(e) => {
            return Err(e.duplicate());
        },
        Ok(v) => if !*v {
            return Err(
                invalid_argument("mint payment: nested PendingTransaction verify failed"),
            );
        },
    }
    if output_idx >= n.outputs.len() {
        let mut m = concat3(
            "mint payment: nested output_idx ",
            decimal(output_idx as u64).as_str(),
            " >= outputs len ",
        );
        m.append(decimal(n.outputs.len() as u64).as_str());
        return Err(QuilError::InvalidArgument(m));
    }
    match &n.outputs[output_idx] {
        Err(e) => Err(e.duplicate()),
        Ok(o) => match &o.to_key {
            Err(e) => Err(e.duplicate()),
            Ok(to) => match &o.refund_key {
                Err(e) => Err(e.duplicate()),
                Ok(refund) => Ok(
                    NestedPendingResult {
                        output_commitment: copy_bytes(o.commitment.as_slice()),
                        to_verification_key: copy_bytes(to.as_slice()),
                        refund_verification_key: copy_bytes(refund.as_slice()),
                    },
                ),
            },
        },
    }
}

} // verus!
