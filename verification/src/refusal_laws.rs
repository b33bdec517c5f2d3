//! Laws of refusals: where an operation is not carried out, the answer says why, and the
//! state stays as it was.

use vstd::prelude::*;

use crate::auth::{signed_bytes, AuthCheck, OpForAuth};
use crate::codec::hex_text;
use crate::compute_engine::{compute_check, ComputeExecutionEngine, ComputeRequest};
use crate::error::{ErrorView, QuilError};
use crate::global_engine::{GlobalStep, HeaderCredit, ProverUpdateOp};
use crate::global_intrinsic::{
    attestation, declared_key, header_checks, GlobalIntrinsic, GlobalReport, HeaderReport,
};
use crate::global_join::{merge_effect, rejoin_check, MergeOp};
use crate::global_steps::{filter_effect, kick_effect, kick_link, FilterStep, GlobalLog, StepEffect};
use crate::hypergraph_engine::{
    auth_answer, op_effect, HypergraphExecutionEngine, HypergraphRequest,
};
use crate::join_laws::{at, field_at, in_the_way, is_known, number_at};
use crate::records::{first_byte_of, record_of, Field, GlobalValueView};
use crate::state::{lookup, ChangeView, Layer, Place};
use crate::step_laws::{lemma_tag, tag_number};
use crate::text::decimal_seq;
use crate::token_engine::{
    input_check, mintable, pending_checks, spent_check, update_gate, variant_checks, TokenWiring,
};
use crate::token_ops::{InputReport, MintReport, MintVariant, PendingReport};

verus! {

/// Is the operation refused with this reason, and the state left as it was?
pub open spec fn refused(e: StepEffect, log: GlobalLog, reason: Seq<char>) -> bool {
    e.answer == Err::<(), ErrorView>(ErrorView::InvalidArgument(reason)) && e.log == log
}

/// An operation on an allocation is refused over the prover's address, over the prover,
/// over its key, over the allocation and over the signature, in this order.
pub proof fn law_why_filter_ops_are_refused(
    domain: Seq<u8>,
    log: GlobalLog,
    frame_number: u64,
    address: Option<Vec<u8>>,
    s: FilterStep,
)
    ensures
        ({
            let e = filter_effect(domain, log, frame_number, address, s);
            let a = address->Some_0@;
            let long = address is Some && a.len() >= 32;
            let keyed = long && lookup(log, at(domain, a)) is Some && (field_at(
                domain,
                log,
                a,
                Field::PublicKey,
            ) matches Some(k) && k.len() > 0);
            let placed = keyed && s.allocation_address is Ok;
            let found = placed && lookup(log, at(domain, s.allocation_address->Ok_0@)) is Some;
            &&& !long ==> refused(e, log, "invoke_step: prover address too short"@)
            &&& long && lookup(log, at(domain, a)) is None ==> refused(
                e,
                log,
                "invoke_step: prover not found"@,
            )
            &&& long && lookup(log, at(domain, a)) is Some && !keyed ==> refused(
                e,
                log,
                "invoke_step: prover has no PublicKey"@,
            )
            &&& keyed && s.allocation_address is Err ==> e.answer == Err::<(), ErrorView>(
                s.allocation_address->Err_0@,
            ) && e.log == log
            &&& placed && !found ==> refused(e, log, "invoke_step: allocation not found"@)
            &&& found && s.verified is Err ==> e.answer == Err::<(), ErrorView>(
                s.verified->Err_0@,
            ) && e.log == log
            &&& found && s.verified == Ok::<bool, QuilError>(false) ==> refused(
                e,
                log,
                "invoke_step: signature verification failed at materialize"@,
            )
            &&& found && s.verified == Ok::<bool, QuilError>(true) && s.mutated is Err ==> e.answer
                == Err::<(), ErrorView>(s.mutated->Err_0@) && e.log == log
        }),
{
}

/// A kick is refused where the prover is not there or has no data, and it stops at a
/// link into another domain, with what was marked before.
pub proof fn law_why_kicks_are_refused(
    domain: Seq<u8>,
    log: GlobalLog,
    frame_number: u64,
    address: Result<Vec<u8>, QuilError>,
    before: StepEffect,
    link: Seq<u8>,
)
    ensures
        ({
            let e = kick_effect(domain, log, frame_number, address);
            let a = address->Ok_0@;
            &&& address is Err ==> e.answer == Err::<(), ErrorView>(address->Err_0@) && e.log == log
            &&& address is Ok && lookup(log, at(domain, a)) is None ==> refused(
                e,
                log,
                "invoke_step kick: prover not found"@,
            )
            &&& address is Ok && lookup(log, at(domain, a)) == Some(GlobalValueView::Empty)
                ==> refused(e, log, "invoke_step kick: prover has no data"@)
        }),
        before.answer is Ok && link.len() == 64 && link.subrange(0, 32) != domain ==> refused(
            kick_link(domain, before, frame_number, link),
            before.log,
            "invoke_step kick: hyperedge has non-global allocation atom"@,
        ),
        before.answer is Err ==> kick_link(domain, before, frame_number, link) == before,
{
    if link.len() == 64 {
        assert(link.take(32) =~= link.subrange(0, 32));
    }
}

/// A merge of seniorities is refused without targets, over the address and over the
/// prover, in this order.
pub proof fn law_why_merges_are_refused(
    domain: Seq<u8>,
    log: GlobalLog,
    frame_number: u64,
    op: MergeOp,
)
    ensures
        ({
            let e = merge_effect(domain, log, frame_number, op);
            let a = op.address->Some_0@;
            let some = op.merge_targets@.len() > 0;
            let long = op.address is Some && a.len() >= 32;
            &&& !some ==> refused(e, log, "invoke_step seniority_merge: no merge targets"@)
            &&& some && !long ==> refused(
                e,
                log,
                "invoke_step seniority_merge: address too short"@,
            )
            &&& some && long && lookup(log, at(domain, a)) is None ==> refused(
                e,
                log,
                "invoke_step seniority_merge: prover not found"@,
            )
            &&& some && long && lookup(log, at(domain, a)) == Some(GlobalValueView::Empty)
                ==> refused(e, log, "invoke_step seniority_merge: prover has no data"@)
        }),
{
}

/// An update of a prover is refused without an address, over its length, over the prover
/// and over the signature, in this order.
pub proof fn law_why_updates_are_refused(
    g: &GlobalIntrinsic,
    log: GlobalLog,
    frame_number: u64,
    u: ProverUpdateOp,
)
    ensures
        ({
            let e = g.update_effect(log, frame_number, u);
            let a = u.address->Some_0@;
            let whole = u.address is Some && a.len() == 32;
            let found = whole && is_known(g.domain@, log, a);
            &&& u.address is None ==> refused(e, log, "invoke_update: missing signature"@)
            &&& u.address is Some && !whole ==> refused(
                e,
                log,
                "invoke_update: invalid prover address length"@,
            )
            &&& whole && lookup(log, at(g.domain@, a)) is None ==> refused(
                e,
                log,
                "invoke_update: prover not found"@,
            )
            &&& whole && lookup(log, at(g.domain@, a)) == Some(GlobalValueView::Empty) ==> refused(
                e,
                log,
                "invoke_update: prover has no data"@,
            )
            &&& found && u.verified == Ok::<bool, QuilError>(false) ==> refused(
                e,
                log,
                "invoke_update: signature verification failed at materialize"@,
            )
            &&& found && u.verified is Err ==> e.answer == Err::<(), ErrorView>(
                u.verified->Err_0@,
            ) && e.log == log
        }),
{
}

/// An allocation that stands in the way of a join is named by its status and by the
/// frames since it was joined.
pub proof fn law_why_joins_are_refused(
    domain: Seq<u8>,
    log: GlobalLog,
    frame_number: u64,
    address: Vec<u8>,
)
    ensures
        in_the_way(domain, log, frame_number, address@) ==> rejoin_check(
            domain,
            log,
            frame_number,
            Ok::<Vec<u8>, QuilError>(address),
        ) == Err::<(), ErrorView>(
            ErrorView::InvalidArgument(
                "invoke_step join: allocation still active (status="@ + decimal_seq(
                    first_byte_of(
                        record_of(lookup(log, at(domain, address@))->Some_0),
                        Field::Status,
                    )->Some_0 as nat,
                ) + ", frame_since_join="@ + decimal_seq(
                    if frame_number >= number_at(
                        domain,
                        log,
                        address@,
                        Field::JoinFrameNumber,
                    ) {
                        (frame_number - number_at(domain, log, address@, Field::JoinFrameNumber)) as nat
                    } else {
                        0
                    },
                ) + ")"@,
            ),
        ),
        !in_the_way(domain, log, frame_number, address@) ==> rejoin_check(
            domain,
            log,
            frame_number,
            Ok::<Vec<u8>, QuilError>(address),
        ) is Ok,
{
}

/// A frame header is not credited where the node cannot check it, where the provers
/// cannot be listed, or where its attestation does not hold.
pub proof fn law_why_headers_are_not_credited(g: &GlobalIntrinsic, h: HeaderCredit)
    ensures
        ({
            let p = g.credit_plan(h);
            let able = g.prover_registry && g.frame_prover && g.reward_issuance && g.hypergraph;
            &&& !able ==> p is Ok && p->Ok_0 is None
            &&& able && !g.bls_constructor ==> p->Err_0 == ErrorView::InvalidArgument(
                "invoke_frame_header: missing frame_prover or bls_constructor for attestation verify"@,
            )
            &&& able && g.bls_constructor && h.active_provers is Err ==> p->Err_0
                == ErrorView::InvalidArgument(
                "invoke_frame_header: get_active_provers failed: "@ + h.active_provers->Err_0@,
            )
            &&& able && g.bls_constructor && h.active_provers is Ok && h.attestation is Err
                ==> p->Err_0 == ErrorView::InvalidArgument(
                "invoke_frame_header: frame header attestation invalid: "@ + h.attestation->Err_0@,
            )
            &&& p is Err <==> able && (!g.bls_constructor || h.active_provers is Err
                || h.attestation is Err)
        }),
{
}

/// Bytes that are too short for a tag, or have one that no operation has, are refused
/// both when they are carried out and when they are checked.
pub proof fn law_why_inputs_are_refused(
    g: &GlobalIntrinsic,
    log: GlobalLog,
    frame_number: u64,
    input: Seq<u8>,
    s: GlobalStep,
    r: GlobalReport,
    has_tree: bool,
)
    ensures
        input.len() < 4 ==> refused(
            g.step_effect(log, frame_number, input, s),
            log,
            "global intrinsic invoke_step: input too short"@,
        ),
        input.len() < 4 ==> g.validation(input, r, has_tree) == Err::<bool, ErrorView>(
            ErrorView::InvalidArgument("global intrinsic: input too short"@),
        ),
        input.len() >= 4 && g.types.kind(tag_number(input) as u32) is Unknown ==> refused(
            g.step_effect(log, frame_number, input, s),
            log,
            "global intrinsic invoke_step: unknown type prefix 0x"@ + hex_text(
                input.subrange(0, 4),
            ),
        ),
        input.len() >= 4 && g.types.kind(tag_number(input) as u32) is Unknown ==> g.validation(
            input,
            r,
            has_tree,
        ) == Err::<bool, ErrorView>(
            ErrorView::InvalidArgument(
                "global intrinsic: unknown type prefix 0x"@ + hex_text(input.subrange(0, 4)),
            ),
        ),
{
    if input.len() >= 4 {
        lemma_tag(input);
    }
}

/// A frame header's signature is refused over its bytes, over what is behind it, and over
/// the key that it claims, in this order, each with its own words and kind of error.
pub proof fn law_why_headers_are_refused(h: HeaderReport)
    ensures
        ({
            let v = header_checks(h);
            let there = h.signature_bytes@.len() > 0;
            let read = there && h.signature is Ok;
            let listed = read && h.active_provers is Ok;
            let able = listed && h.throwaway_key is Ok;
            let summed = able && h.aggregate is Ok;
            let claimed = summed && h.aggregate->Ok_0@ == declared_key(h.signature->Ok_0);
            let checked = attestation(h, h.signature->Ok_0);
            &&& !there ==> v->Err_0 == ErrorView::InvalidArgument(
                "FrameHeader op missing BLS aggregate signature"@,
            )
            &&& there && !read ==> v->Err_0 == ErrorView::InvalidArgument(
                "FrameHeader: aggregate signature decode failed: "@ + h.signature->Err_0@,
            )
            &&& read && !listed ==> v->Err_0 == ErrorView::Internal(
                "FrameHeader: get_active_provers: "@ + h.active_provers->Err_0@,
            )
            &&& listed && !able ==> v->Err_0 == ErrorView::Crypto(
                "FrameHeader: throwaway key: "@ + h.throwaway_key->Err_0@,
            )
            &&& able && !summed ==> v->Err_0 == ErrorView::Crypto(
                "FrameHeader: aggregate: "@ + h.aggregate->Err_0@,
            )
            &&& summed && !claimed ==> v->Err_0 == ErrorView::Crypto(
                "FrameHeader: aggregate pubkey does not match signature's declared pubkey"@,
            )
            &&& claimed && checked is Ok && !checked->Ok_0 ==> v->Err_0 == ErrorView::Crypto(
                "FrameHeader: BLS signature / multiproof verification rejected"@,
            )
            &&& claimed && checked is Err ==> v->Err_0 == ErrorView::Crypto(
                "FrameHeader: BLS signature / multiproof verification: "@ + checked->Err_0@,
            )
            &&& v is Ok <==> claimed && checked is Ok && checked->Ok_0
        }),
{
}

/// A hypergraph operation for another domain than it was routed to, or for a domain that
/// the system manages, is refused, and the reason names the domains.
pub proof fn law_why_hypergraph_ops_are_refused(
    e: &HypergraphExecutionEngine,
    log: Seq<ChangeView<Seq<u8>>>,
    frame_number: u64,
    domain: Seq<u8>,
    r: HypergraphRequest,
)
    requires
        r.validated is Ok,
    ensures
        ({
            let op = r.validated->Ok_0;
            let x = op_effect(e, log, frame_number, domain, r);
            &&& op.domain() != domain ==> x.log == log && x.answer == Err::<(), ErrorView>(
                ErrorView::InvalidArgument(
                    "hypergraph: inner-domain/routing-domain mismatch (inner="@ + hex_text(
                        op.domain(),
                    ) + ", routing="@ + hex_text(domain) + ")"@,
                ),
            )
            &&& op.domain() == domain && e.domains.holds(domain) ==> x.log == log && x.answer
                == Err::<(), ErrorView>(
                ErrorView::InvalidArgument(
                    "hypergraph: write to system-managed domain "@ + hex_text(domain)
                        + " rejected"@,
                ),
            )
        }),
{
}

/// A signature that was not found to hold, or for which there is no key, refuses the
/// operation under its own name; without a resolver none is refused.
pub proof fn law_why_signatures_are_refused(label: Seq<char>)
    ensures
        auth_answer(AuthCheck::Verified, label) is Ok,
        auth_answer(AuthCheck::NoResolver, label) is Ok,
        auth_answer(AuthCheck::UnknownDomain, label) == Err::<(), ErrorView>(
            ErrorView::InvalidArgument(
                "hypergraph "@ + label + ": unknown deployment (no write key resolves)"@,
            ),
        ),
        auth_answer(AuthCheck::Invalid, label) == Err::<(), ErrorView>(
            ErrorView::InvalidArgument(
                "hypergraph "@ + label + ": signature does not verify against write key"@,
            ),
        ),
{
}

/// The value of a hyperedge that is to be signed must have 65 bytes.
pub proof fn law_short_hyperedges_are_refused(o: OpForAuth<'_>)
    ensures
        o matches OpForAuth::HyperedgeAdd { op } ==> op.value@.len() < 65 ==> signed_bytes(o) == Err::<
            Seq<u8>,
            ErrorView,
        >(ErrorView::InvalidArgument("hyperedge add auth: value too short"@)),
        o matches OpForAuth::HyperedgeRemove(h) ==> h.value@.len() < 65 ==> signed_bytes(o) == Err::<
            Seq<u8>,
            ErrorView,
        >(ErrorView::InvalidArgument("hyperedge remove auth: value too short"@)),
{
}

/// An execution of code whose check failed is refused.
pub proof fn law_why_executions_are_refused(e: &ComputeExecutionEngine, r: ComputeRequest)
    ensures
        e.types.kind(r.inner_type_prefix) is Execute && e.bulletproofs && r.decoded is Ok
            && r.decoded->Ok_0.verified == Ok::<bool, QuilError>(false) ==> compute_check(e, r)
            == Err::<(), ErrorView>(ErrorView::InvalidArgument("code execute: verify failed"@)),
        r.decoded is Err && (e.types.kind(r.inner_type_prefix) is Execute || e.types.kind(
            r.inner_type_prefix,
        ) is Deploy || e.types.kind(r.inner_type_prefix) is Finalize) ==> compute_check(e, r)
            == Err::<(), ErrorView>(r.decoded->Err_0@),
{
}

/// An input whose hidden signature does not hold, or that was spent before, is refused by
/// its place among the inputs.
pub proof fn law_why_inputs_are_not_spent(
    log: Seq<ChangeView<Seq<u8>>>,
    domain: Seq<u8>,
    i: InputReport,
    idx: nat,
)
    ensures
        i.as_standard is Ok && i.structure is Ok && i.hidden_signature == Ok::<bool, QuilError>(
            false,
        ) ==> input_check(i, idx) == Err::<(), ErrorView>(
            ErrorView::InvalidArgument(
                "transaction: input "@ + decimal_seq(idx) + " hidden-signature verify failed"@,
            ),
        ),
        i.as_standard is Ok && i.spent_address is Ok && lookup(
            log,
            (Place { domain, address: i.spent_address->Ok_0@, layer: Layer::VertexAdds }),
        ) is Some ==> spent_check(log, domain, i, idx) == Err::<(), ErrorView>(
            ErrorView::InvalidArgument(
                "transaction: input "@ + decimal_seq(idx) + " already spent (double-spend)"@,
            ),
        ),
        i.as_standard is Err ==> input_check(i, idx) is Err && spent_check(log, domain, i, idx)
            is Err,
{
    reveal_with_fuel(crate::checks::first_err, 4);
    let cs = seq![
        crate::checks::success_of(i.as_standard),
        crate::checks::answer(i.structure),
        crate::checks::must_hold(
            i.hidden_signature,
            ErrorView::InvalidArgument(
                "transaction: input "@ + decimal_seq(idx) + " hidden-signature verify failed"@,
            ),
        ),
    ];
    assert(cs.drop_last() =~= seq![cs[0], cs[1]]);
    assert(cs.drop_last().drop_last() =~= seq![cs[0]]);
    assert(cs.drop_last().drop_last().drop_last() =~= Seq::empty());
    assert(cs.drop_first() =~= seq![cs[1], cs[2]]);
    assert(cs.drop_first().drop_first() =~= seq![cs[2]]);
    assert(cs.drop_first().drop_first().drop_first() =~= Seq::empty());
}

/// Tokens are minted only under a rule that is known and allows it; an update may
/// neither change a token's behaviour nor reduce its supply.
pub proof fn law_why_tokens_are_not_minted(
    behavior: u64,
    supply: Seq<u8>,
    prior: u64,
    prior_supply: Seq<u8>,
)
    ensures
        mintable(Some(MintVariant::NoMint)) == Err::<(), ErrorView>(
            ErrorView::InvalidArgument("mint transaction: token has NoMintBehavior (not mintable)"@),
        ),
        mintable(None) == Err::<(), ErrorView>(
            ErrorView::InvalidArgument(
                "mint transaction: unrecognized MintBehavior/ProofBasis combination or token config resolver unavailable for domain"@,
            ),
        ),
        mintable(Some(MintVariant::Unknown)) == mintable(None),
        prior != behavior ==> update_gate(behavior, supply, prior, prior_supply) == Err::<
            (),
            ErrorView,
        >(ErrorView::InvalidArgument("token update: behavior cannot be updated"@)),
        prior == behavior && supply.len() > 0 && crate::bytes::be_nat(supply)
            < crate::bytes::be_nat(prior_supply) ==> update_gate(
            behavior,
            supply,
            prior,
            prior_supply,
        ) == Err::<(), ErrorView>(
            ErrorView::InvalidArgument("token update: supply cannot be reduced"@),
        ),
        prior == behavior && (supply.len() == 0 || crate::bytes::be_nat(supply)
            >= crate::bytes::be_nat(prior_supply)) ==> update_gate(
            behavior,
            supply,
            prior,
            prior_supply,
        ) is Ok,
{
}

/// A mint under an authority whose check failed, and one by payment without an address to
/// pay to, are refused; and so is a pending transaction whose check failed.
pub proof fn law_why_mints_are_refused(
    w: &TokenWiring,
    m: MintReport,
    domain: Seq<u8>,
    p: PendingReport,
)
    ensures
        (m.config.variant == Some(MintVariant::Authority) || m.config.variant == Some(
            MintVariant::Signature,
        )) && w.key_manager && w.decaf && m.config.has_authority_key_type
            && m.config.has_authority_public_key && m.authority == Ok::<bool, QuilError>(false)
            ==> variant_checks(w, m) == Err::<(), ErrorView>(
            ErrorView::InvalidArgument("mint authority/signature: verify failed"@),
        ),
        m.config.variant == Some(MintVariant::Payment) && w.decaf && !m.config.has_payment_address
            ==> variant_checks(w, m) == Err::<(), ErrorView>(
            ErrorView::InvalidArgument("mint payment: resolver missing payment_address"@),
        ),
        p.structure is Ok && w.bulletproofs && w.decaf && p.verified.at(w.is_quil(domain)) == Ok::<
            bool,
            QuilError,
        >(false) ==> pending_checks(w, domain, p) == Err::<(), ErrorView>(
            ErrorView::InvalidArgument("pending transaction: crypto verify failed"@),
        ),
{
}

} // verus!
