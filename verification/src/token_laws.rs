//! What the token operations do: when each of them goes through, and what can be read
//! behind it.

use vstd::prelude::*;

use crate::assoc::value_of;
use crate::bytes::{be_nat, be_seq};
use crate::checks::{first_err, lemma_first_err_ok};
use crate::error::{outcome, ErrorView, QuilError};
use crate::state::{
    law_last_write_counts, law_other_places_stay, lookup, ChangeView, Layer, Place,
};
use crate::step_laws::{lemma_tag, tag_number};
use crate::text::decimal_seq;
use crate::token_engine::{
    after_bundle, after_request, bundle_validation, deploy_effect, input_checks, input_structure,
    materialized_changes, mint_effect, mint_input_checks, mint_output_checks, output_checks,
    payment_checks, pending_effect, pending_input_structure, pending_output_structure,
    recipient_checks, request_cost, request_effect, request_validation, spent_checks, update_effect,
    variant_checks, verkle_checks, vertex_changes, BlobLog, TokenStore, TokenWiring,
};
use crate::token_ops::{
    all_outputs, all_signatures, nested_payment, outputs_of, DeployReport, InputReport,
    Materialized, MintReport, MintVariant, NestedPayment, OutputReport, OutputView, PendingReport,
    TokenRequest, TokenTypes, TransactionReport, UpdateReport, VertexWrite,
};

verus! {

/// The place of a vertex.
pub open spec fn vertex_at(domain: Seq<u8>, address: Seq<u8>) -> Place {
    Place { domain, address, layer: Layer::VertexAdds }
}

/// No two operations share a type tag, and all of them belong to the engine.
pub open spec fn tags_ok(t: &TokenTypes) -> bool {
    &&& t.transaction != t.mint_transaction && t.transaction != t.pending_transaction
        && t.transaction != t.token_deploy && t.transaction != t.token_update
    &&& t.mint_transaction != t.pending_transaction && t.mint_transaction != t.token_deploy
        && t.mint_transaction != t.token_update
    &&& t.pending_transaction != t.token_deploy && t.pending_transaction != t.token_update
    &&& t.token_deploy != t.token_update
    &&& t.prefixes@.contains(t.transaction) && t.prefixes@.contains(t.mint_transaction)
        && t.prefixes@.contains(t.pending_transaction) && t.prefixes@.contains(t.token_deploy)
        && t.prefixes@.contains(t.token_update)
}

/// Checks pass together exactly where each of them does.
pub proof fn lemma_all_pass(cs: Seq<Result<(), ErrorView>>, p: spec_fn(int) -> bool)
    requires
        forall|k: int| 0 <= k < cs.len() ==> (#[trigger] cs[k] is Ok <==> p(k)),
    ensures
        first_err(cs) is Ok <==> (forall|k: int| 0 <= k < cs.len() ==> #[trigger] p(k)),
{
    lemma_first_err_ok(cs);
    if forall|k: int| 0 <= k < cs.len() ==> (#[trigger] cs[k]) is Ok {
        assert forall|k: int| 0 <= k < cs.len() implies #[trigger] p(k) by {
            assert(cs[k] is Ok);
        }
    }
    if forall|k: int| 0 <= k < cs.len() ==> #[trigger] p(k) {
        assert forall|k: int| 0 <= k < cs.len() implies (#[trigger] cs[k]) is Ok by {
            assert(p(k));
        }
    }
}

/// What a materialized operation creates, or the markers of what it spends.
pub open spec fn part(m: Materialized, markers: bool) -> Seq<VertexWrite> {
    if markers {
        m.spent_markers@
    } else {
        m.created@
    }
}

/// Is the vertex among those that a materialized operation creates or marks as spent, and
/// is no later one of them at its address?
pub open spec fn is_last(m: Materialized, marker: bool, i: int) -> bool {
    let ws = part(m, marker);
    &&& 0 <= i < ws.len()
    &&& forall|j: int| i < j < ws.len() ==> (#[trigger] ws[j]).address@ != ws[i].address@
    &&& !marker ==> forall|j: int|
        0 <= j < m.spent_markers@.len() ==> (#[trigger] m.spent_markers@[j]).address@
            != ws[i].address@
}

/// Does a materialized operation touch the address?
pub open spec fn touches(m: Materialized, address: Seq<u8>) -> bool {
    ||| exists|j: int| 0 <= j < m.created@.len() && (#[trigger] m.created@[j]).address@ == address
    ||| exists|j: int|
        0 <= j < m.spent_markers@.len() && (#[trigger] m.spent_markers@[j]).address@ == address
}

/// What can be read behind the changes of a materialized operation.
proof fn lemma_materialized(
    log: BlobLog,
    domain: Seq<u8>,
    frame_number: u64,
    m: Materialized,
    marker: bool,
    i: int,
    place: Place,
)
    ensures
        ({
            let after = log + materialized_changes(domain, frame_number, m);
            let ws = part(m, marker);
            &&& is_last(m, marker, i) ==> lookup(after, vertex_at(domain, ws[i].address@)) == Some(
                ws[i].blob@,
            )
            &&& place.domain != domain || !(place.layer is VertexAdds) || !touches(
                m,
                place.address,
            ) ==> lookup(after, place) == lookup(log, place)
        }),
{
    let a = vertex_changes(domain, frame_number, m.created@);
    let b = vertex_changes(domain, frame_number, m.spent_markers@);
    let cs = materialized_changes(domain, frame_number, m);
    let n = m.created@.len() as int;
    assert(cs == a + b);
    if is_last(m, marker, i) {
        let k = if marker {
            n + i
        } else {
            i
        };
        assert forall|j: int| k < j < cs.len() implies (#[trigger] cs[j]).place != cs[k].place by {
            if marker {
                assert(cs[j] == b[j - n]);
                assert(cs[k] == b[i]);
                let ws = part(m, marker);
                assert(ws[j - n].address@ != ws[i].address@);
            } else {
                assert(cs[k] == a[i]);
                let ws = part(m, marker);
                if j < n {
                    assert(cs[j] == a[j]);
                    assert(ws[j].address@ != ws[i].address@);
                } else {
                    assert(cs[j] == b[j - n]);
                    assert(m.spent_markers@[j - n].address@ != ws[i].address@);
                }
            }
        }
        law_last_write_counts(log, cs, k);
    }
    if place.domain != domain || !(place.layer is VertexAdds) || !touches(m, place.address) {
        assert forall|j: int| 0 <= j < cs.len() implies (#[trigger] cs[j]).place != place by {
            if j < n {
                assert(cs[j] == a[j]);
                assert(m.created@[j].address@ == a[j].place.address);
            } else {
                assert(cs[j] == b[j - n]);
                assert(m.spent_markers@[j - n].address@ == b[j - n].place.address);
            }
        }
        law_other_places_stay(log, cs, place);
    }
}

/// The materialization that a request calls for: that of its transaction, its mint or its
/// pending transaction. A mint by proof of work is materialized by its domain.
pub open spec fn materialization(w: &TokenWiring, domain: Seq<u8>, r: TokenRequest) -> Result<
    Materialized,
    QuilError,
> {
    if r.inner_type_prefix == w.types.transaction {
        r.transaction->Ok_0.materialized
    } else if r.inner_type_prefix == w.types.mint_transaction {
        if r.mint->Ok_0.config.variant == Some(MintVariant::ProofOfMeaningfulWork) {
            if domain == w.quil_token@ {
                r.mint->Ok_0.materialized_work.quil
            } else {
                r.mint->Ok_0.materialized_work.other
            }
        } else {
            r.mint->Ok_0.materialized_authority
        }
    } else {
        r.pending->Ok_0.materialized
    }
}

/// After a transaction, a mint or a pending transaction that went through, every vertex of
/// its materialization, what it creates and the markers of what it spends, can be read at
/// its address in the domain, unless a later one of them goes there too. Nothing else in the
/// state changes, and no cached configuration becomes stale.
pub proof fn law_operation_writes_its_materialization(
    w: &TokenWiring,
    s: TokenStore,
    domain: Seq<u8>,
    frame_number: u64,
    r: TokenRequest,
    marker: bool,
    i: int,
    place: Place,
)
    requires
        tags_ok(&w.types),
        r.inner_type_prefix == w.types.transaction || r.inner_type_prefix
            == w.types.mint_transaction || r.inner_type_prefix == w.types.pending_transaction,
        request_effect(w, s.log, domain, frame_number, r).answer is Ok,
    ensures
        ({
            let after = after_request(w, s, domain, frame_number, r);
            let m = materialization(w, domain, r)->Ok_0;
            let ws = part(m, marker);
            &&& materialization(w, domain, r) is Ok
            &&& is_last(m, marker, i) ==> lookup(after.log, vertex_at(domain, ws[i].address@))
                == Some(ws[i].blob@)
            &&& place.domain != domain || !(place.layer is VertexAdds) || !touches(
                m,
                place.address,
            ) ==> lookup(after.log, place) == lookup(s.log, place)
            &&& after.stale == s.stale
        }),
{
    let m = materialization(w, domain, r)->Ok_0;
    lemma_materialized(s.log, domain, frame_number, m, marker, i, place);
}

/// Does an output of a transaction decode, with its recipient, as what its type tag says?
/// One too short for a tag is passed over.
pub open spec fn output_decodes(t: &TokenTypes, o: OutputReport) -> bool {
    let tag = tag_number(o.raw@);
    o.raw@.len() >= 4 ==> {
        if tag == t.pending_transaction_output {
            o.as_pending matches Ok(p) && !(p.to matches Some(Err(_)))
        } else if tag == t.mint_transaction_output {
            o.as_mint matches Ok(p) && p.recipient is Ok
        } else {
            o.as_standard matches Ok(p) && p.recipient is Ok
        }
    }
}

/// Does an input of a transaction decode as what its type tag says?
pub open spec fn input_decodes(t: &TokenTypes, i: InputReport) -> bool {
    let tag = tag_number(i.raw@);
    i.raw@.len() >= 4 ==> {
        if tag == t.pending_transaction_input {
            i.as_pending is Ok
        } else if tag == t.mint_transaction_input {
            i.as_mint is Ok
        } else {
            i.as_standard is Ok
        }
    }
}

/// Is an input sound and unspent: is it well formed, does its hidden signature hold, and is
/// there nothing at the place of its spent marker?
pub open spec fn input_sound(log: BlobLog, domain: Seq<u8>, i: InputReport) -> bool {
    &&& i.as_standard is Ok
    &&& i.structure is Ok
    &&& i.hidden_signature matches Ok(true)
    &&& i.spent_address is Ok
    &&& lookup(log, vertex_at(domain, i.spent_address->Ok_0@)) is None
}

proof fn lemma_outputs_ok(t: &TokenTypes, os: Seq<OutputReport>, frame_number: u64)
    ensures
        all_outputs(t, os, frame_number) is Ok <==> (forall|k: int|
            0 <= k < os.len() ==> output_decodes(t, #[trigger] os[k])),
    decreases os.len(),
{
    if os.len() > 0 {
        let rest = os.drop_last();
        let o = os[os.len() - 1];
        lemma_outputs_ok(t, rest, frame_number);
        if o.raw@.len() >= 4 {
            lemma_tag(o.raw@);
        }
        assert(outputs_of(t, o, frame_number) is Ok <==> output_decodes(t, o));
        if all_outputs(t, os, frame_number) is Ok {
            assert forall|k: int| 0 <= k < os.len() implies output_decodes(t, #[trigger] os[k]) by {
                if k < rest.len() {
                    assert(output_decodes(t, rest[k]));
                }
            }
        }
        if forall|k: int| 0 <= k < os.len() ==> output_decodes(t, #[trigger] os[k]) {
            assert forall|k: int| 0 <= k < rest.len() implies output_decodes(
                t,
                #[trigger] rest[k],
            ) by {
                assert(output_decodes(t, os[k]));
            }
        }
    }
}

proof fn lemma_signatures_ok(t: &TokenTypes, is: Seq<InputReport>)
    ensures
        all_signatures(t, is) is Ok <==> (forall|k: int|
            0 <= k < is.len() ==> input_decodes(t, #[trigger] is[k])),
    decreases is.len(),
{
    if is.len() > 0 {
        let rest = is.drop_last();
        let i = is[is.len() - 1];
        lemma_signatures_ok(t, rest);
        if i.raw@.len() >= 4 {
            lemma_tag(i.raw@);
        }
        if all_signatures(t, is) is Ok {
            assert forall|k: int| 0 <= k < is.len() implies input_decodes(t, #[trigger] is[k]) by {
                if k < rest.len() {
                    assert(input_decodes(t, rest[k]));
                }
            }
        }
        if forall|k: int| 0 <= k < is.len() ==> input_decodes(t, #[trigger] is[k]) {
            assert forall|k: int| 0 <= k < rest.len() implies input_decodes(
                t,
                #[trigger] rest[k],
            ) by {
                assert(input_decodes(t, is[k]));
            }
            assert(input_decodes(t, i));
        }
    }
}

proof fn lemma_each(s: Seq<Result<(), ErrorView>>)
    ensures
        s.len() == 3 ==> (first_err(s) is Ok <==> s[0] is Ok && s[1] is Ok && s[2] is Ok),
        s.len() == 5 ==> (first_err(s) is Ok <==> s[0] is Ok && s[1] is Ok && s[2] is Ok && s[3]
            is Ok && s[4] is Ok),
{
    lemma_first_err_ok(s);
}

/// A transaction goes through exactly where its inputs and outputs decode and it can be
/// materialized and, where the proof providers are installed, where its challenge could be
/// made, each input is sound and unspent, each output decodes, and the sums add up for the
/// domain. One that is refused changes nothing.
pub proof fn law_transaction_goes_through(
    w: &TokenWiring,
    log: BlobLog,
    domain: Seq<u8>,
    frame_number: u64,
    r: Result<TransactionReport, QuilError>,
)
    ensures
        ({
            let e = w.transaction_effect(log, domain, frame_number, r);
            let t = r->Ok_0;
            &&& e.answer is Ok <==> {
                &&& r is Ok
                &&& w.bulletproofs && w.decaf ==> {
                    &&& t.challenge is Ok
                    &&& forall|k: int|
                        0 <= k < t.inputs@.len() ==> input_sound(
                            log,
                            domain,
                            #[trigger] t.inputs@[k],
                        )
                    &&& forall|k: int|
                        0 <= k < t.outputs@.len() ==> (
                        #[trigger] t.outputs@[k]).as_standard is Ok
                    &&& if domain == w.quil_token@ {
                        t.sums.quil matches Ok(true)
                    } else {
                        t.sums.other matches Ok(true)
                    }
                }
                &&& forall|k: int|
                    0 <= k < t.outputs@.len() ==> output_decodes(&w.types, #[trigger] t.outputs@[k])
                &&& forall|k: int|
                    0 <= k < t.inputs@.len() ==> input_decodes(&w.types, #[trigger] t.inputs@[k])
                &&& t.materialized is Ok
            }
            &&& e.answer is Err ==> e.changes.len() == 0 && !e.invalidates
        }),
{
    if r is Ok {
        let t = r->Ok_0;
        lemma_outputs_ok(&w.types, t.outputs@, frame_number);
        lemma_signatures_ok(&w.types, t.inputs@);
        let ic = input_checks(t.inputs@);
        let oc = output_checks(t.outputs@);
        let sc = spent_checks(log, domain, t.inputs@);
        let ip = |k: int|
            t.inputs@[k].as_standard is Ok && t.inputs@[k].structure is Ok && (
            t.inputs@[k].hidden_signature matches Ok(true));
        let op = |k: int| t.outputs@[k].as_standard is Ok;
        let sp = |k: int|
            t.inputs@[k].as_standard is Ok && t.inputs@[k].spent_address is Ok && lookup(
                log,
                vertex_at(domain, t.inputs@[k].spent_address->Ok_0@),
            ) is None;
        assert forall|k: int| 0 <= k < ic.len() implies (#[trigger] ic[k] is Ok <==> ip(k)) by {
            let i = t.inputs@[k];
            lemma_each(
                seq![
                    crate::checks::success_of(i.as_standard),
                    crate::checks::answer(i.structure),
                    crate::checks::must_hold(
                        i.hidden_signature,
                        ErrorView::InvalidArgument(
                            "transaction: input "@ + crate::text::decimal_seq(k as nat)
                                + " hidden-signature verify failed"@,
                        ),
                    ),
                ],
            );
        }
        lemma_all_pass(ic, ip);
        lemma_all_pass(oc, op);
        lemma_all_pass(sc, sp);
        lemma_each(
            seq![
                crate::checks::answer(t.challenge),
                first_err(ic),
                first_err(oc),
                crate::checks::must_hold(
                    t.sums.at(w.is_quil(domain)),
                    ErrorView::InvalidArgument("transaction: bulletproof range/sum verify failed"@),
                ),
                first_err(sc),
            ],
        );
        if forall|k: int|
            0 <= k < t.inputs@.len() ==> input_sound(log, domain, #[trigger] t.inputs@[k]) {
            assert forall|k: int| 0 <= k < ic.len() implies #[trigger] ip(k) by {
                assert(input_sound(log, domain, t.inputs@[k]));
            }
            assert forall|k: int| 0 <= k < sc.len() implies #[trigger] sp(k) by {
                assert(input_sound(log, domain, t.inputs@[k]));
            }
        }
        if (forall|k: int| 0 <= k < ic.len() ==> #[trigger] ip(k)) && (forall|k: int|
            0 <= k < sc.len() ==> #[trigger] sp(k)) {
            assert forall|k: int| 0 <= k < t.inputs@.len() implies input_sound(
                log,
                domain,
                #[trigger] t.inputs@[k],
            ) by {
                assert(ip(k) && sp(k));
            }
        }
        if forall|k: int| 0 <= k < oc.len() ==> #[trigger] op(k) {
            assert forall|k: int| 0 <= k < t.outputs@.len() implies (
            #[trigger] t.outputs@[k]).as_standard is Ok by {
                assert(op(k));
            }
        }
    }
}

/// What an output contributes to a transaction: for each of its recipients that is there
/// and decodes, the refund's behind the other, one output with its commitment and the
/// number of the frame in eight bytes.
pub proof fn law_outputs_of_a_transaction(
    t: &TokenTypes,
    os: Seq<OutputReport>,
    o: OutputReport,
    frame_number: u64,
)
    requires
        all_outputs(t, os, frame_number) is Ok,
        output_decodes(t, o),
        t.pending_transaction_output != t.mint_transaction_output,
    ensures
        ({
            let before = all_outputs(t, os, frame_number)->Ok_0;
            let after = all_outputs(t, os.push(o), frame_number);
            let stamp = be_seq(frame_number as nat, 8);
            let tag = tag_number(o.raw@);
            let one = |c: Vec<u8>, to: Vec<u8>| OutputView {
                frame_number: stamp,
                commitment: c@,
                recipient: to@,
            };
            &&& all_outputs(t, Seq::empty(), frame_number) == Ok::<Seq<OutputView>, ErrorView>(
                Seq::empty(),
            )
            &&& after is Ok
            &&& o.raw@.len() < 4 ==> after->Ok_0 == before
            &&& o.raw@.len() >= 4 && tag == t.mint_transaction_output ==> after->Ok_0
                == before.push(one(o.as_mint->Ok_0.commitment, o.as_mint->Ok_0.recipient->Ok_0))
            &&& o.raw@.len() >= 4 && tag != t.mint_transaction_output && tag
                != t.pending_transaction_output ==> after->Ok_0 == before.push(
                one(o.as_standard->Ok_0.commitment, o.as_standard->Ok_0.recipient->Ok_0),
            )
            &&& o.raw@.len() >= 4 && tag == t.pending_transaction_output ==> {
                let p = o.as_pending->Ok_0;
                let first = match p.to {
                    Some(Ok(to)) => before.push(one(p.commitment, to)),
                    _ => before,
                };
                after->Ok_0 == match p.refund {
                    Some(Ok(to)) => first.push(one(p.commitment, to)),
                    _ => first,
                }
            }
        }),
{
    assert(os.push(o).drop_last() =~= os);
    if o.raw@.len() >= 4 {
        lemma_tag(o.raw@);
    }
    let before = all_outputs(t, os, frame_number)->Ok_0;
    let more = outputs_of(t, o, frame_number)->Ok_0;
    assert(outputs_of(t, o, frame_number) is Ok);
    assert(all_outputs(t, os.push(o), frame_number)->Ok_0 == before + more);
    if more.len() == 0 {
        assert(before + more =~= before);
    } else if more.len() == 1 {
        assert(before + more =~= before.push(more[0]));
    } else {
        assert(more.len() == 2);
        assert(before + more =~= before.push(more[0]).push(more[1]));
    }
}

/// The signatures of a transaction's inputs are collected input by input, each from the
/// reading that its type tag names; an input too short for a tag has none.
pub proof fn law_signatures_of_a_transaction(t: &TokenTypes, is: Seq<InputReport>, i: InputReport)
    requires
        all_signatures(t, is) is Ok,
        input_decodes(t, i),
        t.pending_transaction_input != t.mint_transaction_input,
    ensures
        ({
            let before = all_signatures(t, is)->Ok_0;
            let after = all_signatures(t, is.push(i));
            let tag = tag_number(i.raw@);
            &&& all_signatures(t, Seq::empty()) == Ok::<Seq<Seq<u8>>, ErrorView>(Seq::empty())
            &&& after is Ok
            &&& i.raw@.len() < 4 ==> after->Ok_0 == before
            &&& i.raw@.len() >= 4 ==> after->Ok_0 == before.push(
                if tag == t.pending_transaction_input {
                    i.as_pending->Ok_0.signature@
                } else if tag == t.mint_transaction_input {
                    i.as_mint->Ok_0.signature@
                } else {
                    i.as_standard->Ok_0.signature@
                },
            )
        }),
{
    assert(is.push(i).drop_last() =~= is);
    if i.raw@.len() >= 4 {
        lemma_tag(i.raw@);
    }
}

/// Do the checks that a mint's variant adds pass?
pub open spec fn variant_passes(w: &TokenWiring, m: MintReport) -> bool {
    let c = m.config;
    let in_order = (forall|k: int|
        0 <= k < m.outputs@.len() ==> (#[trigger] m.outputs@[k]).recipient is Ok)
        && m.transcript is Ok;
    match c.variant {
        Some(MintVariant::ProofOfMeaningfulWork) => w.key_manager ==> m.proof_of_work is Ok,
        Some(MintVariant::Authority) | Some(MintVariant::Signature) => w.key_manager && w.decaf
            && c.has_authority_key_type && c.has_authority_public_key ==> m.authority matches Ok(
            true,
        ),
        Some(MintVariant::VerkleMultiproofWithSignature) => c.has_verkle_root ==> in_order
            && forall|k: int|
            0 <= k < m.inputs@.len() ==> (#[trigger] m.inputs@[k]).verkle is Ok,
        Some(MintVariant::Payment) => w.decaf ==> c.has_payment_address && in_order
            && forall|k: int|
            0 <= k < m.inputs@.len() ==> (#[trigger] m.inputs@[k]).payment is Ok,
        _ => false,
    }
}

proof fn lemma_variant(w: &TokenWiring, m: MintReport)
    requires
        !(m.config.variant is None),
        m.config.variant != Some(MintVariant::NoMint),
        m.config.variant != Some(MintVariant::Unknown),
    ensures
        variant_checks(w, m) is Ok <==> variant_passes(w, m),
{
    let rc = recipient_checks(m.outputs@);
    let vc = verkle_checks(m.inputs@);
    let pc = payment_checks(m.inputs@);
    let rp = |k: int| m.outputs@[k].recipient is Ok;
    let vp = |k: int| m.inputs@[k].verkle is Ok;
    let pp = |k: int| m.inputs@[k].payment is Ok;
    lemma_all_pass(rc, rp);
    lemma_all_pass(vc, vp);
    lemma_all_pass(pc, pp);
    if first_err(rc) is Ok {
        assert forall|k: int| 0 <= k < m.outputs@.len() implies (
        #[trigger] m.outputs@[k]).recipient is Ok by {
            assert(rp(k));
        }
    }
    if first_err(vc) is Ok {
        assert forall|k: int| 0 <= k < m.inputs@.len() implies (
        #[trigger] m.inputs@[k]).verkle is Ok by {
            assert(vp(k));
        }
    }
    if first_err(pc) is Ok {
        assert forall|k: int| 0 <= k < m.inputs@.len() implies (
        #[trigger] m.inputs@[k]).payment is Ok by {
            assert(pp(k));
        }
    }
}

/// A mint goes through exactly where its inputs and outputs decode, its tokens can be
/// minted, it can be materialized and, where range proofs can be checked, where its sums
/// add up and the checks of its variant pass. One that is refused changes nothing.
pub proof fn law_mint_goes_through(
    w: &TokenWiring,
    domain: Seq<u8>,
    frame_number: u64,
    r: Result<MintReport, QuilError>,
)
    ensures
        ({
            let e = mint_effect(w, domain, frame_number, r);
            let m = r->Ok_0;
            let made = if m.config.variant == Some(MintVariant::ProofOfMeaningfulWork) {
                if domain == w.quil_token@ {
                    m.materialized_work.quil
                } else {
                    m.materialized_work.other
                }
            } else {
                m.materialized_authority
            };
            &&& e.answer is Ok <==> {
                &&& r is Ok
                &&& forall|k: int|
                    0 <= k < m.inputs@.len() ==> (#[trigger] m.inputs@[k]).decoded is Ok
                &&& forall|k: int|
                    0 <= k < m.outputs@.len() ==> (#[trigger] m.outputs@[k]).decoded is Ok
                &&& m.config.variant is Some
                &&& m.config.variant != Some(MintVariant::NoMint)
                &&& m.config.variant != Some(MintVariant::Unknown)
                &&& w.bulletproofs ==> (m.sums matches Ok(true)) && variant_passes(w, m)
                &&& made is Ok
            }
            &&& e.answer is Err ==> e.changes.len() == 0 && !e.invalidates
        }),
{
    if r is Ok {
        let m = r->Ok_0;
        let ic = mint_input_checks(m.inputs@);
        let oc = mint_output_checks(m.outputs@);
        let ip = |k: int| m.inputs@[k].decoded is Ok;
        let op = |k: int| m.outputs@[k].decoded is Ok;
        lemma_all_pass(ic, ip);
        lemma_all_pass(oc, op);
        if first_err(ic) is Ok {
            assert forall|k: int| 0 <= k < m.inputs@.len() implies (
            #[trigger] m.inputs@[k]).decoded is Ok by {
                assert(ip(k));
            }
        }
        if first_err(oc) is Ok {
            assert forall|k: int| 0 <= k < m.outputs@.len() implies (
            #[trigger] m.outputs@[k]).decoded is Ok by {
                assert(op(k));
            }
        }
        if m.config.variant is Some && m.config.variant != Some(MintVariant::NoMint)
            && m.config.variant != Some(MintVariant::Unknown) {
            lemma_variant(w, m);
        }
    }
}

/// A pending transaction goes through exactly where it is well formed, verifies for its
/// domain if the proof providers are installed, and can be materialized. One that is
/// refused changes nothing.
pub proof fn law_pending_goes_through(
    w: &TokenWiring,
    domain: Seq<u8>,
    frame_number: u64,
    r: Result<PendingReport, QuilError>,
)
    ensures
        ({
            let e = pending_effect(w, domain, frame_number, r);
            let p = r->Ok_0;
            &&& e.answer is Ok <==> {
                &&& r is Ok
                &&& p.structure is Ok
                &&& w.bulletproofs && w.decaf ==> (if domain == w.quil_token@ {
                    p.verified.quil matches Ok(true)
                } else {
                    p.verified.other matches Ok(true)
                })
                &&& p.materialized is Ok
            }
            &&& e.answer is Err ==> e.changes.len() == 0 && !e.invalidates
        }),
{
}

/// What can be read behind the writing of vertices.
proof fn lemma_vertices(
    log: BlobLog,
    domain: Seq<u8>,
    frame_number: u64,
    ws: Seq<VertexWrite>,
    i: int,
    place: Place,
)
    ensures
        ({
            let after = log + vertex_changes(domain, frame_number, ws);
            &&& 0 <= i < ws.len() && (forall|j: int|
                i < j < ws.len() ==> (#[trigger] ws[j]).address@ != ws[i].address@) ==> lookup(
                after,
                vertex_at(domain, ws[i].address@),
            ) == Some(ws[i].blob@)
            &&& (forall|j: int|
                0 <= j < ws.len() ==> place != vertex_at(domain, (#[trigger] ws[j]).address@))
                ==> lookup(after, place) == lookup(log, place)
        }),
{
    let cs = vertex_changes(domain, frame_number, ws);
    if 0 <= i < ws.len() && (forall|j: int|
        i < j < ws.len() ==> (#[trigger] ws[j]).address@ != ws[i].address@) {
        assert forall|j: int| i < j < cs.len() implies (#[trigger] cs[j]).place != cs[i].place by {
            assert(ws[j].address@ != ws[i].address@);
        }
        law_last_write_counts(log, cs, i);
    }
    if forall|j: int| 0 <= j < ws.len() ==> place != vertex_at(domain, (#[trigger] ws[j]).address@) {
        assert forall|j: int| 0 <= j < cs.len() implies (#[trigger] cs[j]).place != place by {
            assert(place != vertex_at(domain, ws[j].address@));
        }
        law_other_places_stay(log, cs, place);
    }
}

/// The vertices that a deployment or an update writes.
pub open spec fn config_writes(w: &TokenWiring, r: TokenRequest) -> Result<
    Vec<VertexWrite>,
    QuilError,
> {
    if r.inner_type_prefix == w.types.token_deploy {
        r.deploy->Ok_0.writes
    } else {
        r.update->Ok_0.writes
    }
}

/// A deployment or an update that went through on a domain of 32 bytes makes the domain's
/// cached configuration stale. If it has a configuration, each of its vertices can be read
/// at its address, unless a later one goes there too; nothing else changes. On any other
/// domain, and where it has no configuration, nothing is written.
pub proof fn law_configuration_is_written(
    w: &TokenWiring,
    s: TokenStore,
    domain: Seq<u8>,
    frame_number: u64,
    r: TokenRequest,
    i: int,
    place: Place,
)
    requires
        tags_ok(&w.types),
        r.inner_type_prefix == w.types.token_deploy || r.inner_type_prefix == w.types.token_update,
        request_effect(w, s.log, domain, frame_number, r).answer is Ok,
    ensures
        ({
            let after = after_request(w, s, domain, frame_number, r);
            let config = if r.inner_type_prefix == w.types.token_deploy {
                r.deploy->Ok_0.config@
            } else {
                r.update->Ok_0.config@
            };
            let ws = config_writes(w, r)->Ok_0@;
            &&& domain.len() != 32 ==> after == s
            &&& domain.len() == 32 ==> after.stale == s.stale.push(domain)
            &&& domain.len() == 32 && config.len() == 0 ==> after.log == s.log
            &&& domain.len() == 32 && config.len() > 0 ==> {
                &&& config_writes(w, r) is Ok
                &&& 0 <= i < ws.len() && (forall|j: int|
                    i < j < ws.len() ==> (#[trigger] ws[j]).address@ != ws[i].address@) ==> lookup(
                    after.log,
                    vertex_at(domain, ws[i].address@),
                ) == Some(ws[i].blob@)
                &&& (forall|j: int|
                    0 <= j < ws.len() ==> place != vertex_at(domain, (#[trigger] ws[j]).address@))
                    ==> lookup(after.log, place) == lookup(s.log, place)
            }
        }),
{
    assert(s.log + Seq::<ChangeView<Seq<u8>>>::empty() =~= s.log);
    if config_writes(w, r) is Ok {
        lemma_vertices(s.log, domain, frame_number, config_writes(w, r)->Ok_0@, i, place);
    }
}

/// A deployment to a domain of 32 bytes goes through exactly where it can be read and its
/// configuration, if it has one, can be read and written; an update must also, where the
/// domain's metadata vertex reads as a configuration, keep the behavior and, if both name a
/// supply, name no smaller one. On any other domain they go through and do nothing.
pub proof fn law_configuration_goes_through(
    w: &TokenWiring,
    log: BlobLog,
    domain: Seq<u8>,
    frame_number: u64,
    d: Result<DeployReport, QuilError>,
    u: Result<UpdateReport, QuilError>,
)
    ensures
        ({
            let a = deploy_effect(domain, frame_number, d).answer;
            let b = update_effect(w, log, domain, frame_number, u).answer;
            let c = u->Ok_0.parsed->Ok_0;
            let stands = lookup(log, vertex_at(domain, w.metadata_address@));
            &&& domain.len() != 32 ==> a is Ok && b is Ok
            &&& domain.len() == 32 ==> (a is Ok <==> d is Ok && (d->Ok_0.config@.len() > 0
                ==> d->Ok_0.parsed is Ok && d->Ok_0.writes is Ok))
            &&& domain.len() == 32 ==> (b is Ok <==> u is Ok && (u->Ok_0.config@.len() > 0 ==> {
                &&& u->Ok_0.parsed is Ok
                &&& u->Ok_0.writes is Ok
                &&& stands is Some ==> (value_of(u->Ok_0.prior@, stands->Some_0) matches Some(p)
                    ==> p.behavior == c.behavior && (p.supply.len() > 0 && c.supply@.len() > 0
                    ==> be_nat(p.supply) <= be_nat(c.supply@)))
            }))
        }),
{
}

/// A bundle is processed request by request, whatever the place of a request in it: one
/// more request does what it does alone behind those before it. Empty slots, and requests
/// that are not the engine's, do nothing.
pub proof fn law_token_bundle_one_by_one(
    w: &TokenWiring,
    s: TokenStore,
    domain: Seq<u8>,
    frame_number: u64,
    rs: Seq<Option<TokenRequest>>,
    r: TokenRequest,
)
    ensures
        ({
            let before = after_bundle(w, s, domain, frame_number, rs);
            let after = after_bundle(w, s, domain, frame_number, rs.push(Some(r)));
            let e = request_effect(w, before.log, domain, frame_number, r);
            &&& after_bundle(w, s, domain, frame_number, Seq::empty()) == s
            &&& after_bundle(w, s, domain, frame_number, rs.push(None)) == before
            &&& after.log == before.log + e.changes
            &&& after.stale == if e.invalidates {
                before.stale.push(domain)
            } else {
                before.stale
            }
            &&& !w.types.prefixes@.contains(r.inner_type_prefix) ==> after == before
        }),
{
    assert(rs.push(Some(r)).drop_last() =~= rs);
    assert(rs.push(None).drop_last() =~= rs);
    let before = after_bundle(w, s, domain, frame_number, rs);
    assert(before.log + Seq::<ChangeView<Seq<u8>>>::empty() =~= before.log);
}

/// A request does what the operation that its type tag names does.
pub proof fn law_token_request_does_its_operation(
    w: &TokenWiring,
    log: BlobLog,
    domain: Seq<u8>,
    frame_number: u64,
    r: TokenRequest,
)
    requires
        tags_ok(&w.types),
    ensures
        ({
            let e = request_effect(w, log, domain, frame_number, r);
            let p = r.inner_type_prefix;
            &&& p == w.types.transaction ==> e == w.transaction_effect(
                log,
                domain,
                frame_number,
                r.transaction,
            )
            &&& p == w.types.mint_transaction ==> e == mint_effect(w, domain, frame_number, r.mint)
            &&& p == w.types.pending_transaction ==> e == pending_effect(
                w,
                domain,
                frame_number,
                r.pending,
            )
            &&& p == w.types.token_deploy ==> e == deploy_effect(domain, frame_number, r.deploy)
            &&& p == w.types.token_update ==> e == update_effect(
                w,
                log,
                domain,
                frame_number,
                r.update,
            )
            &&& p != w.types.transaction && p != w.types.mint_transaction && p
                != w.types.pending_transaction && p != w.types.token_deploy && p
                != w.types.token_update ==> e.answer is Ok && e.changes.len() == 0
                && !e.invalidates
        }),
{
}

/// A request is valid in its form exactly where it can be read and is well formed: for a
/// transaction each input too, for a pending transaction each input, by the rules of the
/// domain, and each output. A request that is not the engine's is valid.
pub proof fn law_token_request_valid(w: &TokenWiring, domain: Seq<u8>, r: TokenRequest)
    requires
        tags_ok(&w.types),
    ensures
        ({
            let valid = request_validation(w, domain, r) is Ok;
            let tag = r.inner_type_prefix;
            let t = r.transaction->Ok_0;
            let p = r.pending->Ok_0;
            &&& !w.types.prefixes@.contains(tag) ==> valid
            &&& tag == w.types.transaction ==> (valid <==> r.transaction is Ok && t.structure is Ok
                && forall|k: int|
                0 <= k < t.inputs@.len() ==> (#[trigger] t.inputs@[k]).as_standard is Ok
                    && t.inputs@[k].structure is Ok)
            &&& tag == w.types.mint_transaction ==> (valid <==> r.mint is Ok
                && r.mint->Ok_0.structure is Ok)
            &&& tag == w.types.pending_transaction ==> (valid <==> {
                &&& r.pending is Ok
                &&& p.structure is Ok
                &&& forall|k: int|
                    0 <= k < p.inputs@.len() ==> (#[trigger] p.inputs@[k]).decoded is Ok && (
                    if domain == w.quil_token@ {
                        p.inputs@[k].structure.quil is Ok
                    } else {
                        p.inputs@[k].structure.other is Ok
                    })
                &&& forall|k: int|
                    0 <= k < p.outputs@.len() ==> (#[trigger] p.outputs@[k]).decoded is Ok
                        && p.outputs@[k].structure is Ok
            })
            &&& w.types.prefixes@.contains(tag) && tag != w.types.transaction && tag
                != w.types.mint_transaction && tag != w.types.pending_transaction ==> (valid
                <==> r.peek is Ok)
        }),
{
    let tag = r.inner_type_prefix;
    if tag == w.types.transaction && r.transaction is Ok {
        let t = r.transaction->Ok_0;
        let cs = input_structure(t.inputs@);
        let p = |k: int| t.inputs@[k].as_standard is Ok && t.inputs@[k].structure is Ok;
        lemma_all_pass(cs, p);
        if first_err(cs) is Ok {
            assert forall|k: int| 0 <= k < t.inputs@.len() implies (
            #[trigger] t.inputs@[k]).as_standard is Ok && t.inputs@[k].structure is Ok by {
                assert(p(k));
            }
        }
    }
    if tag == w.types.pending_transaction && r.pending is Ok {
        let q = r.pending->Ok_0;
        let quil = w.is_quil(domain);
        let ic = pending_input_structure(q.inputs@, quil);
        let oc = pending_output_structure(q.outputs@);
        let ip = |k: int|
            q.inputs@[k].decoded is Ok && (if domain == w.quil_token@ {
                q.inputs@[k].structure.quil is Ok
            } else {
                q.inputs@[k].structure.other is Ok
            });
        let op = |k: int| q.outputs@[k].decoded is Ok && q.outputs@[k].structure is Ok;
        lemma_all_pass(ic, ip);
        lemma_all_pass(oc, op);
        if first_err(ic) is Ok {
            assert forall|k: int| 0 <= k < q.inputs@.len() implies (
            #[trigger] q.inputs@[k]).decoded is Ok && (if domain == w.quil_token@ {
                q.inputs@[k].structure.quil is Ok
            } else {
                q.inputs@[k].structure.other is Ok
            }) by {
                assert(ip(k));
            }
        }
        if first_err(oc) is Ok {
            assert forall|k: int| 0 <= k < q.outputs@.len() implies (
            #[trigger] q.outputs@[k]).decoded is Ok && q.outputs@[k].structure is Ok by {
                assert(op(k));
            }
        }
    }
}

/// A bundle is valid exactly where each request in it is.
pub proof fn law_token_bundle_valid(w: &TokenWiring, domain: Seq<u8>, rs: Seq<Option<TokenRequest>>)
    ensures
        first_err(bundle_validation(w, domain, rs)) is Ok <==> (forall|k: int|
            0 <= k < rs.len() ==> (#[trigger] rs[k] matches Some(r) ==> request_validation(
                w,
                domain,
                r,
            ) is Ok)),
{
    let cs = bundle_validation(w, domain, rs);
    let p = |k: int| rs[k] matches Some(r) ==> request_validation(w, domain, r) is Ok;
    lemma_all_pass(cs, p);
    if first_err(cs) is Ok {
        assert forall|k: int| 0 <= k < rs.len() implies (#[trigger] rs[k] matches Some(r)
            ==> request_validation(w, domain, r) is Ok) by {
            assert(p(k));
        }
    }
    if forall|k: int|
        0 <= k < rs.len() ==> (#[trigger] rs[k] matches Some(r) ==> request_validation(
            w,
            domain,
            r,
        ) is Ok) {
        assert forall|k: int| 0 <= k < cs.len() implies #[trigger] p(k) by {
            assert(rs[k] matches Some(r) ==> request_validation(w, domain, r) is Ok);
        }
    }
}

/// What a request costs: a transaction, mint or pending transaction what it says, a
/// deployment or an update the length of its configuration, anything else nothing; and so
/// does a message too short for a request, or one that is none.
pub proof fn law_token_costs(
    t: &TokenTypes,
    message: Seq<u8>,
    request: Result<TokenRequest, QuilError>,
)
    requires
        tags_ok(t),
    ensures
        ({
            let c = request_cost(t, message, request);
            let r = request->Ok_0;
            let tag = r.inner_type_prefix;
            &&& message.len() < 8 || request is Err ==> c == Ok::<i128, ErrorView>(0i128)
            &&& message.len() >= 8 && request is Ok ==> {
                &&& tag == t.transaction && r.transaction is Ok ==> c == outcome(
                    r.transaction->Ok_0.cost,
                )
                &&& tag == t.mint_transaction && r.mint is Ok ==> c == outcome(r.mint->Ok_0.cost)
                &&& tag == t.pending_transaction && r.pending is Ok ==> c == outcome(
                    r.pending->Ok_0.cost,
                )
                &&& tag == t.token_deploy && r.deploy is Ok ==> c == Ok::<i128, ErrorView>(
                    r.deploy->Ok_0.config@.len() as i128,
                )
                &&& tag == t.token_update && r.update is Ok ==> c == Ok::<i128, ErrorView>(
                    r.update->Ok_0.config@.len() as i128,
                )
                &&& tag != t.transaction && tag != t.mint_transaction && tag
                    != t.pending_transaction && tag != t.token_deploy && tag != t.token_update
                    ==> c == Ok::<i128, ErrorView>(0i128)
            }
        }),
{
}

/// The output that a payment refers to is found exactly where the nested transaction can be
/// read and verifies, and the output at the index is there and decodes with both its
/// recipients; what is found is its commitment and the two keys.
pub proof fn law_nested_payment(nested: Result<NestedPayment, QuilError>, idx: usize)
    ensures
        ({
            let found = nested_payment(nested, idx);
            let n = nested->Ok_0;
            let o = n.outputs@[idx as int]->Ok_0;
            &&& found is Ok <==> {
                &&& nested is Ok
                &&& n.verified matches Ok(true)
                &&& idx < n.outputs@.len()
                &&& n.outputs@[idx as int] is Ok
                &&& o.to_key is Ok
                &&& o.refund_key is Ok
            }
            &&& found is Ok ==> found->Ok_0.0 == o.commitment@ && found->Ok_0.1 == o.to_key->Ok_0@
                && found->Ok_0.2 == o.refund_key->Ok_0@
            &&& nested is Ok && n.verified is Ok && !n.verified->Ok_0 ==> found->Err_0
                == ErrorView::InvalidArgument(
                "mint payment: nested PendingTransaction verify failed"@,
            )
            &&& nested is Ok && n.verified is Ok && n.verified->Ok_0 && idx >= n.outputs@.len()
                ==> found->Err_0 == ErrorView::InvalidArgument(
                "mint payment: nested output_idx "@ + decimal_seq(idx as nat)
                    + " >= outputs len "@ + decimal_seq(n.outputs@.len()),
            )
        }),
{
}

} // verus!
