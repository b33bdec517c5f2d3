//! What the global engine does with whole messages: how it validates the operations that
//! they hold, and how it applies them.

use vstd::prelude::*;

use crate::checks::{answer, first_err, lemma_first_err_ok};
use crate::envelope::{envelope_kind_of, EnvelopeTypes};
use crate::error::ErrorView;
use crate::global_engine::{GlobalStep, ShardWorkView};
use crate::global_execution::{
    after_globals, allocation_tree, committed_after, prover_address_of, prover_tree,
    GlobalExecutionEngine, GlobalRequest, GlobalStore, GlobalValidation,
};
use crate::global_intrinsic::{
    header_checks, participant_keys, ActiveProver, GlobalIntrinsic, GlobalReport, GlobalTypes,
    HeaderReport,
};
use crate::global_steps::GlobalLog;
use crate::join_laws::{at, field_at, is_known};
use crate::records::{Field, GlobalValueView};
use crate::routing::{engine_for, RequestVariant};
use crate::domains::EngineType;
use crate::state::lookup;
use crate::step_laws::{distinct_tags, lemma_tag, tag_number};

verus! {

/// Where there is a store of shards, a split that goes through puts each of its shards into
/// it, and a merge takes each of its shards out, by key and path and in order. No other
/// operation, and no operation without a store, has work for it.
pub proof fn law_shard_work(g: &GlobalIntrinsic, input: Seq<u8>, s: GlobalStep)
    requires
        distinct_tags(&g.types),
        input.len() >= 4,
    ensures
        ({
            let w = g.shard_work(input, s);
            let tag = tag_number(input);
            let store = g.shards_store && g.shards_db;
            &&& !store || (tag != g.types.shard_split && tag != g.types.shard_merge) ==> w is Nothing
            &&& store && tag == g.types.shard_split && (s.split matches Ok(Ok(_))) ==> {
                let v = s.split->Ok_0->Ok_0@;
                &&& w matches ShardWorkView::Put(ps) && ps.len() == v.len() && forall|i: int|
                    0 <= i < v.len() ==> (#[trigger] ps[i]).shard_key == v[i].shard_key@
                        && ps[i].path == v[i].path@
            }
            &&& store && tag == g.types.shard_merge && (s.shard_merge matches Ok(Ok(_))) ==> {
                let v = s.shard_merge->Ok_0->Ok_0@;
                &&& w matches ShardWorkView::Remove(ps) && ps.len() == v.len() && forall|i: int|
                    0 <= i < v.len() ==> (#[trigger] ps[i]).shard_key == v[i].shard_key@
                        && ps[i].path == v[i].path@
            }
        }),
{
    lemma_tag(input);
    let t = g.types;
    let all = seq![
        t.prover_pause,
        t.prover_resume,
        t.prover_leave,
        t.prover_confirm,
        t.prover_reject,
        t.prover_join,
        t.prover_update,
        t.alt_shard_update,
        t.shard_split,
        t.shard_merge,
        t.seniority_merge,
        t.prover_kick,
        t.frame_header,
    ];
    assert(all[8] != all[9]);
    assert forall|i: int| 0 <= i < 8 implies #[trigger] all[i] != all[8] && all[i] != all[9] by {}
    assert(all[0] != all[8] && all[1] != all[8] && all[2] != all[8] && all[3] != all[8] && all[4]
        != all[8] && all[5] != all[8] && all[6] != all[8] && all[7] != all[8]);
}

/// A bundle is applied request by request, whatever the place of a request in it: one more
/// request does to the log, and to the work for the store, what its step does behind those
/// before it. One that fails stops none, and adds no work; empty slots, and requests that
/// are not global, do nothing.
pub proof fn law_global_bundle_one_by_one(
    types: &GlobalTypes,
    g: &GlobalIntrinsic,
    s: GlobalStore,
    frame_number: u64,
    rs: Seq<Option<GlobalRequest>>,
    r: GlobalRequest,
)
    ensures
        ({
            let before = after_globals(types, g, s, frame_number, rs);
            let after = after_globals(types, g, s, frame_number, rs.push(Some(r)));
            let e = g.step_effect(before.log, frame_number, r.inner_bytes@, r.step);
            &&& after_globals(types, g, s, frame_number, Seq::empty()) == s
            &&& after_globals(types, g, s, frame_number, rs.push(None)) == before
            &&& !types.prefixes@.contains(r.inner_type_prefix) ==> after == before
            &&& types.prefixes@.contains(r.inner_type_prefix) ==> after.log == e.log
            &&& types.prefixes@.contains(r.inner_type_prefix) && e.answer is Ok ==> after.work
                == before.work.push(g.shard_work(r.inner_bytes@, r.step))
            &&& types.prefixes@.contains(r.inner_type_prefix) && e.answer is Err ==> after.work
                == before.work
        }),
{
    assert(rs.push(Some(r)).drop_last() =~= rs);
    assert(rs.push(None).drop_last() =~= rs);
}

/// An engine that has applied the requests of a message has its whole log committed, and has
/// applied every request where it has an intrinsic; without one its log stays.
pub proof fn law_messages_are_committed(
    before: GlobalExecutionEngine,
    after: GlobalExecutionEngine,
    frame_number: u64,
    rs: Seq<Option<GlobalRequest>>,
)
    requires
        committed_after(before, after, frame_number, rs),
    ensures
        before.state is None ==> after.state is None,
        before.state is Some ==> {
            &&& after.state is Some
            &&& after.state->Some_0.committed == after.state->Some_0@.len()
            &&& before.intrinsic is None ==> after.state->Some_0@ == before.state->Some_0@
            &&& before.intrinsic matches Some(g) ==> after.state->Some_0@ == after_globals(
                &before.types,
                &g,
                before.store(),
                frame_number,
                rs,
            ).log
        },
        before.state matches Some(s) ==> before.store().log == s@,
{
}

/// The kind of a message goes by the number that its first four bytes spell.
pub proof fn law_envelope_kinds(message: Seq<u8>, types: EnvelopeTypes)
    requires
        types.bundle != types.request,
    ensures
        ({
            let k = envelope_kind_of(message, types);
            &&& k is Short <==> message.len() < 4
            &&& k is Bundle <==> message.len() >= 4 && tag_number(message) == types.bundle
            &&& k is Request <==> message.len() >= 4 && tag_number(message) == types.request
        }),
{
    if message.len() >= 4 {
        lemma_tag(message);
    }
}

/// An operation of a prover on its own standing, or on shards, or a merge, is valid where
/// it can be read and, if the prover's record is at hand, where its signature holds against
/// the record.
pub proof fn law_signed_operations_are_checked(
    g: &GlobalIntrinsic,
    input: Seq<u8>,
    r: GlobalReport,
    has_tree: bool,
)
    requires
        distinct_tags(&g.types),
        input.len() >= 4,
        ({
            let tag = tag_number(input);
            let t = g.types;
            tag == t.prover_pause || tag == t.prover_resume || tag == t.prover_leave || tag
                == t.prover_confirm || tag == t.prover_reject || tag == t.prover_update || tag
                == t.shard_split || tag == t.shard_merge || tag == t.seniority_merge
        }),
    ensures
        ({
            let v = g.validation(input, r, has_tree);
            &&& v == Ok::<bool, ErrorView>(true) <==> (r.signed matches Ok(x) && (!has_tree
                || x matches Ok(true)))
            &&& has_tree && (r.signed matches Ok(Ok(false))) ==> v == Ok::<bool, ErrorView>(false)
            &&& r.signed matches Ok(Err(e)) ==> has_tree ==> v == Err::<bool, ErrorView>(e@)
            &&& r.signed matches Err(e) ==> v == Err::<bool, ErrorView>(e@)
        }),
{
    lemma_tag(input);
    lemma_tags_apart(&g.types);
}

/// A join is valid where it is well formed and its signatures hold; an update of another
/// shard where its check says so; a kick where the full check passes or, without all that
/// the full check needs, where the two frames contradict each other.
pub proof fn law_other_operations_are_checked(
    g: &GlobalIntrinsic,
    input: Seq<u8>,
    r: GlobalReport,
    has_tree: bool,
)
    requires
        distinct_tags(&g.types),
        input.len() >= 4,
    ensures
        ({
            let valid = g.validation(input, r, has_tree) == Ok::<bool, ErrorView>(true);
            let tag = tag_number(input);
            let t = g.types;
            let full = g.clock_store && g.frame_prover && g.bls_constructor && g.hypergraph
                && g.inclusion_prover;
            &&& tag == t.prover_join ==> (valid <==> (r.join matches Ok(j) && j.structure is Ok
                && j.signatures matches Ok(true)))
            &&& tag == t.alt_shard_update ==> (valid <==> r.alt_shard matches Ok(Ok(true)))
            &&& tag == t.prover_kick && full ==> (valid <==> (r.kick matches Ok(k) && k.full is Ok))
            &&& tag == t.prover_kick && !full ==> (valid <==> (r.kick matches Ok(k)
                && k.equivocation matches Ok(true)))
            &&& tag == t.frame_header ==> (valid <==> r.header_peek is Ok && (r.header matches Ok(
                h,
            ) && (g.prover_registry && g.frame_prover && g.bls_constructor ==> header_checks(h)
                is Ok)))
        }),
{
    lemma_tag(input);
    lemma_tags_apart(&g.types);
    if r.header is Ok {
        law_headers_are_checked(r.header->Ok_0);
    }
}

proof fn lemma_tags_apart(t: &GlobalTypes)
    requires
        distinct_tags(t),
    ensures
        t.prover_join != t.prover_pause && t.prover_join != t.prover_resume && t.prover_join
            != t.prover_leave && t.prover_join != t.prover_confirm && t.prover_join
            != t.prover_reject,
        t.alt_shard_update != t.prover_pause && t.alt_shard_update != t.prover_resume
            && t.alt_shard_update != t.prover_leave && t.alt_shard_update != t.prover_confirm
            && t.alt_shard_update != t.prover_reject && t.alt_shard_update != t.prover_join
            && t.alt_shard_update != t.prover_update,
        t.prover_update != t.prover_join && t.shard_split != t.prover_join && t.shard_merge
            != t.prover_join && t.seniority_merge != t.prover_join,
        t.shard_split != t.alt_shard_update && t.shard_merge != t.alt_shard_update
            && t.seniority_merge != t.alt_shard_update,
        t.prover_kick != t.prover_pause && t.prover_kick != t.prover_resume && t.prover_kick
            != t.prover_leave && t.prover_kick != t.prover_confirm && t.prover_kick
            != t.prover_reject && t.prover_kick != t.prover_join && t.prover_kick
            != t.prover_update && t.prover_kick != t.alt_shard_update && t.prover_kick
            != t.shard_split && t.prover_kick != t.shard_merge && t.prover_kick
            != t.seniority_merge,
        t.frame_header != t.prover_pause && t.frame_header != t.prover_resume && t.frame_header
            != t.prover_leave && t.frame_header != t.prover_confirm && t.frame_header
            != t.prover_reject && t.frame_header != t.prover_join && t.frame_header
            != t.prover_update && t.frame_header != t.alt_shard_update && t.frame_header
            != t.shard_split && t.frame_header != t.shard_merge && t.frame_header
            != t.seniority_merge && t.frame_header != t.prover_kick,
{
    let all = seq![
        t.prover_pause,
        t.prover_resume,
        t.prover_leave,
        t.prover_confirm,
        t.prover_reject,
        t.prover_join,
        t.prover_update,
        t.alt_shard_update,
        t.shard_split,
        t.shard_merge,
        t.seniority_merge,
        t.prover_kick,
        t.frame_header,
    ];
    assert forall|i: int, j: int| 0 <= i < j < 13 implies #[trigger] all[i] != #[trigger] all[j] by {}
    assert(all[5] == t.prover_join && all[7] == t.alt_shard_update && all[11] == t.prover_kick
        && all[12] == t.frame_header);
    assert(all[0] != all[5] && all[1] != all[5] && all[2] != all[5] && all[3] != all[5] && all[4]
        != all[5] && all[5] != all[6] && all[5] != all[8] && all[5] != all[9] && all[5] != all[10]);
}

/// A frame header holds up exactly where it carries a signature that can be read, its
/// provers are known, the participants' keys add up to the declared key, and the attestation
/// holds: by itself if the signature has 74 bytes, with the provers' addresses otherwise. It
/// is never found just false.
pub proof fn law_headers_are_checked(h: HeaderReport)
    ensures
        header_checks(h) is Ok <==> {
            &&& h.signature_bytes@.len() > 0
            &&& h.signature is Ok
            &&& h.active_provers is Ok
            &&& h.throwaway_key is Ok
            &&& h.aggregate is Ok
            &&& h.aggregate->Ok_0@ == match h.signature->Ok_0.public_key {
                Some(k) => k@,
                None => Seq::empty(),
            }
            &&& if h.signature->Ok_0.signature@.len() == 74 {
                h.attested_single matches Ok(true)
            } else {
                h.attested_with_ids matches Ok(true)
            }
        },
        header_checks(h) matches Ok(b) ==> b,
{
}

/// The keys that are added up are those of the active provers whose places are among the
/// participants', in the provers' order.
pub proof fn law_participants_by_place(active: Seq<ActiveProver>, indices: Seq<usize>, n: int)
    requires
        0 <= n < active.len(),
    ensures
        participant_keys(active, indices, 0) == Seq::<Seq<u8>>::empty(),
        (exists|k: int| 0 <= k < indices.len() && #[trigger] indices[k] == n) ==> participant_keys(
            active,
            indices,
            n + 1,
        ) == participant_keys(active, indices, n).push(active[n].public_key@),
        !(exists|k: int| 0 <= k < indices.len() && #[trigger] indices[k] == n)
            ==> participant_keys(active, indices, n + 1) == participant_keys(active, indices, n),
{
    if exists|k: int| 0 <= k < indices.len() && #[trigger] indices[k] == n {
        let k = choose|k: int| 0 <= k < indices.len() && #[trigger] indices[k] == n;
        assert(crate::global_intrinsic::is_participant(indices, n));
    }
}

/// A bundle is valid exactly where each operation in it is; empty slots are.
pub proof fn law_bundle_valid_if_each_is(e: &GlobalExecutionEngine, vs: Seq<Option<GlobalValidation>>)
    ensures
        first_err(e.bundle_validation(vs)) is Ok <==> (forall|i: int|
            0 <= i < vs.len() ==> (#[trigger] vs[i] matches Some(v) ==> e.inner_validation(v) is Ok)),
{
    let cs = e.bundle_validation(vs);
    lemma_first_err_ok(cs);
    if forall|i: int| 0 <= i < cs.len() ==> (#[trigger] cs[i]) is Ok {
        assert forall|i: int| 0 <= i < vs.len() implies (#[trigger] vs[i] matches Some(v)
            ==> e.inner_validation(v) is Ok) by {
            assert(cs[i] is Ok);
        }
    }
    if forall|i: int|
        0 <= i < vs.len() ==> (#[trigger] vs[i] matches Some(v) ==> e.inner_validation(v) is Ok) {
        assert forall|i: int| 0 <= i < cs.len() implies (#[trigger] cs[i]) is Ok by {
            assert(vs[i] matches Some(v) ==> e.inner_validation(v) is Ok);
        }
    }
}

/// An operation of a message is valid if it is not global; without an intrinsic if peeking
/// at it finds nothing; and otherwise if the intrinsic finds it true, with the prover's
/// record where the engine has a state that knows the prover.
pub proof fn law_operation_of_a_message(e: &GlobalExecutionEngine, v: GlobalValidation)
    ensures
        ({
            let global = e.types.prefixes@.contains(v.inner_type_prefix);
            let r = e.inner_validation(v);
            &&& !global ==> r is Ok
            &&& global && e.intrinsic is None ==> r == answer(v.peek)
            &&& global && e.intrinsic is Some ==> {
                let g = e.intrinsic->Some_0;
                let tree = e.state is Some && prover_tree(
                    g.domain@,
                    e.state->Some_0@,
                    prover_address_of(&g.types, v.inner_type_prefix, v.signer),
                ) is Some;
                r is Ok <==> g.validation(v.inner_bytes@, v.report, tree) == Ok::<bool, ErrorView>(
                    true,
                )
            }
        }),
{
}

/// The record that an operation is validated against is the one of the prover that its
/// signature names, by at least 32 bytes, where there is one; and an allocation's record
/// comes with it where it is needed and the prover has a public key.
pub proof fn law_records_for_validation(
    types: &GlobalTypes,
    prefix: u32,
    signer: Option<Vec<u8>>,
    domain: Seq<u8>,
    log: GlobalLog,
    needed: bool,
    allocation: Option<Vec<u8>>,
)
    requires
        distinct_tags(types),
    ensures
        ({
            let a = prover_address_of(types, prefix, signer);
            let own = prefix == types.prover_pause || prefix == types.prover_resume || prefix
                == types.prover_leave || prefix == types.prover_confirm || prefix
                == types.prover_reject || prefix == types.prover_update || prefix
                == types.prover_join;
            let p = prover_tree(domain, log, a);
            let t = allocation_tree(domain, log, a, needed, allocation);
            &&& a is Some <==> own && signer is Some
            &&& a is Some ==> a->Some_0 == signer->Some_0@
            &&& p is Some <==> a is Some && a->Some_0.len() >= 32 && is_known(
                domain,
                log,
                a->Some_0,
            )
            &&& lookup(log, at(domain, a->Some_0)) matches Some(GlobalValueView::Fields(r))
                ==> p is Some ==> p->Some_0 == r
            &&& t is Some <==> {
                &&& p is Some
                &&& needed
                &&& field_at(domain, log, a->Some_0, Field::PublicKey) matches Some(k) && k.len() > 0
                &&& allocation is Some
                &&& is_known(domain, log, allocation->Some_0@)
            }
            &&& lookup(log, at(domain, allocation->Some_0@)) matches Some(
                GlobalValueView::Fields(r),
            ) ==> t is Some ==> t->Some_0 == r
        }),
{
    lemma_tags_apart(types);
    crate::assoc::lemma_key_index_is(
        Seq::<(Field, Seq<u8>)>::empty(),
        Field::PublicKey,
        0,
    );
}

/// Each kind of request goes to one engine.
pub proof fn law_requests_are_routed(v: RequestVariant)
    ensures
        engine_for(v) == Some(EngineType::Global) <==> (v is Join || v is Leave || v is Pause
            || v is Resume || v is Confirm || v is Reject || v is Kick || v is Update || v is Shard
            || v is SeniorityMerge),
        engine_for(v) == Some(EngineType::Token) <==> (v is TokenDeploy || v is TokenUpdate
            || v is Transaction || v is PendingTransaction || v is MintTransaction),
        engine_for(v) == Some(EngineType::Compute) <==> (v is ComputeDeploy || v is ComputeUpdate
            || v is CodeDeploy || v is CodeExecute || v is CodeFinalize),
        engine_for(v) == Some(EngineType::Hypergraph) <==> (v is HypergraphDeploy
            || v is HypergraphUpdate || v is VertexAdd || v is VertexRemove || v is HyperedgeAdd
            || v is HyperedgeRemove),
{
}

} // verus!
