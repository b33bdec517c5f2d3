//! What the compute operations do: when each of them goes through, and what can be read
//! behind it.

use vstd::prelude::*;

use crate::checks::first_err;
use crate::compute_engine::{
    bundle_effect, compute_effect, finalize_domain_of, log_of, placed, ComputeExecutionEngine,
    ComputeRequest, ComputeTypes, PlacedWrite,
};
use crate::state::{
    law_last_write_counts, law_other_places_stay, lookup, written, ChangeView, Layer, Place,
};
use crate::token_engine::BlobLog;
use crate::token_laws::{lemma_all_pass, vertex_at};

verus! {

/// No two operations share a type tag, and all of them belong to the engine.
pub open spec fn compute_tags_ok(t: &ComputeTypes) -> bool {
    &&& t.code_deployment != t.code_execute && t.code_deployment != t.code_finalize
        && t.code_execute != t.code_finalize
    &&& t.prefixes@.contains(t.code_deployment) && t.prefixes@.contains(t.code_execute)
        && t.prefixes@.contains(t.code_finalize)
}

/// Is the request a deployment, an execution or a finalization?
pub open spec fn is_code_op(t: &ComputeTypes, r: ComputeRequest) -> bool {
    r.inner_type_prefix == t.code_deployment || r.inner_type_prefix == t.code_execute
        || r.inner_type_prefix == t.code_finalize
}

/// A deployment, an execution or a finalization goes through exactly where it can be read,
/// where its check passes if the engine has what the check needs, and where it can be
/// materialized if the engine has a state. An execution's check must also come out true. Any
/// other operation of the engine must only pass a glance. What is refused writes nothing.
pub proof fn law_compute_goes_through(
    e: &ComputeExecutionEngine,
    has_state: bool,
    log: BlobLog,
    frame_number: u64,
    r: ComputeRequest,
)
    requires
        compute_tags_ok(&e.types),
    ensures
        ({
            let eff = compute_effect(e, has_state, log, frame_number, r);
            let d = r.decoded->Ok_0;
            let p = r.inner_type_prefix;
            &&& is_code_op(&e.types, r) ==> (eff.answer is Ok <==> {
                &&& r.decoded is Ok
                &&& p == e.types.code_deployment && e.circuit_compiler ==> d.verified is Ok
                &&& p == e.types.code_execute && e.bulletproofs ==> (d.verified matches Ok(true))
                &&& p == e.types.code_finalize && e.key_manager ==> d.verified is Ok
                &&& has_state ==> d.writes is Ok
            })
            &&& !is_code_op(&e.types, r) && e.types.prefixes@.contains(p) ==> (eff.answer is Ok
                <==> r.peek is Ok)
            &&& !e.types.prefixes@.contains(p) ==> eff.answer is Ok
            &&& eff.answer is Err || !is_code_op(&e.types, r) || !has_state ==> eff.log == log
        }),
{
}

/// The changes that writing vertices makes.
spec fn placed_changes(frame_number: u64, ws: Seq<PlacedWrite>) -> Seq<ChangeView<Seq<u8>>> {
    Seq::new(
        ws.len(),
        |i: int|
            written(
                ws[i].domain@,
                ws[i].address@,
                Layer::VertexAdds,
                frame_number,
                ws[i].blob@,
            ),
    )
}

proof fn lemma_placed(log: BlobLog, frame_number: u64, ws: Seq<PlacedWrite>)
    ensures
        placed(log, frame_number, ws) == log + placed_changes(frame_number, ws),
    decreases ws.len(),
{
    let cs = placed_changes(frame_number, ws);
    if ws.len() > 0 {
        lemma_placed(log, frame_number, ws.drop_last());
        assert(log + cs =~= (log + placed_changes(frame_number, ws.drop_last())).push(cs.last()));
    } else {
        assert(log + cs =~= log);
    }
}

/// On an engine with a state, a deployment, an execution or a finalization that went through
/// has added exactly its vertices to the log. Each of them can be read at its domain and
/// address, unless a later one goes there too, and nothing else changes.
pub proof fn law_compute_writes_its_vertices(
    e: &ComputeExecutionEngine,
    log: BlobLog,
    frame_number: u64,
    r: ComputeRequest,
    i: int,
    place: Place,
)
    requires
        compute_tags_ok(&e.types),
        is_code_op(&e.types, r),
        compute_effect(e, true, log, frame_number, r).answer is Ok,
    ensures
        ({
            let after = compute_effect(e, true, log, frame_number, r).log;
            let ws = r.decoded->Ok_0.writes->Ok_0@;
            &&& after.len() == log.len() + ws.len()
            &&& log.is_prefix_of(after)
            &&& 0 <= i < ws.len() ==> after[log.len() + i].place == vertex_at(
                ws[i].domain@,
                ws[i].address@,
            ) && after[log.len() + i].value == Some(ws[i].blob@) && after[log.len()
                + i].frame_number == frame_number
            &&& 0 <= i < ws.len() && (forall|j: int|
                i < j < ws.len() ==> (#[trigger] ws[j]).address@ != ws[i].address@
                    || ws[j].domain@ != ws[i].domain@) ==> lookup(
                after,
                vertex_at(ws[i].domain@, ws[i].address@),
            ) == Some(ws[i].blob@)
            &&& (forall|j: int|
                0 <= j < ws.len() ==> place != vertex_at(
                    (#[trigger] ws[j]).domain@,
                    ws[j].address@,
                )) ==> lookup(after, place) == lookup(log, place)
        }),
{
    let ws = r.decoded->Ok_0.writes->Ok_0@;
    let cs = placed_changes(frame_number, ws);
    lemma_placed(log, frame_number, ws);
    if 0 <= i < ws.len() && (forall|j: int|
        i < j < ws.len() ==> (#[trigger] ws[j]).address@ != ws[i].address@ || ws[j].domain@
            != ws[i].domain@) {
        assert forall|j: int| i < j < cs.len() implies (#[trigger] cs[j]).place != cs[i].place by {
            assert(ws[j].address@ != ws[i].address@ || ws[j].domain@ != ws[i].domain@);
        }
        law_last_write_counts(log, cs, i);
    }
    if forall|j: int|
        0 <= j < ws.len() ==> place != vertex_at((#[trigger] ws[j]).domain@, ws[j].address@) {
        assert forall|j: int| 0 <= j < cs.len() implies (#[trigger] cs[j]).place != place by {
            assert(place != vertex_at(ws[j].domain@, ws[j].address@));
        }
        law_other_places_stay(log, cs, place);
    }
}

/// A bundle is processed request by request up to the first that fails: one more request
/// does what it does alone behind those before it, if they all went through, and nothing
/// otherwise. Empty slots do nothing.
pub proof fn law_compute_bundle_one_by_one(
    e: &ComputeExecutionEngine,
    has_state: bool,
    log: BlobLog,
    frame_number: u64,
    rs: Seq<Option<ComputeRequest>>,
    r: ComputeRequest,
)
    ensures
        ({
            let none = bundle_effect(e, has_state, log, frame_number, Seq::empty());
            let before = bundle_effect(e, has_state, log, frame_number, rs);
            let after = bundle_effect(e, has_state, log, frame_number, rs.push(Some(r)));
            &&& none.answer is Ok && none.log == log
            &&& bundle_effect(e, has_state, log, frame_number, rs.push(None)) == before
            &&& before.answer is Err ==> after == before
            &&& before.answer is Ok ==> after == compute_effect(
                e,
                has_state,
                before.log,
                frame_number,
                r,
            )
        }),
{
    assert(rs.push(Some(r)).drop_last() =~= rs);
    assert(rs.push(None).drop_last() =~= rs);
}

/// A bundle is valid exactly where a glance at each of its operations finds nothing to
/// object; what is not the engine's is passed over.
pub proof fn law_compute_bundle_valid(e: &ComputeExecutionEngine, rs: Seq<Option<ComputeRequest>>)
    ensures
        first_err(e.bundle_validation(rs)) is Ok <==> (forall|k: int|
            0 <= k < rs.len() ==> (#[trigger] rs[k] matches Some(r) ==> e.types.prefixes@.contains(
                r.inner_type_prefix,
            ) ==> r.peek is Ok)),
        forall|r: ComputeRequest| #[trigger]
            e.slot_validation(Some(r)) is Ok <==> (e.types.prefixes@.contains(r.inner_type_prefix)
                ==> r.peek is Ok),
{
    let cs = e.bundle_validation(rs);
    let p = |k: int|
        rs[k] matches Some(r) ==> e.types.prefixes@.contains(r.inner_type_prefix) ==> r.peek is Ok;
    lemma_all_pass(cs, p);
    if first_err(cs) is Ok {
        assert forall|k: int| 0 <= k < rs.len() implies (#[trigger] rs[k] matches Some(r)
            ==> e.types.prefixes@.contains(r.inner_type_prefix) ==> r.peek is Ok) by {
            assert(p(k));
        }
    }
    if forall|k: int|
        0 <= k < rs.len() ==> (#[trigger] rs[k] matches Some(r) ==> e.types.prefixes@.contains(
            r.inner_type_prefix,
        ) ==> r.peek is Ok) {
        assert forall|k: int| 0 <= k < cs.len() implies #[trigger] p(k) by {
            assert(rs[k] matches Some(r) ==> e.types.prefixes@.contains(r.inner_type_prefix)
                ==> r.peek is Ok);
        }
    }
}

/// The log of an engine is that of its state, and a finalization is for the domain that the
/// first 32 bytes of its address name, or for the one of zeros where it has fewer.
pub proof fn law_compute_places(e: &ComputeExecutionEngine, address: Seq<u8>, i: int)
    ensures
        e.state matches Some(s) ==> log_of(e) == s@,
        e.state is None ==> log_of(e).len() == 0,
        finalize_domain_of(address).len() == 32,
        0 <= i < 32 ==> finalize_domain_of(address)[i] == if address.len() >= 32 {
            address[i]
        } else {
            0
        },
{
}

} // verus!
