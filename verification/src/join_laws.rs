//! What a join does: when it goes through, and what can be read behind it.

use vstd::prelude::*;

use crate::assoc::{lemma_key_index_is, lemma_with_value, value_of};
use crate::bytes::{be_nat, be_seq};
use crate::checks::lemma_first_err_ok;
use crate::codec::base58_text;
use crate::error::ErrorView;
use crate::global_join::{
    claimant, delegate_of, join_effect, join_peers, join_plan, joined, links_of, marked_all,
    marker_record, put_all, rejoin_check, rejoin_checks, reward_record, senior_record, JoinOp,
    MergeTarget, RecordWrite,
};
use crate::global_laws::{
    is_target, lemma_be_nat_bound, lemma_be_seq, lemma_marked_edge, lemma_marked_frame,
    lemma_marks,
};
use crate::global_steps::{put, GlobalLog};
use crate::peer_id::key_multihash;
use crate::records::{Field, GlobalValueView};
use crate::state::{
    law_last_write_counts, law_other_places_stay, law_read_after_write, lookup, written,
    ChangeView, Layer, Place,
};

verus! {

/// The place of a vertex.
pub open spec fn at(domain: Seq<u8>, address: Seq<u8>) -> Place {
    Place { domain, address, layer: Layer::VertexAdds }
}

/// Is there a record, or a hyperedge, at the address, and not just the trace of one?
pub open spec fn is_known(domain: Seq<u8>, log: GlobalLog, address: Seq<u8>) -> bool {
    lookup(log, at(domain, address)) matches Some(v) && !(v is Empty)
}

/// The bytes of a field of the record at the address.
pub open spec fn field_at(domain: Seq<u8>, log: GlobalLog, address: Seq<u8>, f: Field) -> Option<
    Seq<u8>,
> {
    match lookup(log, at(domain, address)) {
        Some(GlobalValueView::Fields(r)) => value_of(r, f),
        _ => None,
    }
}

/// The number in an eight-byte field of the record at the address; zero where there is
/// none.
pub open spec fn number_at(domain: Seq<u8>, log: GlobalLog, address: Seq<u8>, f: Field) -> nat {
    match field_at(domain, log, address, f) {
        Some(b) => if b.len() == 8 {
            be_nat(b)
        } else {
            0
        },
        None => 0,
    }
}

/// Does the allocation at the address stand in the way of joining it? It does while it is
/// active, and if it neither was left nor is older than 720 frames.
pub open spec fn in_the_way(domain: Seq<u8>, log: GlobalLog, frame_number: u64, address: Seq<u8>) -> bool {
    field_at(domain, log, address, Field::Status) matches Some(s) && s.len() > 0 && s[0] != 4 && (
    s[0] == 1 || (field_at(domain, log, address, Field::JoinFrameNumber) matches Some(j) && j.len()
        == 8 && frame_number < be_nat(j) + 720))
}

/// The prover that the marker at the address names by 32 bytes.
pub open spec fn owner(domain: Seq<u8>, log: GlobalLog, marker: Seq<u8>) -> Option<Seq<u8>> {
    match field_at(domain, log, marker, Field::ProverAddress) {
        Some(a) => if a.len() == 32 {
            Some(a)
        } else {
            None
        },
        None => None,
    }
}

/// Does the merge target count for a join of the prover: does it name a peer, and has no
/// other prover claimed it?
pub open spec fn counts(domain: Seq<u8>, log: GlobalLog, prover: Seq<u8>, t: MergeTarget) -> bool {
    &&& t.key_type == 0
    &&& t.public_key@.len() == 57
    &&& owner(domain, log, t.spent_address->Ok_0@) matches Some(o) ==> o == prover
}

proof fn lemma_owner(domain: Seq<u8>, log: GlobalLog, marker: Seq<u8>)
    ensures
        claimant(domain, log, marker) == owner(domain, log, marker),
{
}

proof fn lemma_join_peers(domain: Seq<u8>, log: GlobalLog, prover: Seq<u8>, ts: Seq<MergeTarget>)
    ensures
        join_peers(domain, log, prover, ts) is Ok <==> (forall|i: int|
            0 <= i < ts.len() ==> (#[trigger] ts[i]).spent_address is Ok),
        join_peers(domain, log, prover, ts) matches Ok(ps) ==> (ps.len() > 0 <==> exists|i: int|
            0 <= i < ts.len() && counts(domain, log, prover, #[trigger] ts[i])),
    decreases ts.len(),
{
    if ts.len() > 0 {
        let rest = ts.drop_last();
        lemma_join_peers(domain, log, prover, rest);
        let t = ts.last();
        assert(t == ts[ts.len() - 1]);
        assert forall|i: int| 0 <= i < rest.len() implies rest[i] == ts[i] by {}
        if t.spent_address is Ok {
            lemma_owner(domain, log, t.spent_address->Ok_0@);
        }
        if forall|i: int| 0 <= i < ts.len() ==> (#[trigger] ts[i]).spent_address is Ok {
            assert forall|i: int| 0 <= i < rest.len() implies (
            #[trigger] rest[i]).spent_address is Ok by {
                assert(ts[i].spent_address is Ok);
            }
        }
        if join_peers(domain, log, prover, ts) is Ok {
            assert forall|i: int| 0 <= i < ts.len() implies (#[trigger] ts[i]).spent_address is Ok by {
                if i < rest.len() {
                    assert(rest[i].spent_address is Ok);
                }
            }
            if exists|i: int| 0 <= i < rest.len() && counts(domain, log, prover, #[trigger] rest[i]) {
                let i = choose|i: int|
                    0 <= i < rest.len() && counts(domain, log, prover, #[trigger] rest[i]);
                assert(counts(domain, log, prover, ts[i]));
            }
            if exists|i: int| 0 <= i < ts.len() && counts(domain, log, prover, #[trigger] ts[i]) {
                let i = choose|i: int|
                    0 <= i < ts.len() && counts(domain, log, prover, #[trigger] ts[i]);
                if i < rest.len() {
                    assert(counts(domain, log, prover, rest[i]));
                }
            }
        }
    }
}

/// The peers whose seniority a join takes over are named target by target: one more
/// target adds its peer at the end if it counts, and nobody otherwise.
pub proof fn law_join_peers_by_target(
    domain: Seq<u8>,
    log: GlobalLog,
    prover: Seq<u8>,
    ts: Seq<MergeTarget>,
    t: MergeTarget,
)
    requires
        join_peers(domain, log, prover, ts) is Ok,
        t.spent_address is Ok,
    ensures
        join_peers(domain, log, prover, Seq::empty()) == Ok::<Seq<Seq<char>>, ErrorView>(
            Seq::empty(),
        ),
        join_peers(domain, log, prover, ts.push(t)) == Ok::<Seq<Seq<char>>, ErrorView>(
            if counts(domain, log, prover, t) {
                join_peers(domain, log, prover, ts)->Ok_0.push(
                    base58_text(key_multihash(t.public_key@)),
                )
            } else {
                join_peers(domain, log, prover, ts)->Ok_0
            },
        ),
{
    assert(ts.push(t).drop_last() =~= ts);
    lemma_owner(domain, log, t.spent_address->Ok_0@);
}

proof fn lemma_rejoin(
    domain: Seq<u8>,
    log: GlobalLog,
    frame_number: u64,
    op: JoinOp,
    i: int,
)
    requires
        0 <= i < op.allocation_addresses@.len(),
    ensures
        rejoin_check(domain, log, frame_number, op.allocation_addresses@[i]) is Ok <==> (
        op.allocation_addresses@[i] matches Ok(a) && !in_the_way(domain, log, frame_number, a@)),
{
}

/// A join goes through exactly where the prover has a public key and an address, where
/// every place that it writes to could be found out, and where, if the prover is known
/// already, it was not kicked and none of the allocations stands in the way.
pub proof fn law_join_goes_through(domain: Seq<u8>, log: GlobalLog, frame_number: u64, op: JoinOp)
    ensures
        join_effect(domain, log, frame_number, op).answer is Ok <==> {
            &&& op.public_key@.len() > 0
            &&& op.prover_address is Ok
            &&& is_known(domain, log, op.prover_address->Ok_0@) ==> number_at(
                domain,
                log,
                op.prover_address->Ok_0@,
                Field::KickFrameNumber,
            ) == 0 && forall|i: int|
                0 <= i < op.allocation_addresses@.len() ==> (
                #[trigger] op.allocation_addresses@[i] matches Ok(a) && !in_the_way(
                    domain,
                    log,
                    frame_number,
                    a@,
                ))
            &&& forall|i: int|
                0 <= i < op.merge_targets@.len() ==> (
                #[trigger] op.merge_targets@[i]).spent_address is Ok
            &&& op.materialized is Ok
            &&& op.reward_address is Ok
        },
        op.public_key@.len() == 0 ==> join_effect(domain, log, frame_number, op).answer == Err::<
            (),
            ErrorView,
        >(ErrorView::InvalidArgument("invoke_step join: no public key"@)),
        op.public_key@.len() > 0 && op.prover_address is Ok && is_known(
            domain,
            log,
            op.prover_address->Ok_0@,
        ) && number_at(domain, log, op.prover_address->Ok_0@, Field::KickFrameNumber) > 0
            ==> join_effect(domain, log, frame_number, op).answer == Err::<(), ErrorView>(
            ErrorView::InvalidArgument("invoke_step join: prover has been previously kicked"@),
        ),
{
    if op.prover_address is Ok {
        let p = op.prover_address->Ok_0@;
        let cs = rejoin_checks(domain, log, frame_number, op.allocation_addresses@);
        lemma_first_err_ok(cs);
        lemma_join_peers(domain, log, p, op.merge_targets@);
        assert forall|i: int| 0 <= i < op.allocation_addresses@.len() implies (cs[i] is Ok <==> (
        #[trigger] op.allocation_addresses@[i] matches Ok(a) && !in_the_way(
            domain,
            log,
            frame_number,
            a@,
        ))) by {
            lemma_rejoin(domain, log, frame_number, op, i);
        }
        if forall|i: int| 0 <= i < cs.len() ==> (#[trigger] cs[i]) is Ok {
            assert forall|i: int| 0 <= i < op.allocation_addresses@.len() implies (
            #[trigger] op.allocation_addresses@[i] matches Ok(a) && !in_the_way(
                domain,
                log,
                frame_number,
                a@,
            )) by {
                assert(cs[i] is Ok);
            }
        }
        if forall|i: int|
            0 <= i < op.allocation_addresses@.len() ==> (
            #[trigger] op.allocation_addresses@[i] matches Ok(a) && !in_the_way(
                domain,
                log,
                frame_number,
                a@,
            )) {
            assert forall|i: int| 0 <= i < cs.len() implies (#[trigger] cs[i]) is Ok by {
                assert(op.allocation_addresses@[i] is Ok);
            }
        }
    }
}

/// A join that is refused for what it is, before its reward's place is looked for, writes
/// nothing.
pub proof fn law_refused_join_writes_nothing(domain: Seq<u8>, log: GlobalLog, frame_number: u64, op: JoinOp)
    requires
        join_effect(domain, log, frame_number, op).answer is Err,
        op.reward_address is Ok,
    ensures
        join_effect(domain, log, frame_number, op).log == log,
{
}

/// The changes that writing records makes.
spec fn record_changes(domain: Seq<u8>, frame_number: u64, ws: Seq<RecordWrite>) -> Seq<
    ChangeView<GlobalValueView>,
> {
    Seq::new(
        ws.len(),
        |i: int|
            written(
                domain,
                ws[i].address@,
                Layer::VertexAdds,
                frame_number,
                GlobalValueView::Fields(ws[i].record@),
            ),
    )
}

proof fn lemma_put_all_is(log: GlobalLog, domain: Seq<u8>, frame_number: u64, ws: Seq<RecordWrite>)
    ensures
        put_all(log, domain, frame_number, ws) == log + record_changes(domain, frame_number, ws),
    decreases ws.len(),
{
    if ws.len() > 0 {
        lemma_put_all_is(log, domain, frame_number, ws.drop_last());
        assert(log + record_changes(domain, frame_number, ws) =~= (log + record_changes(
            domain,
            frame_number,
            ws.drop_last(),
        )).push(
            written(
                domain,
                ws.last().address@,
                Layer::VertexAdds,
                frame_number,
                GlobalValueView::Fields(ws.last().record@),
            ),
        ));
    } else {
        assert(log + record_changes(domain, frame_number, ws) =~= log);
    }
}

/// Of a list of records that are written, each can be read at its address, unless a later
/// one of the list goes there too; and every other place holds what it held.
pub proof fn law_written_records_are_read(
    log: GlobalLog,
    domain: Seq<u8>,
    frame_number: u64,
    ws: Seq<RecordWrite>,
    i: int,
    place: Place,
)
    ensures
        0 <= i < ws.len() && (forall|j: int| i < j < ws.len() ==> (#[trigger] ws[j]).address@
            != ws[i].address@) ==> lookup(
            put_all(log, domain, frame_number, ws),
            at(domain, ws[i].address@),
        ) == Some(GlobalValueView::Fields(ws[i].record@)),
        (forall|j: int|
            0 <= j < ws.len() ==> place != at(domain, (#[trigger] ws[j]).address@)) ==> lookup(
            put_all(log, domain, frame_number, ws),
            place,
        ) == lookup(log, place),
        put_all(log, domain, frame_number, ws).len() == log.len() + ws.len(),
{
    let cs = record_changes(domain, frame_number, ws);
    lemma_put_all_is(log, domain, frame_number, ws);
    if 0 <= i < ws.len() && (forall|j: int| i < j < ws.len() ==> (#[trigger] ws[j]).address@
        != ws[i].address@) {
        assert forall|j: int| i < j < cs.len() implies (#[trigger] cs[j]).place != cs[i].place by {
            assert(ws[j].address@ != ws[i].address@);
        }
        law_last_write_counts(log, cs, i);
    }
    if forall|j: int| 0 <= j < ws.len() ==> place != at(domain, (#[trigger] ws[j]).address@) {
        assert forall|j: int| 0 <= j < cs.len() implies (#[trigger] cs[j]).place != place by {
            assert(place != at(domain, ws[j].address@));
        }
        law_other_places_stay(log, cs, place);
    }
}

/// Is the address none of those where a join writes its merge markers and its reward?
pub open spec fn apart(op: JoinOp, address: Seq<u8>) -> bool {
    &&& op.reward_address->Ok_0@ != address
    &&& forall|i: int|
        0 <= i < op.merge_targets@.len() && (#[trigger] op.merge_targets@[i]).spent_address is Ok
            ==> op.merge_targets@[i].spent_address->Ok_0@ != address
}

/// The parts of the log behind a join, from the first write to the last.
proof fn lemma_join_parts(domain: Seq<u8>, log: GlobalLog, frame_number: u64, op: JoinOp, place: Place)
    requires
        join_effect(domain, log, frame_number, op).answer is Ok,
    ensures
        ({
            let out = op.materialized->Ok_0;
            let plan = join_plan(domain, log, frame_number, op)->Ok_0;
            let p = op.prover_address->Ok_0@;
            let first = put(log, domain, p, frame_number, senior_record(out.prover@, plan.seniority));
            let vertices = put_all(first, domain, frame_number, out.allocations@);
            let edged = vertices.push(
                written(
                    domain,
                    p,
                    Layer::HyperedgeAdds,
                    frame_number,
                    GlobalValueView::Links(links_of(domain, out.allocations@)),
                ),
            );
            let marked = marked_all(edged, domain, frame_number, p, op.merge_targets@);
            let after = join_effect(domain, log, frame_number, op).log;
            &&& plan.prover_address == p
            &&& after == put(
                marked,
                domain,
                op.reward_address->Ok_0@,
                frame_number,
                reward_record(delegate_of(op, p)),
            )
            &&& place == at(domain, op.reward_address->Ok_0@) ==> lookup(after, place) == Some(
                GlobalValueView::Fields(reward_record(delegate_of(op, p))),
            )
            &&& place != at(domain, op.reward_address->Ok_0@) ==> lookup(after, place) == lookup(
                marked,
                place,
            )
            &&& place == (Place { domain, address: p, layer: Layer::HyperedgeAdds }) ==> lookup(
                edged,
                place,
            ) == Some(GlobalValueView::Links(links_of(domain, out.allocations@)))
            &&& place != (Place { domain, address: p, layer: Layer::HyperedgeAdds }) ==> lookup(
                edged,
                place,
            ) == lookup(vertices, place)
            &&& place == at(domain, p) ==> lookup(first, place) == Some(
                GlobalValueView::Fields(senior_record(out.prover@, plan.seniority)),
            )
            &&& place != at(domain, p) ==> lookup(first, place) == lookup(log, place)
        }),
{
    let out = op.materialized->Ok_0;
    let plan = join_plan(domain, log, frame_number, op)->Ok_0;
    let p = op.prover_address->Ok_0@;
    let r = senior_record(out.prover@, plan.seniority);
    let first = put(log, domain, p, frame_number, r);
    let vertices = put_all(first, domain, frame_number, out.allocations@);
    law_read_after_write(
        log,
        written(domain, p, Layer::VertexAdds, frame_number, GlobalValueView::Fields(r)),
        place,
    );
    law_read_after_write(
        vertices,
        written(
            domain,
            p,
            Layer::HyperedgeAdds,
            frame_number,
            GlobalValueView::Links(links_of(domain, out.allocations@)),
        ),
        place,
    );
    law_read_after_write(
        joined(log, domain, frame_number, op, plan, out),
        written(
            domain,
            op.reward_address->Ok_0@,
            Layer::VertexAdds,
            frame_number,
            GlobalValueView::Fields(reward_record(delegate_of(op, p))),
        ),
        place,
    );
}

/// After a join that went through, the record of each of its allocations can be read at
/// the allocation's address, so that the prover can confirm, pause or leave it later. This
/// is so unless another write of the same join goes there afterwards.
pub proof fn law_join_writes_its_allocations(
    domain: Seq<u8>,
    log: GlobalLog,
    frame_number: u64,
    op: JoinOp,
    i: int,
)
    requires
        join_effect(domain, log, frame_number, op).answer is Ok,
        0 <= i < op.materialized->Ok_0.allocations@.len(),
        forall|j: int|
            i < j < op.materialized->Ok_0.allocations@.len() ==> (
            #[trigger] op.materialized->Ok_0.allocations@[j]).address@
                != op.materialized->Ok_0.allocations@[i].address@,
        apart(op, op.materialized->Ok_0.allocations@[i].address@),
    ensures
        ({
            let w = op.materialized->Ok_0.allocations@[i];
            lookup(join_effect(domain, log, frame_number, op).log, at(domain, w.address@)) == Some(
                GlobalValueView::Fields(w.record@),
            )
        }),
{
    let out = op.materialized->Ok_0;
    let w = out.allocations@[i];
    let place = at(domain, w.address@);
    let plan = join_plan(domain, log, frame_number, op)->Ok_0;
    let p = op.prover_address->Ok_0@;
    let first = put(log, domain, p, frame_number, senior_record(out.prover@, plan.seniority));
    let vertices = put_all(first, domain, frame_number, out.allocations@);
    lemma_join_parts(domain, log, frame_number, op, place);
    law_written_records_are_read(first, domain, frame_number, out.allocations@, i, place);
    let edged = vertices.push(
        written(
            domain,
            p,
            Layer::HyperedgeAdds,
            frame_number,
            GlobalValueView::Links(links_of(domain, out.allocations@)),
        ),
    );
    lemma_marked_frame(edged, domain, frame_number, p, op.merge_targets@, w.address@);
}

/// After a join that went through, the prover's record is the one that the join made, with
/// the greater of two seniorities: what the prover had before, and what its merge targets
/// give if one of them counts. This is so where no other write of the join goes there.
pub proof fn law_join_writes_the_prover(
    domain: Seq<u8>,
    log: GlobalLog,
    frame_number: u64,
    op: JoinOp,
    f: Field,
)
    requires
        join_effect(domain, log, frame_number, op).answer is Ok,
        apart(op, op.prover_address->Ok_0@),
        forall|j: int|
            0 <= j < op.materialized->Ok_0.allocations@.len() ==> (
            #[trigger] op.materialized->Ok_0.allocations@[j]).address@ != op.prover_address->Ok_0@,
    ensures
        ({
            let p = op.prover_address->Ok_0@;
            let after = join_effect(domain, log, frame_number, op).log;
            let had = number_at(domain, log, p, Field::Seniority);
            let gets = if exists|i: int|
                0 <= i < op.merge_targets@.len() && counts(
                    domain,
                    log,
                    p,
                    #[trigger] op.merge_targets@[i],
                ) {
                op.aggregated_seniority as nat
            } else {
                0
            };
            &&& is_known(domain, after, p)
            &&& f != Field::Seniority ==> field_at(domain, after, p, f) == value_of(
                op.materialized->Ok_0.prover@,
                f,
            )
            &&& field_at(domain, after, p, Field::Seniority) matches Some(b) && b.len() == 8
                && be_nat(b) == if had > gets {
                had
            } else {
                gets
            }
        }),
{
    let out = op.materialized->Ok_0;
    let plan = join_plan(domain, log, frame_number, op)->Ok_0;
    let p = op.prover_address->Ok_0@;
    let place = at(domain, p);
    let first = put(log, domain, p, frame_number, senior_record(out.prover@, plan.seniority));
    let vertices = put_all(first, domain, frame_number, out.allocations@);
    lemma_join_parts(domain, log, frame_number, op, place);
    assert forall|j: int| 0 <= j < out.allocations@.len() implies place != at(
        domain,
        (#[trigger] out.allocations@[j]).address@,
    ) by {}
    law_written_records_are_read(first, domain, frame_number, out.allocations@, -1, place);
    let edged = vertices.push(
        written(
            domain,
            p,
            Layer::HyperedgeAdds,
            frame_number,
            GlobalValueView::Links(links_of(domain, out.allocations@)),
        ),
    );
    lemma_marked_frame(edged, domain, frame_number, p, op.merge_targets@, p);
    lemma_join_peers(domain, log, p, op.merge_targets@);
    if let Some(b) = field_at(domain, log, p, Field::Seniority) {
        if b.len() == 8 {
            lemma_be_nat_bound(b);
        }
    }
    lemma_be_seq(plan.seniority);
    lemma_with_value(out.prover@, Field::Seniority, be_seq(plan.seniority, 8), f);
    lemma_with_value(
        out.prover@,
        Field::Seniority,
        be_seq(plan.seniority, 8),
        Field::Seniority,
    );
}

/// After a join that went through, the prover's hyperedge links the join's allocations, in
/// their order and no others, each by the domain and its address.
pub proof fn law_join_writes_the_hyperedge(domain: Seq<u8>, log: GlobalLog, frame_number: u64, op: JoinOp)
    requires
        join_effect(domain, log, frame_number, op).answer is Ok,
    ensures
        ({
            let edge = lookup(
                join_effect(domain, log, frame_number, op).log,
                Place {
                    domain,
                    address: op.prover_address->Ok_0@,
                    layer: Layer::HyperedgeAdds,
                },
            );
            let ws = op.materialized->Ok_0.allocations@;
            &&& edge matches Some(GlobalValueView::Links(ls)) && ls.len() == ws.len() && forall|i: int|
                0 <= i < ws.len() ==> #[trigger] ls[i] == domain + ws[i].address@
        }),
{
    let out = op.materialized->Ok_0;
    let plan = join_plan(domain, log, frame_number, op)->Ok_0;
    let p = op.prover_address->Ok_0@;
    let place = Place { domain, address: p, layer: Layer::HyperedgeAdds };
    lemma_join_parts(domain, log, frame_number, op, place);
    let edged = put_all(
        put(log, domain, p, frame_number, senior_record(out.prover@, plan.seniority)),
        domain,
        frame_number,
        out.allocations@,
    ).push(
        written(
            domain,
            p,
            Layer::HyperedgeAdds,
            frame_number,
            GlobalValueView::Links(links_of(domain, out.allocations@)),
        ),
    );
    lemma_marked_edge(edged, domain, frame_number, p, op.merge_targets@, place);
}

/// After a join that went through, the rewards of the prover go to the delegate that was
/// named by 32 bytes, or else to the prover itself, and their balance is 32 zero bytes.
pub proof fn law_join_writes_the_reward(domain: Seq<u8>, log: GlobalLog, frame_number: u64, op: JoinOp)
    requires
        join_effect(domain, log, frame_number, op).answer is Ok,
    ensures
        ({
            let after = join_effect(domain, log, frame_number, op).log;
            let a = op.reward_address->Ok_0@;
            &&& field_at(domain, after, a, Field::DelegateAddress) == Some(
                if op.delegate_address@.len() == 32 {
                    op.delegate_address@
                } else {
                    op.prover_address->Ok_0@
                },
            )
            &&& field_at(domain, after, a, Field::Balance) matches Some(b) && b.len() == 32
                && forall|i: int| 0 <= i < 32 ==> b[i] == 0
        }),
{
    let p = op.prover_address->Ok_0@;
    lemma_join_parts(domain, log, frame_number, op, at(domain, op.reward_address->Ok_0@));
    let r = reward_record(delegate_of(op, p));
    lemma_key_index_is(r, Field::DelegateAddress, 0);
    lemma_key_index_is(r, Field::Balance, 1);
}

/// After a join that went through, each of its merge targets belongs to the prover that
/// had claimed it before, and otherwise to the join's. This is so where the marker stands
/// at none of the other places that the join writes to.
pub proof fn law_join_claims_its_targets(
    domain: Seq<u8>,
    log: GlobalLog,
    frame_number: u64,
    op: JoinOp,
    i: int,
)
    requires
        join_effect(domain, log, frame_number, op).answer is Ok,
        0 <= i < op.merge_targets@.len(),
        op.prover_address->Ok_0@.len() == 32,
        ({
            let m = op.merge_targets@[i].spent_address->Ok_0@;
            &&& m != op.prover_address->Ok_0@
            &&& m != op.reward_address->Ok_0@
            &&& forall|j: int|
                0 <= j < op.materialized->Ok_0.allocations@.len() ==> (
                #[trigger] op.materialized->Ok_0.allocations@[j]).address@ != m
        }),
    ensures
        ({
            let m = op.merge_targets@[i].spent_address->Ok_0@;
            owner(domain, join_effect(domain, log, frame_number, op).log, m) == Some(
                match owner(domain, log, m) {
                    Some(earlier) => earlier,
                    None => op.prover_address->Ok_0@,
                },
            )
        }),
{
    let out = op.materialized->Ok_0;
    let plan = join_plan(domain, log, frame_number, op)->Ok_0;
    let p = op.prover_address->Ok_0@;
    lemma_join_peers(domain, log, p, op.merge_targets@);
    assert(op.merge_targets@[i].spent_address is Ok);
    let m = op.merge_targets@[i].spent_address->Ok_0@;
    let place = at(domain, m);
    let first = put(log, domain, p, frame_number, senior_record(out.prover@, plan.seniority));
    let vertices = put_all(first, domain, frame_number, out.allocations@);
    lemma_join_parts(domain, log, frame_number, op, place);
    assert forall|j: int| 0 <= j < out.allocations@.len() implies place != at(
        domain,
        (#[trigger] out.allocations@[j]).address@,
    ) by {}
    law_written_records_are_read(first, domain, frame_number, out.allocations@, -1, place);
    let edged = vertices.push(
        written(
            domain,
            p,
            Layer::HyperedgeAdds,
            frame_number,
            GlobalValueView::Links(links_of(domain, out.allocations@)),
        ),
    );
    assert(is_target(op.merge_targets@, m));
    lemma_marks(edged, domain, frame_number, p, op.merge_targets@, m);
    lemma_owner(domain, edged, m);
    lemma_owner(domain, log, m);
    lemma_key_index_is(marker_record(p), Field::ProverAddress, 0);
}

/// A join changes no place but those of its prover, its allocations, its merge targets and
/// its reward in the domain: whatever stands elsewhere stays.
pub proof fn law_join_leaves_the_rest(
    domain: Seq<u8>,
    log: GlobalLog,
    frame_number: u64,
    op: JoinOp,
    place: Place,
)
    requires
        join_effect(domain, log, frame_number, op).answer is Ok,
        place.layer == Layer::VertexAdds && place.domain == domain ==> {
            &&& place.address != op.prover_address->Ok_0@
            &&& apart(op, place.address)
            &&& forall|j: int|
                0 <= j < op.materialized->Ok_0.allocations@.len() ==> (
                #[trigger] op.materialized->Ok_0.allocations@[j]).address@ != place.address
        },
        place != (Place {
            domain,
            address: op.prover_address->Ok_0@,
            layer: Layer::HyperedgeAdds,
        }),
    ensures
        lookup(join_effect(domain, log, frame_number, op).log, place) == lookup(log, place),
{
    let out = op.materialized->Ok_0;
    let plan = join_plan(domain, log, frame_number, op)->Ok_0;
    let p = op.prover_address->Ok_0@;
    let first = put(log, domain, p, frame_number, senior_record(out.prover@, plan.seniority));
    let vertices = put_all(first, domain, frame_number, out.allocations@);
    lemma_join_parts(domain, log, frame_number, op, place);
    assert forall|j: int| 0 <= j < out.allocations@.len() implies place != at(
        domain,
        (#[trigger] out.allocations@[j]).address@,
    ) by {}
    law_written_records_are_read(first, domain, frame_number, out.allocations@, -1, place);
    let edged = vertices.push(
        written(
            domain,
            p,
            Layer::HyperedgeAdds,
            frame_number,
            GlobalValueView::Links(links_of(domain, out.allocations@)),
        ),
    );
    lemma_marks_leave(edged, domain, frame_number, p, op.merge_targets@, place);
}

/// Marking merge targets leaves every place that is no marker's.
pub proof fn lemma_marks_leave(
    log: GlobalLog,
    domain: Seq<u8>,
    frame_number: u64,
    prover: Seq<u8>,
    ts: Seq<MergeTarget>,
    place: Place,
)
    requires
        forall|i: int|
            0 <= i < ts.len() && (#[trigger] ts[i]).spent_address is Ok ==> place != at(
                domain,
                ts[i].spent_address->Ok_0@,
            ),
    ensures
        lookup(marked_all(log, domain, frame_number, prover, ts), place) == lookup(log, place),
    decreases ts.len(),
{
    if ts.len() > 0 {
        let rest = ts.drop_last();
        assert forall|i: int|
            0 <= i < rest.len() && (#[trigger] rest[i]).spent_address is Ok implies place != at(
            domain,
            rest[i].spent_address->Ok_0@,
        ) by {
            assert(rest[i] == ts[i]);
        }
        lemma_marks_leave(log, domain, frame_number, prover, rest, place);
        let t = ts[ts.len() - 1];
        if t.spent_address is Ok {
            law_read_after_write(
                marked_all(log, domain, frame_number, prover, rest),
                written(
                    domain,
                    t.spent_address->Ok_0@,
                    Layer::VertexAdds,
                    frame_number,
                    GlobalValueView::Fields(marker_record(prover)),
                ),
                place,
            );
        }
    }
}

} // verus!
