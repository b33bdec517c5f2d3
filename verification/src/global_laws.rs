//! What holds of the global operations together.

use vstd::prelude::*;

use crate::assoc::{lemma_with_value, value_of, with_value};
use crate::bytes::{be_nat, be_seq};
use crate::checks::lemma_first_err_ok;
use crate::global_join::{
    claimant, existing, join_effect, join_plan, join_seniority, joined, links_of, marked_all,
    marker_checks, marker_record, merge_effect, merged_seniority, put_all, rejoin_checks,
    senior_record, JoinOp, MergeOp, MergeTarget, RecordWrite,
};
use crate::global_steps::{
    kick_effect, kick_link, kick_links, kicked, linked, put, vertex, with_status, GlobalLog, StepEffect,
    STATUS_ACTIVE, STATUS_KICKED,
};
use crate::records::{
    first_byte_of, number_of, number_or_zero, record_of, Field, GlobalValueView, RecordView,
};
use crate::state::{law_read_after_write, lookup, written, Layer, Place};

verus! {

/// Is the record at a place marked as kicked at the frame?
pub open spec fn is_kicked(v: GlobalValueView, frame_number: u64) -> bool {
    &&& !(v is Empty)
    &&& first_byte_of(record_of(v), Field::Status) == Some(STATUS_KICKED)
    &&& number_of(record_of(v), Field::KickFrameNumber) == Some(frame_number as nat)
}

pub proof fn lemma_be_seq(x: nat)
    requires
        x <= u64::MAX,
    ensures
        be_seq(x, 8).len() == 8,
        be_nat(be_seq(x, 8)) == x,
{
    reveal_with_fuel(be_seq, 9);
    reveal_with_fuel(be_nat, 9);
    let s = be_seq(x, 8);
    let s7 = be_seq(x / 256, 7);
    assert(s.drop_last() =~= s7);
    let x1 = x / 256;
    let s6 = be_seq(x1 / 256, 6);
    assert(s7.drop_last() =~= s6);
    let x2 = x1 / 256;
    let s5 = be_seq(x2 / 256, 5);
    assert(s6.drop_last() =~= s5);
    let x3 = x2 / 256;
    let s4 = be_seq(x3 / 256, 4);
    assert(s5.drop_last() =~= s4);
    let x4 = x3 / 256;
    let s3 = be_seq(x4 / 256, 3);
    assert(s4.drop_last() =~= s3);
    let x5 = x4 / 256;
    let s2 = be_seq(x5 / 256, 2);
    assert(s3.drop_last() =~= s2);
    let x6 = x5 / 256;
    let s1 = be_seq(x6 / 256, 1);
    assert(s2.drop_last() =~= s1);
    let x7 = x6 / 256;
    assert(s1.drop_last() =~= be_seq(x7 / 256, 0));
    assert(x7 < 256);
}

proof fn lemma_kicked(r: RecordView, frame_number: u64)
    ensures
        is_kicked(GlobalValueView::Fields(kicked(r, frame_number)), frame_number),
{
    let k = be_seq(frame_number as nat, 8);
    lemma_be_seq(frame_number as nat);
    lemma_with_value(r, Field::Status, seq![STATUS_KICKED], Field::Status);
    lemma_with_value(with_status(r, STATUS_KICKED), Field::KickFrameNumber, k, Field::Status);
    lemma_with_value(
        with_status(r, STATUS_KICKED),
        Field::KickFrameNumber,
        k,
        Field::KickFrameNumber,
    );
}

/// One more kicked link keeps every kicked place kicked, and keeps what is there.
proof fn lemma_kick_link_keeps(
    domain: Seq<u8>,
    before: StepEffect,
    frame_number: u64,
    link: Seq<u8>,
    place: Place,
)
    requires
        before.answer is Ok,
    ensures
        ({
            let after = kick_link(domain, before, frame_number, link);
            let (a, b) = (lookup(before.log, place), lookup(after.log, place));
            &&& (a is Some && !(a->Some_0 is Empty)) ==> b is Some && !(b->Some_0 is Empty)
            &&& (a is Some && is_kicked(a->Some_0, frame_number)) ==> b is Some && is_kicked(
                b->Some_0,
                frame_number,
            )
        }),
{
    if link.len() == 64 && link.take(32) == domain {
        if let Some(v) = lookup(before.log, vertex(domain, link.skip(32))) {
            lemma_kicked(record_of(v), frame_number);
            law_read_after_write(
                before.log,
                written(
                    domain,
                    link.skip(32),
                    Layer::VertexAdds,
                    frame_number,
                    GlobalValueView::Fields(kicked(record_of(v), frame_number)),
                ),
                place,
            );
        }
    }
}

proof fn lemma_kick_links(
    domain: Seq<u8>,
    log: GlobalLog,
    frame_number: u64,
    links: Seq<Seq<u8>>,
    place: Place,
)
    requires
        kick_links(domain, log, frame_number, links).answer is Ok,
        lookup(log, place) is Some,
        !(lookup(log, place)->Some_0 is Empty),
    ensures
        ({
            let after = lookup(kick_links(domain, log, frame_number, links).log, place);
            &&& after is Some
            &&& !(after->Some_0 is Empty)
            &&& is_kicked(lookup(log, place)->Some_0, frame_number) ==> is_kicked(
                after->Some_0,
                frame_number,
            )
            &&& (exists|i: int|
                0 <= i < links.len() && (#[trigger] links[i]).len() == 64 && place == vertex(
                    domain,
                    links[i].skip(32),
                )) ==> is_kicked(after->Some_0, frame_number)
        }),
    decreases links.len(),
{
    if links.len() > 0 {
        let rest = links.drop_last();
        let before = kick_links(domain, log, frame_number, rest);
        assert(before.answer is Ok);
        lemma_kick_links(domain, log, frame_number, rest, place);
        let link = links.last();
        lemma_kick_link_keeps(domain, before, frame_number, link, place);
        if exists|i: int|
            0 <= i < links.len() && (#[trigger] links[i]).len() == 64 && place == vertex(
                domain,
                links[i].skip(32),
            ) {
            let i = choose|i: int|
                0 <= i < links.len() && (#[trigger] links[i]).len() == 64 && place == vertex(
                    domain,
                    links[i].skip(32),
                );
            if i < rest.len() {
                assert(rest[i] == links[i]);
            } else {
                let v = lookup(before.log, place)->Some_0;
                lemma_kicked(record_of(v), frame_number);
                law_read_after_write(
                    before.log,
                    written(
                        domain,
                        link.skip(32),
                        Layer::VertexAdds,
                        frame_number,
                        GlobalValueView::Fields(kicked(record_of(v), frame_number)),
                    ),
                    place,
                );
            }
        }
    }
}

/// A kick that goes through marks the prover and every allocation that its
/// hyperedge links and that exists.
pub proof fn law_kick_marks_all_allocations(
    domain: Seq<u8>,
    log: GlobalLog,
    frame_number: u64,
    prover: Vec<u8>,
    link: int,
)
    requires
        kick_effect(domain, log, frame_number, Ok(prover)).answer is Ok,
    ensures
        ({
            let after = kick_effect(domain, log, frame_number, Ok(prover)).log;
            let links = linked(domain, log, prover@);
            &&& lookup(after, vertex(domain, prover@)) is Some
            &&& is_kicked(lookup(after, vertex(domain, prover@))->Some_0, frame_number)
            &&& 0 <= link < links.len() && links[link].len() == 64 && lookup(
                log,
                vertex(domain, links[link].skip(32)),
            ) is Some && !(lookup(log, vertex(domain, links[link].skip(32)))->Some_0 is Empty)
                ==> lookup(after, vertex(domain, links[link].skip(32))) is Some && is_kicked(
                lookup(after, vertex(domain, links[link].skip(32)))->Some_0,
                frame_number,
            )
        }),
{
    let v = lookup(log, vertex(domain, prover@))->Some_0;
    let c = written(
        domain,
        prover@,
        Layer::VertexAdds,
        frame_number,
        GlobalValueView::Fields(kicked(record_of(v), frame_number)),
    );
    let first = put(log, domain, prover@, frame_number, kicked(record_of(v), frame_number));
    lemma_kicked(record_of(v), frame_number);
    let edge = Place { domain, address: prover@, layer: Layer::HyperedgeAdds };
    law_read_after_write(log, c, edge);
    law_read_after_write(log, c, vertex(domain, prover@));
    let links = linked(domain, log, prover@);
    assert(linked(domain, first, prover@) == links);
    lemma_kick_links(domain, first, frame_number, links, vertex(domain, prover@));
    if 0 <= link < links.len() && links[link].len() == 64 {
        let place = vertex(domain, links[link].skip(32));
        law_read_after_write(log, c, place);
        if lookup(log, place) is Some && !(lookup(log, place)->Some_0 is Empty) {
            lemma_kick_links(domain, first, frame_number, links, place);
        }
    }
}

/// A prover that was kicked cannot join again, and trying changes nothing.
pub proof fn law_kicked_prover_cannot_join(domain: Seq<u8>, log: GlobalLog, frame_number: u64, op: JoinOp)
    requires
        op.public_key@.len() > 0,
        op.prover_address is Ok,
        existing(domain, log, op.prover_address->Ok_0@) is Some,
        number_or_zero(
            existing(domain, log, op.prover_address->Ok_0@)->Some_0,
            Field::KickFrameNumber,
        ) > 0,
    ensures
        join_effect(domain, log, frame_number, op).answer is Err,
        join_effect(domain, log, frame_number, op).log == log,
{
}

/// An active allocation of a known prover is not joined over, however old it is,
/// and trying changes nothing.
pub proof fn law_active_allocation_not_joined_over(
    domain: Seq<u8>,
    log: GlobalLog,
    frame_number: u64,
    op: JoinOp,
    i: int,
)
    requires
        op.prover_address is Ok,
        existing(domain, log, op.prover_address->Ok_0@) is Some,
        0 <= i < op.allocation_addresses@.len(),
        op.allocation_addresses@[i] is Ok,
        existing(domain, log, op.allocation_addresses@[i]->Ok_0@) is Some,
        first_byte_of(
            existing(domain, log, op.allocation_addresses@[i]->Ok_0@)->Some_0,
            Field::Status,
        ) == Some(STATUS_ACTIVE),
    ensures
        join_effect(domain, log, frame_number, op).answer is Err,
        join_effect(domain, log, frame_number, op).log == log,
{
    let rs = rejoin_checks(domain, log, frame_number, op.allocation_addresses@);
    assert(rs[i] is Err);
    lemma_first_err_ok(rs);
}

/// Is the marker one of those of the merge targets?
pub open spec fn is_target(ts: Seq<MergeTarget>, m: Seq<u8>) -> bool {
    exists|i: int|
        0 <= i < ts.len() && (#[trigger] ts[i]).spent_address is Ok && ts[i].spent_address->Ok_0@
            == m
}

/// What stands at a marker after merge targets were marked.
pub proof fn lemma_marks(
    log: GlobalLog,
    domain: Seq<u8>,
    frame_number: u64,
    prover: Seq<u8>,
    ts: Seq<MergeTarget>,
    m: Seq<u8>,
)
    ensures
        lookup(marked_all(log, domain, frame_number, prover, ts), vertex(domain, m)) == if is_target(
            ts,
            m,
        ) && claimant(domain, log, m) is None {
            Some(GlobalValueView::Fields(marker_record(prover)))
        } else {
            lookup(log, vertex(domain, m))
        },
    decreases ts.len(),
{
    if ts.len() > 0 {
        let rest = ts.drop_last();
        let t = ts.last();
        lemma_marks(log, domain, frame_number, prover, rest, m);
        let before = marked_all(log, domain, frame_number, prover, rest);
        if is_target(rest, m) {
            let i = choose|i: int|
                0 <= i < rest.len() && (#[trigger] rest[i]).spent_address is Ok
                    && rest[i].spent_address->Ok_0@ == m;
            assert(ts[i] == rest[i]);
        }
        if is_target(ts, m) && !is_target(rest, m) {
            let i = choose|i: int|
                0 <= i < ts.len() && (#[trigger] ts[i]).spent_address is Ok
                    && ts[i].spent_address->Ok_0@ == m;
            if i < rest.len() {
                assert(rest[i] == ts[i]);
            }
            assert(ts[i] == t);
        }
        if t.spent_address is Ok {
            let at = t.spent_address->Ok_0@;
            assert(ts[ts.len() - 1] == t);
            law_read_after_write(
                before,
                written(
                    domain,
                    at,
                    Layer::VertexAdds,
                    frame_number,
                    GlobalValueView::Fields(marker_record(prover)),
                ),
                vertex(domain, m),
            );
        }
    }
}

/// A merge target that a prover has claimed stays that prover's: neither a join nor
/// a merge of anyone changes its marker.
pub proof fn law_claimed_marker_stays(
    log: GlobalLog,
    domain: Seq<u8>,
    frame_number: u64,
    prover: Seq<u8>,
    ts: Seq<MergeTarget>,
    m: Seq<u8>,
)
    requires
        claimant(domain, log, m) is Some,
    ensures
        ({
            let after = marked_all(log, domain, frame_number, prover, ts);
            &&& lookup(after, vertex(domain, m)) == lookup(log, vertex(domain, m))
            &&& claimant(domain, after, m) == claimant(domain, log, m)
        }),
{
    lemma_marks(log, domain, frame_number, prover, ts, m);
}

/// After its targets were marked, a join or a merge leaves each of them to the prover that
/// had claimed it before, and claims every other for its own prover.
pub proof fn law_targets_are_claimed(
    log: GlobalLog,
    domain: Seq<u8>,
    frame_number: u64,
    prover: Seq<u8>,
    ts: Seq<MergeTarget>,
    i: int,
)
    requires
        prover.len() == 32,
        0 <= i < ts.len(),
        ts[i].spent_address is Ok,
    ensures
        ({
            let m = ts[i].spent_address->Ok_0@;
            claimant(domain, marked_all(log, domain, frame_number, prover, ts), m) == Some(
                match claimant(domain, log, m) {
                    Some(earlier) => earlier,
                    None => prover,
                },
            )
        }),
{
    let m = ts[i].spent_address->Ok_0@;
    assert(is_target(ts, m));
    lemma_marks(log, domain, frame_number, prover, ts, m);
    crate::assoc::lemma_key_index_is(marker_record(prover), Field::ProverAddress, 0);
}

/// The first to claim a merge target keeps it: a merge that goes through leaves the
/// marker of a claimed target as it is, however many provers merge the target later. A
/// marker that was absent, or names nobody, holds the address of the merge's prover from
/// then on. Only where the prover's own record stands at the marker's place does the rest
/// of that record change.
pub proof fn law_merge_claims_its_targets(
    domain: Seq<u8>,
    log: GlobalLog,
    frame_number: u64,
    op: MergeOp,
    i: int,
)
    requires
        merge_effect(domain, log, frame_number, op).answer is Ok,
        0 <= i < op.merge_targets@.len(),
    ensures
        ({
            let after = merge_effect(domain, log, frame_number, op).log;
            let prover = op.address->Some_0@;
            let m = op.merge_targets@[i].spent_address->Ok_0@;
            let marker = lookup(after, vertex(domain, m));
            &&& op.merge_targets@[i].spent_address is Ok
            &&& claimant(domain, log, m) is Some ==> claimant(domain, after, m) == claimant(
                domain,
                log,
                m,
            ) && (m != prover ==> marker == lookup(log, vertex(domain, m)))
            &&& claimant(domain, log, m) is None ==> marker == Some(
                GlobalValueView::Fields(marker_record(prover)),
            ) && value_of(record_of(marker->Some_0), Field::ProverAddress) == Some(prover)
        }),
{
    let ts = op.merge_targets@;
    let prover = op.address->Some_0@;
    let v = lookup(log, vertex(domain, prover))->Some_0;
    let rs = marker_checks(ts);
    lemma_first_err_ok(rs);
    assert(rs[i] is Ok);
    let m = ts[i].spent_address->Ok_0@;
    let seniority = be_seq(
        merged_seniority(record_of(v), ts, op.aggregated_seniority),
        8,
    );
    let r = with_value(record_of(v), Field::Seniority, seniority);
    let grown = put(log, domain, prover, frame_number, r);
    law_read_after_write(
        log,
        written(domain, prover, Layer::VertexAdds, frame_number, GlobalValueView::Fields(r)),
        vertex(domain, m),
    );
    lemma_with_value(record_of(v), Field::Seniority, seniority, Field::ProverAddress);
    assert(claimant(domain, grown, m) == claimant(domain, log, m));
    assert(is_target(ts, m));
    lemma_marks(grown, domain, frame_number, prover, ts, m);
    crate::assoc::lemma_key_index_is(marker_record(prover), Field::ProverAddress, 0);
}

pub proof fn lemma_marked_edge(
    log: GlobalLog,
    domain: Seq<u8>,
    frame_number: u64,
    prover: Seq<u8>,
    ts: Seq<MergeTarget>,
    place: Place,
)
    requires
        place.layer == Layer::HyperedgeAdds,
    ensures
        lookup(marked_all(log, domain, frame_number, prover, ts), place) == lookup(log, place),
    decreases ts.len(),
{
    if ts.len() > 0 {
        lemma_marked_edge(log, domain, frame_number, prover, ts.drop_last(), place);
        let before = marked_all(log, domain, frame_number, prover, ts.drop_last());
        if ts.last().spent_address is Ok {
            law_read_after_write(
                before,
                written(
                    domain,
                    ts.last().spent_address->Ok_0@,
                    Layer::VertexAdds,
                    frame_number,
                    GlobalValueView::Fields(marker_record(prover)),
                ),
                place,
            );
        }
    }
}

/// After a join that went through, the prover's hyperedge links exactly the
/// allocations of the join, so that a kick reaches all of them.
pub proof fn law_join_links_its_allocations(domain: Seq<u8>, log: GlobalLog, frame_number: u64, op: JoinOp)
    requires
        join_effect(domain, log, frame_number, op).answer is Ok,
    ensures
        linked(
            domain,
            join_effect(domain, log, frame_number, op).log,
            op.prover_address->Ok_0@,
        ) == links_of(domain, op.materialized->Ok_0.allocations@),
{
    let out = op.materialized->Ok_0;
    let plan = join_plan(domain, log, frame_number, op)->Ok_0;
    let p = plan.prover_address;
    let place = Place { domain, address: p, layer: Layer::HyperedgeAdds };
    let vertices = put_all(
        put(log, domain, p, frame_number, senior_record(out.prover@, plan.seniority)),
        domain,
        frame_number,
        out.allocations@,
    );
    let c = written(
        domain,
        p,
        Layer::HyperedgeAdds,
        frame_number,
        GlobalValueView::Links(links_of(domain, out.allocations@)),
    );
    law_read_after_write(vertices, c, place);
    lemma_marked_edge(vertices.push(c), domain, frame_number, p, op.merge_targets@, place);
    let w = joined(log, domain, frame_number, op, plan, out);
    law_read_after_write(
        w,
        written(
            domain,
            op.reward_address->Ok_0@,
            Layer::VertexAdds,
            frame_number,
            GlobalValueView::Fields(
                crate::global_join::reward_record(crate::global_join::delegate_of(op, p)),
            ),
        ),
        place,
    );
}

/// Writing records leaves every place that none of them goes to.
proof fn lemma_put_all_frame(log: GlobalLog, domain: Seq<u8>, frame_number: u64, ws: Seq<RecordWrite>, address: Seq<u8>)
    requires
        forall|i: int| 0 <= i < ws.len() ==> (#[trigger] ws[i]).address@ != address,
    ensures
        lookup(put_all(log, domain, frame_number, ws), vertex(domain, address)) == lookup(
            log,
            vertex(domain, address),
        ),
    decreases ws.len(),
{
    if ws.len() > 0 {
        assert(ws.last().address@ != address);
        assert forall|i: int| 0 <= i < ws.drop_last().len() implies (#[trigger] ws.drop_last()[i]).address@
            != address by {
            assert(ws.drop_last()[i] == ws[i]);
        }
        lemma_put_all_frame(log, domain, frame_number, ws.drop_last(), address);
        law_read_after_write(
            put_all(log, domain, frame_number, ws.drop_last()),
            written(
                domain,
                ws.last().address@,
                Layer::VertexAdds,
                frame_number,
                GlobalValueView::Fields(ws.last().record@),
            ),
            vertex(domain, address),
        );
    }
}

/// Marking merge targets leaves every place that no marker stands at.
pub proof fn lemma_marked_frame(
    log: GlobalLog,
    domain: Seq<u8>,
    frame_number: u64,
    prover: Seq<u8>,
    ts: Seq<MergeTarget>,
    address: Seq<u8>,
)
    requires
        forall|i: int|
            0 <= i < ts.len() && (#[trigger] ts[i]).spent_address is Ok
                ==> ts[i].spent_address->Ok_0@ != address,
    ensures
        lookup(marked_all(log, domain, frame_number, prover, ts), vertex(domain, address))
            == lookup(log, vertex(domain, address)),
    decreases ts.len(),
{
    if ts.len() > 0 {
        assert(ts.last() == ts[ts.len() - 1]);
        assert forall|i: int|
            0 <= i < ts.drop_last().len() && (#[trigger] ts.drop_last()[i]).spent_address
                is Ok implies ts.drop_last()[i].spent_address->Ok_0@ != address by {
            assert(ts.drop_last()[i] == ts[i]);
        }
        lemma_marked_frame(log, domain, frame_number, prover, ts.drop_last(), address);
        if ts.last().spent_address is Ok {
            law_read_after_write(
                marked_all(log, domain, frame_number, prover, ts.drop_last()),
                written(
                    domain,
                    ts.last().spent_address->Ok_0@,
                    Layer::VertexAdds,
                    frame_number,
                    GlobalValueView::Fields(marker_record(prover)),
                ),
                vertex(domain, address),
            );
        }
    }
}

pub proof fn lemma_be_nat_bound(s: Seq<u8>)
    requires
        s.len() == 8,
    ensures
        be_nat(s) <= u64::MAX,
{
    reveal_with_fuel(be_nat, 9);
}

/// After a join that went through, the prover's record holds the seniority of the
/// join's plan: that of the merged peers, or what the prover had before, if that is
/// more. This is so where the prover's address is none of the other places that the
/// join writes to.
pub proof fn law_join_stores_its_seniority(domain: Seq<u8>, log: GlobalLog, frame_number: u64, op: JoinOp)
    requires
        join_effect(domain, log, frame_number, op).answer is Ok,
        forall|i: int|
            0 <= i < op.materialized->Ok_0.allocations@.len() ==> (
            #[trigger] op.materialized->Ok_0.allocations@[i]).address@ != op.prover_address->Ok_0@,
        forall|i: int|
            0 <= i < op.merge_targets@.len() && (#[trigger] op.merge_targets@[i]).spent_address
                is Ok ==> op.merge_targets@[i].spent_address->Ok_0@ != op.prover_address->Ok_0@,
        op.reward_address->Ok_0@ != op.prover_address->Ok_0@,
    ensures
        ({
            let after = join_effect(domain, log, frame_number, op).log;
            let plan = join_plan(domain, log, frame_number, op)->Ok_0;
            let found = lookup(after, vertex(domain, plan.prover_address));
            &&& found is Some
            &&& number_of(record_of(found->Some_0), Field::Seniority) == Some(plan.seniority)
        }),
{
    let out = op.materialized->Ok_0;
    let plan = join_plan(domain, log, frame_number, op)->Ok_0;
    let p = plan.prover_address;
    let place = vertex(domain, p);
    let r = senior_record(out.prover@, plan.seniority);
    let first = put(log, domain, p, frame_number, r);
    let vertices = put_all(first, domain, frame_number, out.allocations@);
    let c = written(
        domain,
        p,
        Layer::HyperedgeAdds,
        frame_number,
        GlobalValueView::Links(links_of(domain, out.allocations@)),
    );
    law_read_after_write(
        log,
        written(domain, p, Layer::VertexAdds, frame_number, GlobalValueView::Fields(r)),
        place,
    );
    lemma_put_all_frame(first, domain, frame_number, out.allocations@, p);
    law_read_after_write(vertices, c, place);
    lemma_marked_frame(vertices.push(c), domain, frame_number, p, op.merge_targets@, p);
    law_read_after_write(
        joined(log, domain, frame_number, op, plan, out),
        written(
            domain,
            op.reward_address->Ok_0@,
            Layer::VertexAdds,
            frame_number,
            GlobalValueView::Fields(
                crate::global_join::reward_record(crate::global_join::delegate_of(op, p)),
            ),
        ),
        place,
    );
    if let Some(e) = existing(domain, log, p) {
        if let Some(b) = value_of(e, Field::Seniority) {
            if b.len() == 8 {
                lemma_be_nat_bound(b);
            }
        }
    }
    lemma_be_seq(plan.seniority);
    lemma_with_value(
        out.prover@,
        Field::Seniority,
        be_seq(plan.seniority, 8),
        Field::Seniority,
    );
}

/// Neither a join nor a merge takes seniority away from a prover.
pub proof fn law_seniority_never_shrinks(
    domain: Seq<u8>,
    log: GlobalLog,
    prover: Seq<u8>,
    peers: Seq<Seq<char>>,
    ts: Seq<MergeTarget>,
    aggregated: u64,
    r: RecordView,
)
    requires
        number_or_zero(r, Field::Seniority) <= u64::MAX,
    ensures
        existing(domain, log, prover) == Some(r) ==> join_seniority(
            domain,
            log,
            prover,
            peers,
            aggregated,
        ) >= number_or_zero(r, Field::Seniority),
        merged_seniority(r, ts, aggregated) >= number_or_zero(r, Field::Seniority),
{
}

} // verus!
