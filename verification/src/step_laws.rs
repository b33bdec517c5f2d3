//! What the steps of the global intrinsic do, apart from joining: when each of them goes
//! through, and what can be read behind it.

use vstd::prelude::*;

use crate::assoc::{lemma_key_index_is, lemma_with_value, value_of, with_value};
use crate::bytes::{be_nat, be_seq};
use crate::checks::lemma_first_err_ok;
use crate::codec::base58_text;
use crate::error::{ErrorView, QuilError};
use crate::global_engine::{byte_places, BigSize, GlobalStep, HeaderCredit, ProverUpdateOp};
use crate::global_intrinsic::{GlobalIntrinsic, GlobalTypes};
use crate::global_join::{
    join_effect, marker_checks, merge_effect, merge_peers, merged_seniority, MergeOp, MergeTarget,
};
use crate::global_laws::{
    is_kicked, law_kick_marks_all_allocations, law_merge_claims_its_targets,
    lemma_be_seq,
};
use crate::global_steps::{
    filter_effect, filters_effect, kick_effect, kick_links, kicked, linked, with_status, FilterStep,
    GlobalLog,
};
use crate::join_laws::{
    at, field_at, is_known, law_written_records_are_read, lemma_marks_leave, number_at, owner,
};
use crate::peer_id::key_multihash;
use crate::records::{record_of, Field, GlobalValueView};
use crate::state::{law_read_after_write, lookup, written, Layer, Place};

verus! {

/// An operation on an allocation goes through exactly where the prover is known by a
/// public key, the allocation exists, the signature holds, and the operation makes
/// something of the allocation. One that is refused writes nothing.
pub proof fn law_filter_op_goes_through(
    domain: Seq<u8>,
    log: GlobalLog,
    frame_number: u64,
    address: Option<Vec<u8>>,
    s: FilterStep,
)
    ensures
        ({
            let e = filter_effect(domain, log, frame_number, address, s);
            &&& e.answer is Ok <==> {
                &&& address is Some
                &&& address->Some_0@.len() >= 32
                &&& field_at(domain, log, address->Some_0@, Field::PublicKey) matches Some(k)
                    && k.len() > 0
                &&& s.allocation_address is Ok
                &&& lookup(log, at(domain, s.allocation_address->Ok_0@)) is Some
                &&& s.verified matches Ok(true)
                &&& s.mutated is Ok
            }
            &&& e.answer is Err ==> e.log == log
        }),
{
}

/// After an operation on an allocation, the allocation's record is what the operation made
/// of it, and the prover's record is as before but for its standing, which is that of the
/// allocation. Where both stand at one address, the prover's record counts. Nothing else
/// is written.
pub proof fn law_filter_op_writes(
    domain: Seq<u8>,
    log: GlobalLog,
    frame_number: u64,
    address: Option<Vec<u8>>,
    s: FilterStep,
    f: Field,
    place: Place,
)
    requires
        filter_effect(domain, log, frame_number, address, s).answer is Ok,
    ensures
        ({
            let after = filter_effect(domain, log, frame_number, address, s).log;
            let p = address->Some_0@;
            let a = s.allocation_address->Ok_0@;
            let m = s.mutated->Ok_0@;
            &&& a != p ==> lookup(after, at(domain, a)) == Some(GlobalValueView::Fields(m))
            &&& field_at(domain, after, p, Field::Status) == Some(
                seq![
                    match value_of(m, Field::Status) {
                        Some(b) => if b.len() > 0 {
                            b[0]
                        } else {
                            0u8
                        },
                        None => 0u8,
                    },
                ],
            )
            &&& f != Field::Status ==> field_at(domain, after, p, f) == field_at(domain, log, p, f)
            &&& place != at(domain, p) && place != at(domain, a) ==> lookup(after, place) == lookup(
                log,
                place,
            )
        }),
{
    let p = address->Some_0@;
    let a = s.allocation_address->Ok_0@;
    let m = s.mutated->Ok_0@;
    let v = lookup(log, at(domain, p))->Some_0;
    let b: u8 = match crate::records::first_byte_of(m, Field::Status) {
        Some(b) => b,
        None => 0,
    };
    let c = written(domain, a, Layer::VertexAdds, frame_number, GlobalValueView::Fields(m));
    let d = written(
        domain,
        p,
        Layer::VertexAdds,
        frame_number,
        GlobalValueView::Fields(with_status(record_of(v), b)),
    );
    law_read_after_write(log, c, at(domain, a));
    law_read_after_write(log.push(c), d, at(domain, a));
    law_read_after_write(log.push(c), d, at(domain, p));
    law_read_after_write(log, c, place);
    law_read_after_write(log.push(c), d, place);
    lemma_with_value(record_of(v), Field::Status, seq![b], f);
    lemma_with_value(record_of(v), Field::Status, seq![b], Field::Status);
}

/// An operation on several allocations takes them one by one: what one more of them does
/// is what it does alone in the state behind those before it, if those went through, and
/// nothing otherwise.
pub proof fn law_filters_one_by_one(
    domain: Seq<u8>,
    log: GlobalLog,
    frame_number: u64,
    address: Option<Vec<u8>>,
    ss: Seq<FilterStep>,
    s: FilterStep,
)
    ensures
        ({
            let none = filters_effect(domain, log, frame_number, address, Seq::empty());
            let before = filters_effect(domain, log, frame_number, address, ss);
            let after = filters_effect(domain, log, frame_number, address, ss.push(s));
            &&& none.answer is Ok && none.log == log
            &&& before.answer is Err ==> after == before
            &&& before.answer is Ok ==> after == filter_effect(
                domain,
                before.log,
                frame_number,
                address,
                s,
            )
        }),
{
    assert(ss.push(s).drop_last() =~= ss);
}

/// The atoms that the hyperedge at the address links.
pub open spec fn links_at(domain: Seq<u8>, log: GlobalLog, address: Seq<u8>) -> Seq<Seq<u8>> {
    match lookup(log, Place { domain, address, layer: Layer::HyperedgeAdds }) {
        Some(GlobalValueView::Links(l)) => l,
        _ => Seq::empty(),
    }
}

proof fn lemma_kick_answer(domain: Seq<u8>, log: GlobalLog, frame_number: u64, links: Seq<Seq<u8>>)
    ensures
        kick_links(domain, log, frame_number, links).answer is Ok <==> (forall|i: int|
            0 <= i < links.len() && (#[trigger] links[i]).len() == 64 ==> links[i].take(32)
                == domain),
    decreases links.len(),
{
    if links.len() > 0 {
        let rest = links.drop_last();
        lemma_kick_answer(domain, log, frame_number, rest);
        let e = kick_links(domain, log, frame_number, links);
        assert(links.last() == links[links.len() - 1]);
        if e.answer is Ok {
            assert forall|i: int|
                0 <= i < links.len() && (#[trigger] links[i]).len() == 64 implies links[i].take(32)
                == domain by {
                if i < rest.len() {
                    assert(rest[i] == links[i]);
                }
            }
        }
        if forall|i: int|
            0 <= i < links.len() && (#[trigger] links[i]).len() == 64 ==> links[i].take(32)
                == domain {
            assert forall|i: int|
                0 <= i < rest.len() && (#[trigger] rest[i]).len() == 64 implies rest[i].take(32)
                == domain by {
                assert(rest[i] == links[i]);
            }
        }
    }
}

/// What kicking linked atoms leaves at an address: of a field that a kick does not set,
/// what was there; and everything, where no atom stands there.
proof fn lemma_kick_rest(
    domain: Seq<u8>,
    log: GlobalLog,
    frame_number: u64,
    links: Seq<Seq<u8>>,
    address: Seq<u8>,
    f: Field,
    place: Place,
)
    requires
        f != Field::Status,
        f != Field::KickFrameNumber,
    ensures
        field_at(domain, kick_links(domain, log, frame_number, links).log, address, f) == field_at(
            domain,
            log,
            address,
            f,
        ),
        (forall|i: int|
            0 <= i < links.len() && (#[trigger] links[i]).len() == 64 ==> place != at(
                domain,
                links[i].skip(32),
            )) ==> lookup(kick_links(domain, log, frame_number, links).log, place) == lookup(
            log,
            place,
        ),
    decreases links.len(),
{
    if links.len() > 0 {
        let rest = links.drop_last();
        lemma_kick_rest(domain, log, frame_number, rest, address, f, place);
        let before = kick_links(domain, log, frame_number, rest);
        let link = links[links.len() - 1];
        if before.answer is Ok && link.len() == 64 && link.take(32) == domain {
            if let Some(v) = lookup(before.log, at(domain, link.skip(32))) {
                let r = kicked(record_of(v), frame_number);
                let c = written(
                    domain,
                    link.skip(32),
                    Layer::VertexAdds,
                    frame_number,
                    GlobalValueView::Fields(r),
                );
                law_read_after_write(before.log, c, at(domain, address));
                law_read_after_write(before.log, c, place);
                lemma_with_value(record_of(v), Field::Status, seq![4u8], f);
                lemma_with_value(
                    with_status(record_of(v), 4),
                    Field::KickFrameNumber,
                    be_seq(frame_number as nat, 8),
                    f,
                );
            }
        }
        if forall|i: int|
            0 <= i < links.len() && (#[trigger] links[i]).len() == 64 ==> place != at(
                domain,
                links[i].skip(32),
            ) {
            assert forall|i: int|
                0 <= i < rest.len() && (#[trigger] rest[i]).len() == 64 implies place != at(
                domain,
                rest[i].skip(32),
            ) by {
                assert(rest[i] == links[i]);
            }
        }
    }
}

/// A kick goes through exactly where the prover is known and its hyperedge links no atom
/// of another domain. One that finds no prover writes nothing.
pub proof fn law_kick_goes_through(
    domain: Seq<u8>,
    log: GlobalLog,
    frame_number: u64,
    address: Result<Vec<u8>, QuilError>,
)
    ensures
        ({
            let e = kick_effect(domain, log, frame_number, address);
            &&& e.answer is Ok <==> {
                &&& address is Ok
                &&& is_known(domain, log, address->Ok_0@)
                &&& forall|i: int|
                    0 <= i < links_at(domain, log, address->Ok_0@).len() && (#[trigger] links_at(
                        domain,
                        log,
                        address->Ok_0@,
                    )[i]).len() == 64 ==> links_at(domain, log, address->Ok_0@)[i].take(32)
                        == domain
            }
            &&& address is Err || !is_known(domain, log, address->Ok_0@) ==> e.log == log
        }),
{
    if address is Ok {
        let a = address->Ok_0@;
        if is_known(domain, log, a) {
            let v = lookup(log, at(domain, a))->Some_0;
            let c = written(
                domain,
                a,
                Layer::VertexAdds,
                frame_number,
                GlobalValueView::Fields(kicked(record_of(v), frame_number)),
            );
            law_read_after_write(
                log,
                c,
                Place { domain, address: a, layer: Layer::HyperedgeAdds },
            );
            assert(linked(domain, log.push(c), a) == links_at(domain, log, a));
            lemma_kick_answer(domain, log.push(c), frame_number, links_at(domain, log, a));
        }
    }
}

/// Is the record at the address marked as kicked, with the status byte four and the number
/// of the frame?
pub open spec fn kicked_at(domain: Seq<u8>, log: GlobalLog, address: Seq<u8>, frame_number: u64) -> bool {
    &&& field_at(domain, log, address, Field::Status) matches Some(s) && s.len() > 0 && s[0] == 4
    &&& field_at(domain, log, address, Field::KickFrameNumber) matches Some(k) && k.len() == 8
        && be_nat(k) == frame_number
}

proof fn lemma_marked_as_kicked(domain: Seq<u8>, log: GlobalLog, address: Seq<u8>, frame_number: u64)
    ensures
        lookup(log, at(domain, address)) is Some && is_kicked(
            lookup(log, at(domain, address))->Some_0,
            frame_number,
        ) ==> kicked_at(domain, log, address, frame_number),
{
    lemma_key_index_is(Seq::<(Field, Seq<u8>)>::empty(), Field::Status, 0);
}

/// A kick that goes through marks the prover, and every allocation that its hyperedge links
/// and that exists, with the frame's number. It changes no other field of any record, and
/// nothing at any other place.
pub proof fn law_kick_marks(
    domain: Seq<u8>,
    log: GlobalLog,
    frame_number: u64,
    prover: Vec<u8>,
    link: int,
    address: Seq<u8>,
    f: Field,
    place: Place,
)
    requires
        kick_effect(domain, log, frame_number, Ok(prover)).answer is Ok,
    ensures
        ({
            let after = kick_effect(domain, log, frame_number, Ok(prover)).log;
            let links = links_at(domain, log, prover@);
            &&& kicked_at(domain, after, prover@, frame_number)
            &&& 0 <= link < links.len() && links[link].len() == 64 && is_known(
                domain,
                log,
                links[link].skip(32),
            ) ==> kicked_at(domain, after, links[link].skip(32), frame_number)
            &&& f != Field::Status && f != Field::KickFrameNumber ==> field_at(
                domain,
                after,
                address,
                f,
            ) == field_at(domain, log, address, f)
            &&& place != at(domain, prover@) && (forall|i: int|
                0 <= i < links.len() && (#[trigger] links[i]).len() == 64 ==> place != at(
                    domain,
                    links[i].skip(32),
                )) ==> lookup(after, place) == lookup(log, place)
        }),
{
    law_kick_marks_all_allocations(domain, log, frame_number, prover, link);
    let after = kick_effect(domain, log, frame_number, Ok(prover)).log;
    lemma_marked_as_kicked(domain, after, prover@, frame_number);
    let v = lookup(log, at(domain, prover@))->Some_0;
    let r = kicked(record_of(v), frame_number);
    let c = written(
        domain,
        prover@,
        Layer::VertexAdds,
        frame_number,
        GlobalValueView::Fields(r),
    );
    law_read_after_write(
        log,
        c,
        Place { domain, address: prover@, layer: Layer::HyperedgeAdds },
    );
    let links = links_at(domain, log, prover@);
    assert(linked(domain, log.push(c), prover@) == links);
    assert(linked(domain, log, prover@) == links);
    if 0 <= link < links.len() && links[link].len() == 64 {
        lemma_marked_as_kicked(domain, after, links[link].skip(32), frame_number);
    }
    law_read_after_write(log, c, at(domain, address));
    law_read_after_write(log, c, place);
    let g = if f == Field::Status || f == Field::KickFrameNumber {
        Field::PublicKey
    } else {
        f
    };
    lemma_with_value(record_of(v), Field::Status, seq![4u8], g);
    lemma_with_value(
        with_status(record_of(v), 4),
        Field::KickFrameNumber,
        be_seq(frame_number as nat, 8),
        g,
    );
    lemma_kick_rest(domain, log.push(c), frame_number, links, address, g, place);
}

/// A merge goes through exactly where there are targets, each with a place for its marker,
/// and the prover is known by an address of at least 32 bytes. One that is refused writes
/// nothing.
pub proof fn law_merge_goes_through(domain: Seq<u8>, log: GlobalLog, frame_number: u64, op: MergeOp)
    ensures
        ({
            let e = merge_effect(domain, log, frame_number, op);
            &&& e.answer is Ok <==> {
                &&& op.merge_targets@.len() > 0
                &&& op.address is Some
                &&& op.address->Some_0@.len() >= 32
                &&& is_known(domain, log, op.address->Some_0@)
                &&& forall|i: int|
                    0 <= i < op.merge_targets@.len() ==> (
                    #[trigger] op.merge_targets@[i]).spent_address is Ok
            }
            &&& e.answer is Err ==> e.log == log
        }),
{
    let cs = marker_checks(op.merge_targets@);
    lemma_first_err_ok(cs);
    if forall|i: int| 0 <= i < cs.len() ==> (#[trigger] cs[i]) is Ok {
        assert forall|i: int| 0 <= i < op.merge_targets@.len() implies (
        #[trigger] op.merge_targets@[i]).spent_address is Ok by {
            assert(cs[i] is Ok);
        }
    }
    if forall|i: int|
        0 <= i < op.merge_targets@.len() ==> (#[trigger] op.merge_targets@[i]).spent_address is Ok {
        assert forall|i: int| 0 <= i < cs.len() implies (#[trigger] cs[i]) is Ok by {
            assert(op.merge_targets@[i].spent_address is Ok);
        }
    }
}

/// Does the merge target name a peer?
pub open spec fn names_ed448_peer(t: MergeTarget) -> bool {
    t.key_type == 0 && t.public_key@.len() == 57
}

/// The peers of merge targets are named target by target.
pub proof fn law_merge_peers_by_target(ts: Seq<MergeTarget>, t: MergeTarget)
    ensures
        merge_peers(Seq::empty()) == Seq::<Seq<char>>::empty(),
        merge_peers(ts.push(t)) == if names_ed448_peer(t) {
            merge_peers(ts).push(base58_text(key_multihash(t.public_key@)))
        } else {
            merge_peers(ts)
        },
{
    assert(ts.push(t).drop_last() =~= ts);
}

proof fn lemma_merge_peers(ts: Seq<MergeTarget>)
    ensures
        merge_peers(ts).len() > 0 <==> exists|i: int|
            0 <= i < ts.len() && names_ed448_peer(#[trigger] ts[i]),
    decreases ts.len(),
{
    if ts.len() > 0 {
        let rest = ts.drop_last();
        lemma_merge_peers(rest);
        assert(ts.last() == ts[ts.len() - 1]);
        if exists|i: int| 0 <= i < rest.len() && names_ed448_peer(#[trigger] rest[i]) {
            let i = choose|i: int| 0 <= i < rest.len() && names_ed448_peer(#[trigger] rest[i]);
            assert(names_ed448_peer(ts[i]));
        }
        if exists|i: int| 0 <= i < ts.len() && names_ed448_peer(#[trigger] ts[i]) {
            let i = choose|i: int| 0 <= i < ts.len() && names_ed448_peer(#[trigger] ts[i]);
            if i < rest.len() {
                assert(names_ed448_peer(rest[i]));
            }
        }
    }
}

/// A merge that goes through adds the seniority of the peers that its targets name to that
/// of the prover, as far as 64 bits hold it, and changes no other field of the prover's
/// record. It claims for the prover each target that nobody has claimed. Nothing changes
/// at any other place. The first part holds where the prover's own record is no marker.
pub proof fn law_merge_writes(
    domain: Seq<u8>,
    log: GlobalLog,
    frame_number: u64,
    op: MergeOp,
    f: Field,
    i: int,
    place: Place,
)
    requires
        merge_effect(domain, log, frame_number, op).answer is Ok,
    ensures
        ({
            let after = merge_effect(domain, log, frame_number, op).log;
            let p = op.address->Some_0@;
            let ts = op.merge_targets@;
            let sum = number_at(domain, log, p, Field::Seniority) + if exists|k: int|
                0 <= k < ts.len() && names_ed448_peer(#[trigger] ts[k]) {
                op.aggregated_seniority as nat
            } else {
                0
            };
            &&& (forall|k: int| 0 <= k < ts.len() ==> (#[trigger] ts[k]).spent_address->Ok_0@ != p)
                ==> {
                &&& field_at(domain, after, p, Field::Seniority) matches Some(b) && b.len() == 8
                    && be_nat(b) == if sum > u64::MAX {
                    u64::MAX as nat
                } else {
                    sum
                }
                &&& f != Field::Seniority ==> field_at(domain, after, p, f) == field_at(
                    domain,
                    log,
                    p,
                    f,
                )
            }
            &&& 0 <= i < ts.len() && owner(domain, log, ts[i].spent_address->Ok_0@) is None
                ==> field_at(domain, after, ts[i].spent_address->Ok_0@, Field::ProverAddress)
                == Some(p)
            &&& 0 <= i < ts.len() && owner(domain, log, ts[i].spent_address->Ok_0@) is Some
                ==> owner(domain, after, ts[i].spent_address->Ok_0@) == owner(
                domain,
                log,
                ts[i].spent_address->Ok_0@,
            )
            &&& place != at(domain, p) && (forall|k: int|
                0 <= k < ts.len() ==> place != at(domain, (#[trigger] ts[k]).spent_address->Ok_0@))
                ==> lookup(after, place) == lookup(log, place)
        }),
{
    law_merge_goes_through(domain, log, frame_number, op);
    let p = op.address->Some_0@;
    let ts = op.merge_targets@;
    let v = lookup(log, at(domain, p))->Some_0;
    let n = merged_seniority(record_of(v), ts, op.aggregated_seniority);
    let r = with_value(record_of(v), Field::Seniority, be_seq(n, 8));
    let c = written(domain, p, Layer::VertexAdds, frame_number, GlobalValueView::Fields(r));
    lemma_be_seq(n);
    lemma_merge_peers(ts);
    lemma_with_value(record_of(v), Field::Seniority, be_seq(n, 8), f);
    lemma_with_value(record_of(v), Field::Seniority, be_seq(n, 8), Field::Seniority);
    law_read_after_write(log, c, at(domain, p));
    law_read_after_write(log, c, place);
    if forall|k: int| 0 <= k < ts.len() ==> (#[trigger] ts[k]).spent_address->Ok_0@ != p {
        lemma_marks_leave(log.push(c), domain, frame_number, p, ts, at(domain, p));
    }
    if forall|k: int|
        0 <= k < ts.len() ==> place != at(domain, (#[trigger] ts[k]).spent_address->Ok_0@) {
        lemma_marks_leave(log.push(c), domain, frame_number, p, ts, place);
    }
    if 0 <= i < ts.len() {
        law_merge_claims_its_targets(domain, log, frame_number, op, i);
    }
}

/// An update of a prover goes through exactly where it names a known prover by 32 bytes, its
/// signature holds, and it makes something of the records. What it makes is written, each
/// record at its address, and nothing else. One that is refused writes nothing.
pub proof fn law_update_writes(
    g: &GlobalIntrinsic,
    log: GlobalLog,
    frame_number: u64,
    u: ProverUpdateOp,
    i: int,
    place: Place,
)
    ensures
        ({
            let e = g.update_effect(log, frame_number, u);
            let ws = u.writes->Ok_0@;
            &&& e.answer is Ok <==> {
                &&& u.address is Some
                &&& u.address->Some_0@.len() == 32
                &&& is_known(g.domain@, log, u.address->Some_0@)
                &&& u.verified matches Ok(true)
                &&& u.writes is Ok
            }
            &&& e.answer is Err ==> e.log == log
            &&& e.answer is Ok && 0 <= i < ws.len() && (forall|j: int|
                i < j < ws.len() ==> (#[trigger] ws[j]).address@ != ws[i].address@) ==> lookup(
                e.log,
                at(g.domain@, ws[i].address@),
            ) == Some(GlobalValueView::Fields(ws[i].record@))
            &&& e.answer is Ok && (forall|j: int|
                0 <= j < ws.len() ==> place != at(g.domain@, (#[trigger] ws[j]).address@))
                ==> lookup(e.log, place) == lookup(log, place)
        }),
{
    if u.writes is Ok {
        law_written_records_are_read(log, g.domain@, frame_number, u.writes->Ok_0@, i, place);
    }
}

/// A frame header that everything needed to credit it is installed for goes through exactly
/// where its provers are known, its attestation holds and the credit can be made. The
/// records of the credit are then written, each at its address, and nothing else. Where
/// something but the check of signatures is missing, it is acknowledged. A header that is
/// acknowledged or refused writes nothing.
pub proof fn law_header_credit_writes(
    g: &GlobalIntrinsic,
    log: GlobalLog,
    frame_number: u64,
    h: HeaderCredit,
    i: int,
    place: Place,
)
    ensures
        ({
            let e = g.credit_effect(log, frame_number, h);
            let complete = g.prover_registry && g.frame_prover && g.reward_issuance && g.hypergraph;
            let ws = h.credited->Ok_0@;
            &&& !complete ==> e.answer is Ok && e.log == log
            &&& complete ==> (e.answer is Ok <==> g.bls_constructor && h.active_provers is Ok
                && h.attestation is Ok && h.credited is Ok)
            &&& e.answer is Err ==> e.log == log
            &&& complete && e.answer is Ok && 0 <= i < ws.len() && (forall|j: int|
                i < j < ws.len() ==> (#[trigger] ws[j]).address@ != ws[i].address@) ==> lookup(
                e.log,
                at(g.domain@, ws[i].address@),
            ) == Some(GlobalValueView::Fields(ws[i].record@))
            &&& e.answer is Ok && (forall|j: int|
                0 <= j < ws.len() ==> place != at(g.domain@, (#[trigger] ws[j]).address@))
                ==> lookup(e.log, place) == lookup(log, place)
        }),
{
    if h.credited is Ok {
        law_written_records_are_read(log, g.domain@, frame_number, h.credited->Ok_0@, i, place);
    }
}

/// What a credit goes by: the sizes of the shard, zero where the shard is not known or a
/// size does not fit into 64 bits, and the places of the participants.
pub proof fn law_credit_goes_by_the_header(g: &GlobalIntrinsic, h: HeaderCredit)
    requires
        g.credit_plan(h) matches Ok(Some(_)),
    ensures
        ({
            let c = g.credit_plan(h)->Ok_0->Some_0;
            let fits = |s: BigSize| !s.negative && be_nat(s.magnitude@) <= u64::MAX;
            &&& h.attestation is Ok
            &&& c.participants == byte_places(h.attestation->Ok_0@)
            &&& h.shard is None ==> c.state_size == 0 && c.shard_count == 0
            &&& h.shard matches Some(s) ==> c.shard_count == s.leaf_count && c.state_size == (if fits(
                s.size,
            ) {
                be_nat(s.size.magnitude@)
            } else {
                0
            })
            &&& c.world_size == (if fits(h.world_size) {
                be_nat(h.world_size.magnitude@)
            } else {
                0
            })
        }),
{
}

/// The participants' places keep their order, and only those above 255 are left out.
pub proof fn law_byte_places(v: Seq<usize>, p: usize)
    ensures
        byte_places(Seq::empty()) == Seq::<u8>::empty(),
        p <= 255 ==> byte_places(v.push(p)) == byte_places(v).push(p as u8),
        p > 255 ==> byte_places(v.push(p)) == byte_places(v),
{
    assert(v.push(p).drop_last() =~= v);
}

/// The number that an operation's first four bytes spell.
pub open spec fn tag_number(input: Seq<u8>) -> int {
    input[0] * 0x1000000 + input[1] * 0x10000 + input[2] * 0x100 + input[3]
}

pub proof fn lemma_tag(input: Seq<u8>)
    requires
        input.len() >= 4,
    ensures
        be_nat(input.subrange(0, 4)) == tag_number(input),
        be_nat(input.subrange(0, 4)) <= u32::MAX,
{
    let s = input.subrange(0, 4);
    reveal_with_fuel(be_nat, 5);
    assert(s.drop_last() =~= input.subrange(0, 3));
    assert(input.subrange(0, 3).drop_last() =~= input.subrange(0, 2));
    assert(input.subrange(0, 2).drop_last() =~= input.subrange(0, 1));
    assert(input.subrange(0, 1).drop_last() =~= Seq::<u8>::empty());
}

/// No two operations share a type tag.
pub open spec fn distinct_tags(t: &GlobalTypes) -> bool {
    let all = seq![
        t.prover_pause,
        t.prover_resume,
        t.prover_leave,
        t.prover_confirm,
        t.prover_reject,
        t.prover_join,
        t.prover_update,
        t.alt_shard_update,
        t.shard_split,
        t.shard_merge,
        t.seniority_merge,
        t.prover_kick,
        t.frame_header,
    ];
    forall|i: int, j: int| 0 <= i < j < 13 ==> #[trigger] all[i] != #[trigger] all[j]
}

/// A step does what the operation that its type tag names does: pausing, resuming and
/// rejecting are operations on one allocation, leaving and confirming on several. A step
/// that cannot be read as its operation, has no type tag, or has one that is not known is
/// refused and writes nothing.
pub proof fn law_step_does_its_operation(
    g: &GlobalIntrinsic,
    log: GlobalLog,
    frame_number: u64,
    input: Seq<u8>,
    s: GlobalStep,
)
    requires
        distinct_tags(&g.types),
    ensures
        ({
            let e = g.step_effect(log, frame_number, input, s);
            let tag = tag_number(input);
            let t = g.types;
            &&& input.len() < 4 ==> e.answer is Err && e.log == log
            &&& input.len() >= 4 ==> {
                &&& tag == t.prover_pause || tag == t.prover_resume || tag == t.prover_reject ==> (
                match s.one_filter {
                    Ok(op) => e == filter_effect(g.domain@, log, frame_number, op.address, op.step),
                    Err(x) => e.answer == Err::<(), ErrorView>(x@) && e.log == log,
                })
                &&& tag == t.prover_leave || tag == t.prover_confirm ==> (match s.many_filters {
                    Ok(op) => e == filters_effect(
                        g.domain@,
                        log,
                        frame_number,
                        op.address,
                        op.steps@,
                    ),
                    Err(x) => e.answer == Err::<(), ErrorView>(x@) && e.log == log,
                })
                &&& tag == t.prover_join ==> (match s.join {
                    Ok(op) => e == join_effect(g.domain@, log, frame_number, op),
                    Err(x) => e.answer == Err::<(), ErrorView>(x@) && e.log == log,
                })
                &&& tag == t.prover_kick ==> (match s.kick {
                    Ok(a) => e == kick_effect(g.domain@, log, frame_number, a),
                    Err(x) => e.answer == Err::<(), ErrorView>(x@) && e.log == log,
                })
                &&& tag == t.prover_update ==> (match s.update {
                    Ok(u) => e == g.update_effect(log, frame_number, u),
                    Err(x) => e.answer == Err::<(), ErrorView>(x@) && e.log == log,
                })
                &&& tag == t.seniority_merge ==> (match s.merge {
                    Ok(op) => e == merge_effect(g.domain@, log, frame_number, op),
                    Err(x) => e.answer == Err::<(), ErrorView>(x@) && e.log == log,
                })
                &&& tag == t.frame_header ==> (match s.header {
                    Ok(h) => e == g.credit_effect(log, frame_number, h),
                    Err(x) => e.answer == Err::<(), ErrorView>(x@) && e.log == log,
                })
                &&& tag == t.shard_split ==> e.log == log && (e.answer is Ok <==> s.split matches Ok(
                    Ok(_),
                ))
                &&& tag == t.shard_merge ==> e.log == log && (e.answer is Ok
                    <==> s.shard_merge matches Ok(Ok(_)))
                &&& tag == t.alt_shard_update ==> e.log == log && (e.answer is Ok
                    <==> s.alt_shard matches Ok(Ok(_)))
                &&& ![
                    t.prover_pause,
                    t.prover_resume,
                    t.prover_leave,
                    t.prover_confirm,
                    t.prover_reject,
                    t.prover_join,
                    t.prover_update,
                    t.alt_shard_update,
                    t.shard_split,
                    t.shard_merge,
                    t.seniority_merge,
                    t.prover_kick,
                    t.frame_header,
                ]@.contains(tag as u32) ==> e.answer is Err && e.log == log
            }
        }),
{
    if input.len() >= 4 {
        lemma_tag(input);
        lemma_all_distinct(&g.types);
        let t = g.types;
        let all = [
            t.prover_pause,
            t.prover_resume,
            t.prover_leave,
            t.prover_confirm,
            t.prover_reject,
            t.prover_join,
            t.prover_update,
            t.alt_shard_update,
            t.shard_split,
            t.shard_merge,
            t.seniority_merge,
            t.prover_kick,
            t.frame_header,
        ]@;
        assert(forall|i: int| 0 <= i < 13 ==> all.contains(#[trigger] all[i]));
    }
}

proof fn lemma_all_distinct(t: &GlobalTypes)
    requires
        distinct_tags(t),
    ensures
        ({
            let all = seq![
                t.prover_pause,
                t.prover_resume,
                t.prover_leave,
                t.prover_confirm,
                t.prover_reject,
                t.prover_join,
                t.prover_update,
                t.alt_shard_update,
                t.shard_split,
                t.shard_merge,
                t.seniority_merge,
                t.prover_kick,
                t.frame_header,
            ];
            forall|i: int, j: int| 0 <= i < 13 && 0 <= j < 13 && i != j ==> #[trigger] all[i]
                != #[trigger] all[j]
        }),
{
}

} // verus!
