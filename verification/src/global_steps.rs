//! What global operations do to the state: pausing and confirming allocations,
//! joining, kicking, merging seniority.

use vstd::prelude::*;

use crate::assoc::with_value;
use crate::bytes::{be_bytes_u64, be_seq, bytes_eq, copy_bytes, sub_bytes, views};
use crate::checks::{answer, Answer};
use crate::error::{invalid_argument, ErrorView, QuilError};
use crate::records::{
    bytes_or_none, first_byte_of, record_of, Field, GlobalValue, GlobalValueView, Record,
    RecordView,
};
use crate::state::{lookup, written, ChangeView, HypergraphState, Layer, Place};

verus! {

/// The log of the global state.
pub type GlobalLog = Seq<ChangeView<GlobalValueView>>;

/// The status byte of what was kicked or has left.
pub const STATUS_KICKED: u8 = 4;

/// The status byte of an active allocation.
pub const STATUS_ACTIVE: u8 = 1;

/// After how many frames a join that came to nothing is forgotten.
pub const JOIN_EXPIRY_FRAMES: u64 = 720;

/// What a step comes to: its answer, and the log behind it. What was written
/// before a failure stays written.
pub struct StepEffect {
    pub answer: Result<(), ErrorView>,
    pub log: GlobalLog,
}

/// A step that fails and writes nothing.
pub open spec fn fails(log: GlobalLog, e: ErrorView) -> StepEffect {
    StepEffect { answer: Err(e), log }
}

/// An argument error.
pub open spec fn bad(m: Seq<char>) -> ErrorView {
    ErrorView::InvalidArgument(m)
}

/// A vertex of the global domain.
pub open spec fn vertex(domain: Seq<u8>, address: Seq<u8>) -> Place {
    Place { domain, address, layer: Layer::VertexAdds }
}

/// The log with a record written.
pub open spec fn put(log: GlobalLog, domain: Seq<u8>, address: Seq<u8>, frame_number: u64, r: RecordView) -> GlobalLog {
    log.push(
        written(domain, address, Layer::VertexAdds, frame_number, GlobalValueView::Fields(r)),
    )
}

/// Writes a record.
pub(crate) fn put_record(
    state: &mut HypergraphState<GlobalValue>,
    domain: &Vec<u8>,
    address: &Vec<u8>,
    frame_number: u64,
    r: Record,
)
    ensures
        final(state).committed == old(state).committed,
        final(state)@ == put(old(state)@, domain@, address@, frame_number, r@),
{
    state.set(
        domain.as_slice(),
        address.as_slice(),
        Layer::VertexAdds,
        frame_number,
        GlobalValue::Fields(r),
    );
}

/// What is known of an operation on one allocation: where the allocation is, what
/// checking the signature gives, and what the operation makes of the allocation's record.
/// The last two are found out from the records that [`plan_filter_op`] gives, for the
/// frame that the operation is applied in. In a list of operations, each one's are found
/// out from the records that those before it leave.
pub struct FilterStep {
    pub allocation_address: Result<Vec<u8>, QuilError>,
    pub verified: Result<bool, QuilError>,
    pub mutated: Result<Record, QuilError>,
}

/// The mathematical value of a [`FilterPlan`].
pub struct FilterPlanView {
    pub prover_address: Seq<u8>,
    pub allocation_address: Seq<u8>,
    pub prover: RecordView,
    pub allocation: RecordView,
}

/// What an operation on one allocation works on.
pub struct FilterPlan {
    pub prover_address: Vec<u8>,
    pub allocation_address: Vec<u8>,
    pub prover: Record,
    pub allocation: Record,
}

impl View for FilterPlan {
    type V = FilterPlanView;

    open spec fn view(&self) -> FilterPlanView {
        FilterPlanView {
            prover_address: self.prover_address@,
            allocation_address: self.allocation_address@,
            prover: self.prover@,
            allocation: self.allocation@,
        }
    }
}

/// What an operation on one allocation works on: the prover's record, in which there
/// must be a public key, and the allocation's record, which must exist.
pub open spec fn filter_plan(
    domain: Seq<u8>,
    log: GlobalLog,
    address: Option<Vec<u8>>,
    allocation: Result<Vec<u8>, QuilError>,
) -> Result<FilterPlanView, ErrorView> {
    let prover = match address {
        Some(a) => a@,
        None => Seq::empty(),
    };
    if prover.len() < 32 {
        Err(bad("invoke_step: prover address too short"@))
    } else {
        match lookup(log, vertex(domain, prover)) {
            None => Err(bad("invoke_step: prover not found"@)),
            Some(v) => if bytes_or_none(record_of(v), Field::PublicKey).len() == 0 {
                Err(bad("invoke_step: prover has no PublicKey"@))
            } else {
                match allocation {
                    Err(e) => Err(e@),
                    Ok(a) => match lookup(log, vertex(domain, a@)) {
                        None => Err(bad("invoke_step: allocation not found"@)),
                        Some(w) => Ok(
                            FilterPlanView {
                                prover_address: prover,
                                allocation_address: a@,
                                prover: record_of(v),
                                allocation: record_of(w),
                            },
                        ),
                    },
                }
            },
        }
    }
}

/// Finds what an operation on one allocation works on.
pub fn plan_filter_op(
    domain: &Vec<u8>,
    state: &HypergraphState<GlobalValue>,
    address: &Option<Vec<u8>>,
    allocation: &Result<Vec<u8>, QuilError>,
) -> (r: Result<FilterPlan, QuilError>)
    ensures
        match r {
            Ok(p) => filter_plan(domain@, state@, *address, *allocation) == Ok::<
                FilterPlanView,
                ErrorView,
            >(p@),
            Err(e) => filter_plan(domain@, state@, *address, *allocation) == Err::<
                FilterPlanView,
                ErrorView,
            >(e@),
        },
{
    let prover_address = match address {
        Some(a) => copy_bytes(a.as_slice()),
        None => Vec::new(),
    };
    assert(prover_address@ =~= match *address {
        Some(a) => a@,
        None => Seq::<u8>::empty(),
    });
    if prover_address.len() < 32 {
        return Err(invalid_argument("invoke_step: prover address too short"));
    }
    let prover = match state.get(
        domain.as_slice(),
        prover_address.as_slice(),
        Layer::VertexAdds,
    ) {
        None => {
            return Err(invalid_argument("invoke_step: prover not found"));
        },
        Some(v) => v.record(),
    };
    if prover.bytes_or_none(Field::PublicKey).len() == 0 {
        return Err(invalid_argument("invoke_step: prover has no PublicKey"));
    }
    let a = match allocation {
        Err(e) => {
            return Err(e.duplicate());
        },
        Ok(a) => a,
    };
    match state.get(domain.as_slice(), a.as_slice(), Layer::VertexAdds) {
        None => Err(invalid_argument("invoke_step: allocation not found")),
        Some(w) => Ok(
            FilterPlan {
                prover_address,
                allocation_address: copy_bytes(a.as_slice()),
                prover,
                allocation: w.record(),
            },
        ),
    }
}

/// A record after its prover's standing was set.
pub open spec fn with_status(r: RecordView, status: u8) -> RecordView {
    with_value(r, Field::Status, seq![status])
}

/// The effect of an operation on one allocation. The prover must be known by its
/// public key, the allocation must exist, and the signature must hold; then the
/// allocation is written, and the prover takes on the allocation's standing.
pub open spec fn filter_effect(
    domain: Seq<u8>,
    log: GlobalLog,
    frame_number: u64,
    address: Option<Vec<u8>>,
    s: FilterStep,
) -> StepEffect {
    match filter_plan(domain, log, address, s.allocation_address) {
        Err(e) => fails(log, e),
        Ok(p) => match s.verified {
            Err(e) => fails(log, e@),
            Ok(false) => fails(
                log,
                bad("invoke_step: signature verification failed at materialize"@),
            ),
            Ok(true) => match s.mutated {
                Err(e) => fails(log, e@),
                Ok(m) => StepEffect {
                    answer: Ok(()),
                    log: put(
                        put(log, domain, p.allocation_address, frame_number, m@),
                        domain,
                        p.prover_address,
                        frame_number,
                        with_status(
                            p.prover,
                            match first_byte_of(m@, Field::Status) {
                                Some(b) => b,
                                None => 0,
                            },
                        ),
                    ),
                },
            },
        },
    }
}

/// The effects of an operation on several allocations, in order, up to the first
/// failure.
pub open spec fn filters_effect(
    domain: Seq<u8>,
    log: GlobalLog,
    frame_number: u64,
    address: Option<Vec<u8>>,
    ss: Seq<FilterStep>,
) -> StepEffect
    decreases ss.len(),
{
    if ss.len() == 0 {
        StepEffect { answer: Ok(()), log }
    } else {
        let before = filters_effect(domain, log, frame_number, address, ss.drop_last());
        if before.answer is Err {
            before
        } else {
            filter_effect(domain, before.log, frame_number, address, ss.last())
        }
    }
}

/// Sets the standing.
pub(crate) fn set_status(r: &mut Record, status: u8)
    ensures
        final(r)@ == with_status(old(r)@, status),
{
    let mut b: Vec<u8> = Vec::new();
    b.push(status);
    assert(b@ =~= seq![status]);
    r.set(Field::Status, b);
}

/// Applies an operation to one allocation.
pub fn invoke_filter_op(
    domain: &Vec<u8>,
    state: &mut HypergraphState<GlobalValue>,
    frame_number: u64,
    address: &Option<Vec<u8>>,
    s: &FilterStep,
) -> (a: Answer)
    ensures
        final(state).committed == old(state).committed,
        ({
            let eff = filter_effect(domain@, old(state)@, frame_number, *address, *s);
            answer(a) == eff.answer && final(state)@ == eff.log
        }),
{
    let plan = match plan_filter_op(domain, state, address, &s.allocation_address) {
        Err(e) => {
            return Err(e);
        },
        Ok(p) => p,
    };
    match &s.verified {
        Err(e) => {
            return Err(e.duplicate());
        },
        Ok(v) => if !*v {
            return Err(
                invalid_argument("invoke_step: signature verification failed at materialize"),
            );
        },
    }
    match &s.mutated {
        Err(e) => Err(e.duplicate()),
        Ok(m) => {
            let status: u8 = match m.first_byte(Field::Status) {
                Some(b) => b,
                None => 0,
            };
            put_record(state, domain, &plan.allocation_address, frame_number, m.dup());
            let mut record = plan.prover;
            set_status(&mut record, status);
            put_record(state, domain, &plan.prover_address, frame_number, record);
            Ok(())
        },
    }
}

/// Applies an operation to several allocations.
pub fn invoke_filter_ops(
    domain: &Vec<u8>,
    state: &mut HypergraphState<GlobalValue>,
    frame_number: u64,
    address: &Option<Vec<u8>>,
    ss: &Vec<FilterStep>,
) -> (a: Answer)
    ensures
        final(state).committed == old(state).committed,
        ({
            let eff = filters_effect(domain@, old(state)@, frame_number, *address, ss@);
            answer(a) == eff.answer && final(state)@ == eff.log
        }),
{
    let ghost log = state@;
    let mut i: usize = 0;
    assert(ss@.take(0) =~= Seq::<FilterStep>::empty());
    while i < ss.len()
        invariant
            state.committed == old(state).committed,
            i <= ss@.len(),
            log == old(state)@,
            ({
                let eff = filters_effect(domain@, log, frame_number, *address, ss@.take(i as int));
                eff.answer == Ok::<(), ErrorView>(()) && state@ == eff.log
            }),
        decreases ss@.len() - i,
    {
        proof {
            assert(ss@.take(i + 1).drop_last() =~= ss@.take(i as int));
            assert(ss@.take(i + 1).last() == ss@[i as int]);
        }
        let a = invoke_filter_op(domain, state, frame_number, address, &ss[i]);
        if a.is_err() {
            proof {
                lemma_filters_prefix(domain@, log, frame_number, *address, ss@, i + 1);
            }
            return a;
        }
        i += 1;
    }
    assert(ss@.take(i as int) =~= ss@);
    Ok(())
}

proof fn lemma_filters_prefix(
    domain: Seq<u8>,
    log: GlobalLog,
    frame_number: u64,
    address: Option<Vec<u8>>,
    ss: Seq<FilterStep>,
    n: int,
)
    requires
        0 <= n <= ss.len(),
        filters_effect(domain, log, frame_number, address, ss.take(n)).answer is Err,
    ensures
        filters_effect(domain, log, frame_number, address, ss) == filters_effect(
            domain,
            log,
            frame_number,
            address,
            ss.take(n),
        ),
    decreases ss.len(),
{
    if n == ss.len() {
        assert(ss.take(n) =~= ss);
    } else {
        assert(ss.drop_last().take(n) =~= ss.take(n));
        lemma_filters_prefix(domain, log, frame_number, address, ss.drop_last(), n);
    }
}

/// A record with a kick at the given frame.
pub open spec fn kicked(r: RecordView, frame_number: u64) -> RecordView {
    with_value(
        with_status(r, STATUS_KICKED),
        Field::KickFrameNumber,
        be_seq(frame_number as nat, 8),
    )
}

fn kick_record(r: &mut Record, frame_number: u64)
    ensures
        final(r)@ == kicked(old(r)@, frame_number),
{
    set_status(r, STATUS_KICKED);
    r.set(Field::KickFrameNumber, be_bytes_u64(frame_number));
}

/// The kick of one linked atom. Only identifiers of 64 bytes count; they must be
/// of the global domain; an allocation that does not exist is passed over.
pub open spec fn kick_link(domain: Seq<u8>, before: StepEffect, frame_number: u64, link: Seq<u8>) -> StepEffect {
    if before.answer is Err || link.len() != 64 {
        before
    } else if link.take(32) != domain {
        fails(before.log, bad("invoke_step kick: hyperedge has non-global allocation atom"@))
    } else {
        match lookup(before.log, vertex(domain, link.skip(32))) {
            Some(v) => if v is Empty {
                before
            } else {
                StepEffect {
                    answer: Ok(()),
                    log: put(
                        before.log,
                        domain,
                        link.skip(32),
                        frame_number,
                        kicked(record_of(v), frame_number),
                    ),
                }
            },
            None => before,
        }
    }
}

/// The kicks of all linked atoms, in order, up to the first failure.
pub open spec fn kick_links(domain: Seq<u8>, log: GlobalLog, frame_number: u64, links: Seq<Seq<u8>>) -> StepEffect
    decreases links.len(),
{
    if links.len() == 0 {
        StepEffect { answer: Ok(()), log }
    } else {
        kick_link(
            domain,
            kick_links(domain, log, frame_number, links.drop_last()),
            frame_number,
            links.last(),
        )
    }
}

/// The atoms that a prover's hyperedge links.
pub open spec fn linked(domain: Seq<u8>, log: GlobalLog, prover: Seq<u8>) -> Seq<Seq<u8>> {
    match lookup(log, Place { domain, address: prover, layer: Layer::HyperedgeAdds }) {
        Some(GlobalValueView::Links(l)) => l,
        _ => Seq::empty(),
    }
}

/// The effect of kicking a prover: it is marked, and so is every allocation that
/// its hyperedge links.
pub open spec fn kick_effect(
    domain: Seq<u8>,
    log: GlobalLog,
    frame_number: u64,
    address: Result<Vec<u8>, QuilError>,
) -> StepEffect {
    match address {
        Err(e) => fails(log, e@),
        Ok(a) => match lookup(log, vertex(domain, a@)) {
            None => fails(log, bad("invoke_step kick: prover not found"@)),
            Some(v) => if v is Empty {
                fails(log, bad("invoke_step kick: prover has no data"@))
            } else {
                let marked = put(log, domain, a@, frame_number, kicked(record_of(v), frame_number));
                kick_links(domain, marked, frame_number, linked(domain, marked, a@))
            },
        },
    }
}

/// Kicks a prover and its allocations.
pub fn invoke_kick(
    domain: &Vec<u8>,
    state: &mut HypergraphState<GlobalValue>,
    frame_number: u64,
    address: &Result<Vec<u8>, QuilError>,
) -> (a: Answer)
    ensures
        final(state).committed == old(state).committed,
        ({
            let eff = kick_effect(domain@, old(state)@, frame_number, *address);
            answer(a) == eff.answer && final(state)@ == eff.log
        }),
{
    let prover = match address {
        Err(e) => {
            return Err(e.duplicate());
        },
        Ok(a) => a,
    };
    let mut record = match state.get(domain.as_slice(), prover.as_slice(), Layer::VertexAdds) {
        None => {
            return Err(invalid_argument("invoke_step kick: prover not found"));
        },
        Some(v) => {
            if v.is_empty() {
                return Err(invalid_argument("invoke_step kick: prover has no data"));
            }
            v.record()
        },
    };
    kick_record(&mut record, frame_number);
    put_record(state, domain, prover, frame_number, record);
    let ghost marked = state@;
    let links: Vec<Vec<u8>> = match state.get(
        domain.as_slice(),
        prover.as_slice(),
        Layer::HyperedgeAdds,
    ) {
        Some(GlobalValue::Links(l)) => crate::bytes::copy_all(l),
        _ => Vec::new(),
    };
    let ghost lv = views(links@);
    assert(lv =~= linked(domain@, marked, prover@));
    assert(kick_effect(domain@, old(state)@, frame_number, *address) == kick_links(
        domain@,
        marked,
        frame_number,
        lv,
    ));
    let mut i: usize = 0;
    assert(lv.take(0) =~= Seq::<Seq<u8>>::empty());
    while i < links.len()
        invariant
            state.committed == old(state).committed,
            i <= links@.len(),
            lv == views(links@),
            kick_effect(domain@, old(state)@, frame_number, *address) == kick_links(
                domain@,
                marked,
                frame_number,
                lv,
            ),
            ({
                let eff = kick_links(domain@, marked, frame_number, lv.take(i as int));
                eff.answer == Ok::<(), ErrorView>(()) && state@ == eff.log
            }),
        decreases links@.len() - i,
    {
        proof {
            assert(lv.take(i + 1).drop_last() =~= lv.take(i as int));
            assert(lv.take(i + 1).last() == lv[i as int]);
        }
        let link = &links[i];
        if link.len() == 64 {
            let head = sub_bytes(link.as_slice(), 0, 32);
            let tail = sub_bytes(link.as_slice(), 32, 64);
            assert(head@ =~= link@.take(32));
            assert(tail@ =~= link@.skip(32));
            if !bytes_eq(head.as_slice(), domain.as_slice()) {
                proof {
                    lemma_kick_prefix(domain@, marked, frame_number, lv, i + 1);
                }
                return Err(
                    invalid_argument("invoke_step kick: hyperedge has non-global allocation atom"),
                );
            }
            let found: Option<Record> = match state.get(
                domain.as_slice(),
                tail.as_slice(),
                Layer::VertexAdds,
            ) {
                Some(v) => if v.is_empty() {
                    None
                } else {
                    Some(v.record())
                },
                None => None,
            };
            if let Some(r) = found {
                let mut r = r;
                kick_record(&mut r, frame_number);
                put_record(state, domain, &tail, frame_number, r);
            }
        }
        i += 1;
    }
    assert(lv.take(i as int) =~= lv);
    Ok(())
}

proof fn lemma_kick_prefix(domain: Seq<u8>, log: GlobalLog, frame_number: u64, links: Seq<Seq<u8>>, n: int)
    requires
        0 <= n <= links.len(),
        kick_links(domain, log, frame_number, links.take(n)).answer is Err,
    ensures
        kick_links(domain, log, frame_number, links) == kick_links(
            domain,
            log,
            frame_number,
            links.take(n),
        ),
    decreases links.len(),
{
    if n == links.len() {
        assert(links.take(n) =~= links);
    } else {
        assert(links.drop_last().take(n) =~= links.take(n));
        lemma_kick_prefix(domain, log, frame_number, links.drop_last(), n);
    }
}

} // verus!
