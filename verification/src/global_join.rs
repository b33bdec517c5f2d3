//! Joining as a prover, and merging the seniority of older keys.

use vstd::prelude::*;

use crate::assoc::{value_of, with_value};
use crate::bytes::{
    append_bytes, be_bytes_u64, be_seq, bytes_eq, copy_bytes, views, zero_seq, zeros,
};
use crate::checks::{
    answer, first_err, lemma_first_err_prefix, lemma_first_err_step, success, success_of, Answer,
};
use crate::codec::base58_text;
use crate::error::{invalid_argument, ErrorView, QuilError};
use crate::global_steps::{
    bad, fails, put, put_record, vertex, GlobalLog, StepEffect, JOIN_EXPIRY_FRAMES, STATUS_ACTIVE,
    STATUS_KICKED,
};
use crate::peer_id::{ed448_pubkey_to_peer_id_string, key_multihash};
use crate::records::{
    first_byte_of, number_of, number_or_zero, record_of, Field, GlobalValue, GlobalValueView,
    Record, RecordView,
};
use crate::state::{lookup, written, HypergraphState, Layer};
use crate::text::{concat3, decimal, decimal_seq};

verus! {

/// A key whose seniority is merged, and where the marker of its merge stands.
pub struct MergeTarget {
    pub key_type: u32,
    pub public_key: Vec<u8>,
    pub spent_address: Result<Vec<u8>, QuilError>,
}

/// An allocation to be written.
pub struct RecordWrite {
    pub address: Vec<u8>,
    pub record: Record,
}

/// The records that a join makes: the prover's, in which the library sets the
/// seniority, and its allocations.
pub struct JoinOutput {
    pub prover: Record,
    pub allocations: Vec<RecordWrite>,
}

/// What is known of a decoded join. `aggregated_seniority` is the seniority of the
/// peers that [`plan_join`] names.
pub struct JoinOp {
    pub public_key: Vec<u8>,
    pub prover_address: Result<Vec<u8>, QuilError>,
    pub allocation_addresses: Vec<Result<Vec<u8>, QuilError>>,
    pub merge_targets: Vec<MergeTarget>,
    pub delegate_address: Vec<u8>,
    pub aggregated_seniority: u64,
    pub materialized: Result<JoinOutput, QuilError>,
    pub reward_address: Result<Vec<u8>, QuilError>,
}

/// May an allocation with this record be joined anew? One that was left may, and
/// one whose join has expired; an active one may not, however old it is.
pub open spec fn rejoin_allowed(frame_number: u64, r: RecordView) -> bool {
    let status = match first_byte_of(r, Field::Status) {
        Some(b) => b,
        None => STATUS_KICKED,
    };
    if status == STATUS_KICKED {
        true
    } else if status == STATUS_ACTIVE {
        false
    } else {
        match number_of(r, Field::JoinFrameNumber) {
            Some(j) => frame_number >= j + JOIN_EXPIRY_FRAMES,
            None => true,
        }
    }
}

/// The refusal to join an allocation anew.
pub open spec fn rejoin_error(frame_number: u64, r: RecordView) -> ErrorView {
    let joined = number_or_zero(r, Field::JoinFrameNumber);
    bad(
        "invoke_step join: allocation still active (status="@ + decimal_seq(
            first_byte_of(r, Field::Status)->Some_0 as nat,
        ) + ", frame_since_join="@ + decimal_seq(
            if frame_number >= joined {
                (frame_number - joined) as nat
            } else {
                0
            },
        ) + ")"@,
    )
}

/// The check of one allocation that is to be joined.
pub open spec fn rejoin_check(
    domain: Seq<u8>,
    log: GlobalLog,
    frame_number: u64,
    address: Result<Vec<u8>, QuilError>,
) -> Result<(), ErrorView> {
    match address {
        Err(e) => Err(e@),
        Ok(a) => match lookup(log, vertex(domain, a@)) {
            Some(v) => if v is Empty || rejoin_allowed(frame_number, record_of(v)) {
                Ok(())
            } else {
                Err(rejoin_error(frame_number, record_of(v)))
            },
            None => Ok(()),
        },
    }
}

/// The checks of all allocations that are to be joined, in order.
pub open spec fn rejoin_checks(
    domain: Seq<u8>,
    log: GlobalLog,
    frame_number: u64,
    addresses: Seq<Result<Vec<u8>, QuilError>>,
) -> Seq<Result<(), ErrorView>> {
    Seq::new(addresses.len(), |i: int| rejoin_check(domain, log, frame_number, addresses[i]))
}

/// The address that a merge marker names, where it names one.
pub open spec fn claimant(domain: Seq<u8>, log: GlobalLog, marker: Seq<u8>) -> Option<Seq<u8>> {
    match lookup(log, vertex(domain, marker)) {
        Some(v) => match value_of(record_of(v), Field::ProverAddress) {
            Some(a) => if a.len() == 32 {
                Some(a)
            } else {
                None
            },
            None => None,
        },
        None => None,
    }
}

/// Does a merge target name a peer? Ed448 keys do.
pub open spec fn names_peer(key_type: u32, public_key: Seq<u8>) -> bool {
    key_type == 0 && public_key.len() == 57
}

/// The peers whose seniority a join takes over: those of its merge targets that no
/// other prover has claimed.
pub open spec fn join_peers(domain: Seq<u8>, log: GlobalLog, prover: Seq<u8>, ts: Seq<MergeTarget>) -> Result<
    Seq<Seq<char>>,
    ErrorView,
>
    decreases ts.len(),
{
    if ts.len() == 0 {
        Ok(Seq::empty())
    } else {
        match join_peers(domain, log, prover, ts.drop_last()) {
            Err(e) => Err(e),
            Ok(ps) => {
                let t = ts.last();
                match t.spent_address {
                    Err(e) => Err(e@),
                    Ok(m) => if claimant(domain, log, m@) matches Some(c) && c != prover {
                        Ok(ps)
                    } else if names_peer(t.key_type, t.public_key@) {
                        Ok(ps.push(base58_text(key_multihash(t.public_key@))))
                    } else {
                        Ok(ps)
                    },
                }
            },
        }
    }
}

/// The prover's record, where there is one that is not empty.
pub open spec fn existing(domain: Seq<u8>, log: GlobalLog, prover: Seq<u8>) -> Option<RecordView> {
    match lookup(log, vertex(domain, prover)) {
        Some(v) => if v is Empty {
            None
        } else {
            Some(record_of(v))
        },
        None => None,
    }
}

/// The plan of a join: the prover's address, the peers whose seniority it takes
/// over, and the seniority it starts with.
pub struct JoinPlanView {
    pub prover_address: Seq<u8>,
    pub peers: Seq<Seq<char>>,
    pub seniority: nat,
}

/// The seniority that a join starts with: that of its peers, or what the prover
/// has, whichever is more.
pub open spec fn join_seniority(
    domain: Seq<u8>,
    log: GlobalLog,
    prover: Seq<u8>,
    peers: Seq<Seq<char>>,
    aggregated: u64,
) -> nat {
    let computed = if peers.len() == 0 {
        0nat
    } else {
        aggregated as nat
    };
    match existing(domain, log, prover) {
        Some(r) => if number_or_zero(r, Field::Seniority) > computed {
            number_or_zero(r, Field::Seniority)
        } else {
            computed
        },
        None => computed,
    }
}

/// The plan of a join, or the first objection: there is no public key, the prover
/// was kicked before, or one of the allocations may not be joined anew.
pub open spec fn join_plan(domain: Seq<u8>, log: GlobalLog, frame_number: u64, op: JoinOp) -> Result<
    JoinPlanView,
    ErrorView,
> {
    if op.public_key@.len() == 0 {
        Err(bad("invoke_step join: no public key"@))
    } else {
        match op.prover_address {
            Err(e) => Err(e@),
            Ok(p) => {
                let refused = match existing(domain, log, p@) {
                    Some(r) => if number_or_zero(r, Field::KickFrameNumber) > 0 {
                        Err(bad("invoke_step join: prover has been previously kicked"@))
                    } else {
                        first_err(
                            rejoin_checks(domain, log, frame_number, op.allocation_addresses@),
                        )
                    },
                    None => Ok(()),
                };
                match refused {
                    Err(e) => Err(e),
                    Ok(()) => match join_peers(domain, log, p@, op.merge_targets@) {
                        Err(e) => Err(e),
                        Ok(peers) => Ok(
                            JoinPlanView {
                                prover_address: p@,
                                peers,
                                seniority: join_seniority(
                                    domain,
                                    log,
                                    p@,
                                    peers,
                                    op.aggregated_seniority,
                                ),
                            },
                        ),
                    },
                }
            },
        }
    }
}

/// The log with allocations written.
pub open spec fn put_all(log: GlobalLog, domain: Seq<u8>, frame_number: u64, ws: Seq<RecordWrite>) -> GlobalLog
    decreases ws.len(),
{
    if ws.len() == 0 {
        log
    } else {
        put(
            put_all(log, domain, frame_number, ws.drop_last()),
            domain,
            ws.last().address@,
            frame_number,
            ws.last().record@,
        )
    }
}

/// The atoms that the hyperedge of a new prover links: its allocations, each by
/// the domain and its address.
pub open spec fn links_of(domain: Seq<u8>, ws: Seq<RecordWrite>) -> Seq<Seq<u8>> {
    Seq::new(ws.len(), |i: int| domain + ws[i].address@)
}

/// The record of a merge marker.
pub open spec fn marker_record(prover: Seq<u8>) -> RecordView {
    seq![(Field::ProverAddress, prover)]
}

/// The log after one merge target was marked. A marker that names a prover stays.
pub open spec fn marked(log: GlobalLog, domain: Seq<u8>, frame_number: u64, prover: Seq<u8>, t: MergeTarget) -> GlobalLog {
    match t.spent_address {
        Ok(m) => if claimant(domain, log, m@) is Some {
            log
        } else {
            put(log, domain, m@, frame_number, marker_record(prover))
        },
        Err(_) => log,
    }
}

/// The log after all merge targets were marked, in order.
pub open spec fn marked_all(
    log: GlobalLog,
    domain: Seq<u8>,
    frame_number: u64,
    prover: Seq<u8>,
    ts: Seq<MergeTarget>,
) -> GlobalLog
    decreases ts.len(),
{
    if ts.len() == 0 {
        log
    } else {
        marked(
            marked_all(log, domain, frame_number, prover, ts.drop_last()),
            domain,
            frame_number,
            prover,
            ts.last(),
        )
    }
}

/// The record of a reward: whom it goes to, and a balance of 32 zero bytes.
pub open spec fn reward_record(delegate: Seq<u8>) -> RecordView {
    seq![(Field::DelegateAddress, delegate), (Field::Balance, zero_seq(32))]
}

/// Whom the rewards of a prover go to: the delegate that was named by 32 bytes, or
/// the prover itself.
pub open spec fn delegate_of(op: JoinOp, prover: Seq<u8>) -> Seq<u8> {
    if op.delegate_address@.len() == 32 {
        op.delegate_address@
    } else {
        prover
    }
}

/// The record of a prover that joined, with the seniority that it starts with.
pub open spec fn senior_record(r: RecordView, seniority: nat) -> RecordView {
    with_value(r, Field::Seniority, be_seq(seniority, 8))
}

/// The log after the prover, its allocations, its hyperedge and the merge markers
/// of a join were written.
pub open spec fn joined(
    log: GlobalLog,
    domain: Seq<u8>,
    frame_number: u64,
    op: JoinOp,
    plan: JoinPlanView,
    out: JoinOutput,
) -> GlobalLog {
    let p = plan.prover_address;
    let vertices = put_all(
        put(log, domain, p, frame_number, senior_record(out.prover@, plan.seniority)),
        domain,
        frame_number,
        out.allocations@,
    );
    marked_all(
        vertices.push(
            written(
                domain,
                p,
                Layer::HyperedgeAdds,
                frame_number,
                GlobalValueView::Links(links_of(domain, out.allocations@)),
            ),
        ),
        domain,
        frame_number,
        p,
        op.merge_targets@,
    )
}

/// The effect of a join.
pub open spec fn join_effect(domain: Seq<u8>, log: GlobalLog, frame_number: u64, op: JoinOp) -> StepEffect {
    match join_plan(domain, log, frame_number, op) {
        Err(e) => fails(log, e),
        Ok(plan) => match op.materialized {
            Err(e) => fails(log, e@),
            Ok(out) => {
                let written = joined(log, domain, frame_number, op, plan, out);
                match op.reward_address {
                    Err(e) => fails(written, e@),
                    Ok(a) => StepEffect {
                        answer: Ok(()),
                        log: put(
                            written,
                            domain,
                            a@,
                            frame_number,
                            reward_record(delegate_of(op, plan.prover_address)),
                        ),
                    },
                }
            },
        },
    }
}

/// The plan of a join.
pub struct JoinPlan {
    pub prover_address: Vec<u8>,
    pub peers: Vec<String>,
    pub seniority: u64,
}

/// The texts of a list.
pub open spec fn texts(v: Seq<String>) -> Seq<Seq<char>> {
    Seq::new(v.len(), |i: int| v[i]@)
}

fn check_rejoin(
    domain: &Vec<u8>,
    state: &HypergraphState<GlobalValue>,
    frame_number: u64,
    address: &Result<Vec<u8>, QuilError>,
) -> (a: Answer)
    ensures
        answer(a) == rejoin_check(domain@, state@, frame_number, *address),
{
    let addr = match address {
        Err(e) => {
            return Err(e.duplicate());
        },
        Ok(a) => a,
    };
    let v = match state.get(domain.as_slice(), addr.as_slice(), Layer::VertexAdds) {
        None => {
            return Ok(());
        },
        Some(v) => v,
    };
    if v.is_empty() {
        return Ok(());
    }
    let r = v.record();
    let status: u8 = match r.first_byte(Field::Status) {
        Some(b) => b,
        None => STATUS_KICKED,
    };
    if status == STATUS_KICKED {
        return Ok(());
    }
    let joined: Option<u64> = r.number(Field::JoinFrameNumber);
    if status != STATUS_ACTIVE {
        match joined {
            None => {
                return Ok(());
            },
            Some(j) => {
                if frame_number >= j && frame_number - j >= JOIN_EXPIRY_FRAMES {
                    return Ok(());
                }
            },
        }
    }
    let j: u64 = match joined {
        Some(j) => j,
        None => 0,
    };
    let since: u64 = if frame_number >= j {
        frame_number - j
    } else {
        0
    };
    let head = concat3(
        "invoke_step join: allocation still active (status=",
        decimal(status as u64).as_str(),
        ", frame_since_join=",
    );
    Err(QuilError::InvalidArgument(concat3(head.as_str(), decimal(since).as_str(), ")")))
}

fn check_rejoins(
    domain: &Vec<u8>,
    state: &HypergraphState<GlobalValue>,
    frame_number: u64,
    addresses: &Vec<Result<Vec<u8>, QuilError>>,
) -> (a: Answer)
    ensures
        answer(a) == first_err(rejoin_checks(domain@, state@, frame_number, addresses@)),
{
    let ghost rs = rejoin_checks(domain@, state@, frame_number, addresses@);
    let mut k: usize = 0;
    while k < addresses.len()
        invariant
            k <= addresses@.len(),
            rs == rejoin_checks(domain@, state@, frame_number, addresses@),
            first_err(rs.take(k as int)) is Ok,
        decreases addresses@.len() - k,
    {
        let a = check_rejoin(domain, state, frame_number, &addresses[k]);
        proof {
            lemma_first_err_step(rs, k as int);
        }
        if a.is_err() {
            proof {
                lemma_first_err_prefix(rs, k + 1);
            }
            return a;
        }
        k += 1;
    }
    assert(rs.take(k as int) =~= rs);
    Ok(())
}

fn find_claimant(domain: &Vec<u8>, state: &HypergraphState<GlobalValue>, marker: &Vec<u8>) -> (r: Option<
    Vec<u8>,
>)
    ensures
        match r {
            Some(a) => claimant(domain@, state@, marker@) == Some(a@),
            None => claimant(domain@, state@, marker@) is None,
        },
{
    match state.get(domain.as_slice(), marker.as_slice(), Layer::VertexAdds) {
        None => None,
        Some(v) => {
            let rec = v.record();
            let r: Option<Vec<u8>> = match rec.get(Field::ProverAddress) {
                Some(a) => if a.len() == 32 {
                    Some(copy_bytes(a.as_slice()))
                } else {
                    None
                },
                None => None,
            };
            r
        },
    }
}

proof fn lemma_peers_prefix(domain: Seq<u8>, log: GlobalLog, prover: Seq<u8>, ts: Seq<MergeTarget>, n: int)
    requires
        0 <= n <= ts.len(),
        join_peers(domain, log, prover, ts.take(n)) is Err,
    ensures
        join_peers(domain, log, prover, ts) == join_peers(domain, log, prover, ts.take(n)),
    decreases ts.len(),
{
    if n == ts.len() {
        assert(ts.take(n) =~= ts);
    } else {
        assert(ts.drop_last().take(n) =~= ts.take(n));
        lemma_peers_prefix(domain, log, prover, ts.drop_last(), n);
    }
}

fn find_join_peers(
    domain: &Vec<u8>,
    state: &HypergraphState<GlobalValue>,
    prover: &Vec<u8>,
    ts: &Vec<MergeTarget>,
) -> (r: Result<Vec<String>, QuilError>)
    ensures
        match r {
            Ok(v) => join_peers(domain@, state@, prover@, ts@) == Ok::<Seq<Seq<char>>, ErrorView>(
                texts(v@),
            ),
            Err(e) => join_peers(domain@, state@, prover@, ts@) == Err::<Seq<Seq<char>>, ErrorView>(
                e@,
            ),
        },
{
    let mut out: Vec<String> = Vec::new();
    let mut i: usize = 0;
    assert(ts@.take(0) =~= Seq::<MergeTarget>::empty());
    assert(texts(out@) =~= Seq::<Seq<char>>::empty());
    while i < ts.len()
        invariant
            i <= ts@.len(),
            join_peers(domain@, state@, prover@, ts@.take(i as int)) == Ok::<
                Seq<Seq<char>>,
                ErrorView,
            >(texts(out@)),
        decreases ts@.len() - i,
    {
        let ghost before = texts(out@);
        proof {
            assert(ts@.take(i + 1).drop_last() =~= ts@.take(i as int));
            assert(ts@.take(i + 1).last() == ts@[i as int]);
        }
        let t = &ts[i];
        let m = match &t.spent_address {
            Err(e) => {
                proof {
                    lemma_peers_prefix(domain@, state@, prover@, ts@, i + 1);
                }
                return Err(e.duplicate());
            },
            Ok(m) => m,
        };
        let taken = match find_claimant(domain, state, m) {
            Some(c) => !bytes_eq(c.as_slice(), prover.as_slice()),
            None => false,
        };
        if !taken && t.key_type == 0 && t.public_key.len() == 57 {
            let id = ed448_pubkey_to_peer_id_string(t.public_key.as_slice());
            out.push(id);
            assert(texts(out@) =~= before.push(id@));
        }
        i += 1;
    }
    assert(ts@.take(i as int) =~= ts@);
    Ok(out)
}

/// Checks a join and works out what it starts with.
pub fn plan_join(
    domain: &Vec<u8>,
    state: &HypergraphState<GlobalValue>,
    frame_number: u64,
    op: &JoinOp,
) -> (r: Result<JoinPlan, QuilError>)
    ensures
        match r {
            Ok(p) => join_plan(domain@, state@, frame_number, *op) == Ok::<JoinPlanView, ErrorView>(
                JoinPlanView {
                    prover_address: p.prover_address@,
                    peers: texts(p.peers@),
                    seniority: p.seniority as nat,
                },
            ),
            Err(e) => join_plan(domain@, state@, frame_number, *op) == Err::<
                JoinPlanView,
                ErrorView,
            >(e@),
        },
{
    if op.public_key.len() == 0 {
        return Err(invalid_argument("invoke_step join: no public key"));
    }
    let p = match &op.prover_address {
        Err(e) => {
            return Err(e.duplicate());
        },
        Ok(p) => p,
    };
    let found: Option<Record> = match state.get(
        domain.as_slice(),
        p.as_slice(),
        Layer::VertexAdds,
    ) {
        Some(v) => if v.is_empty() {
            None
        } else {
            Some(v.record())
        },
        None => None,
    };
    if let Some(r) = &found {
        if let Some(k) = r.number(Field::KickFrameNumber) {
            if k > 0 {
                return Err(
                    invalid_argument("invoke_step join: prover has been previously kicked"),
                );
            }
        }
        if let Err(e) = check_rejoins(domain, state, frame_number, &op.allocation_addresses) {
            return Err(e);
        }
    }
    let peers = match find_join_peers(domain, state, p, &op.merge_targets) {
        Err(e) => {
            return Err(e);
        },
        Ok(v) => v,
    };
    assert(texts(peers@).len() == peers@.len());
    let computed: u64 = if peers.len() == 0 {
        0
    } else {
        op.aggregated_seniority
    };
    let seniority: u64 = match &found {
        Some(r) => match r.number(Field::Seniority) {
            Some(s) => if s > computed {
                s
            } else {
                computed
            },
            None => computed,
        },
        None => computed,
    };
    Ok(JoinPlan { prover_address: copy_bytes(p.as_slice()), peers, seniority })
}

/// Writes records, in order.
pub(crate) fn put_records(
    domain: &Vec<u8>,
    state: &mut HypergraphState<GlobalValue>,
    frame_number: u64,
    ws: &Vec<RecordWrite>,
)
    ensures
        final(state).committed == old(state).committed,
        final(state)@ == put_all(old(state)@, domain@, frame_number, ws@),
{
    let ghost log = state@;
    let mut i: usize = 0;
    assert(ws@.take(0) =~= Seq::<RecordWrite>::empty());
    while i < ws.len()
        invariant
            state.committed == old(state).committed,
            i <= ws@.len(),
            state@ == put_all(log, domain@, frame_number, ws@.take(i as int)),
        decreases ws@.len() - i,
    {
        proof {
            assert(ws@.take(i + 1).drop_last() =~= ws@.take(i as int));
            assert(ws@.take(i + 1).last() == ws@[i as int]);
        }
        put_record(state, domain, &ws[i].address, frame_number, ws[i].record.dup());
        i += 1;
    }
    assert(ws@.take(i as int) =~= ws@);
}

fn make_links(domain: &Vec<u8>, ws: &Vec<RecordWrite>) -> (r: Vec<Vec<u8>>)
    ensures
        views(r@) == links_of(domain@, ws@),
{
    let mut out: Vec<Vec<u8>> = Vec::new();
    let mut i: usize = 0;
    while i < ws.len()
        invariant
            i <= ws@.len(),
            out@.len() == i,
            forall|j: int| 0 <= j < i ==> out@[j]@ == domain@ + ws@[j].address@,
        decreases ws@.len() - i,
    {
        let mut l = copy_bytes(domain.as_slice());
        append_bytes(&mut l, ws[i].address.as_slice());
        out.push(l);
        i += 1;
    }
    assert(views(out@) =~= links_of(domain@, ws@));
    out
}

fn make_marker(prover: &Vec<u8>) -> (r: Record)
    ensures
        r@ == marker_record(prover@),
{
    let mut r = Record::new();
    r.set(Field::ProverAddress, copy_bytes(prover.as_slice()));
    assert(r@ =~= marker_record(prover@));
    r
}

fn mark_targets(
    domain: &Vec<u8>,
    state: &mut HypergraphState<GlobalValue>,
    frame_number: u64,
    prover: &Vec<u8>,
    ts: &Vec<MergeTarget>,
)
    ensures
        final(state).committed == old(state).committed,
        final(state)@ == marked_all(old(state)@, domain@, frame_number, prover@, ts@),
{
    let ghost log = state@;
    let mut i: usize = 0;
    assert(ts@.take(0) =~= Seq::<MergeTarget>::empty());
    while i < ts.len()
        invariant
            state.committed == old(state).committed,
            i <= ts@.len(),
            state@ == marked_all(log, domain@, frame_number, prover@, ts@.take(i as int)),
        decreases ts@.len() - i,
    {
        proof {
            assert(ts@.take(i + 1).drop_last() =~= ts@.take(i as int));
            assert(ts@.take(i + 1).last() == ts@[i as int]);
        }
        if let Ok(m) = &ts[i].spent_address {
            if find_claimant(domain, state, m).is_none() {
                put_record(state, domain, m, frame_number, make_marker(prover));
            }
        }
        i += 1;
    }
    assert(ts@.take(i as int) =~= ts@);
}

fn make_reward(delegate: Vec<u8>) -> (r: Record)
    ensures
        r@ == reward_record(delegate@),
{
    let mut r = Record::new();
    r.set(Field::DelegateAddress, delegate);
    assert(r@ =~= seq![(Field::DelegateAddress, delegate@)]);
    proof {
        crate::assoc::lemma_key_index_is(r@, Field::Balance, 1);
    }
    r.set(Field::Balance, zeros(32));
    assert(r@ =~= reward_record(delegate@));
    r
}

/// Joins a prover.
pub fn invoke_join(
    domain: &Vec<u8>,
    state: &mut HypergraphState<GlobalValue>,
    frame_number: u64,
    op: &JoinOp,
) -> (a: Answer)
    ensures
        final(state).committed == old(state).committed,
        ({
            let eff = join_effect(domain@, old(state)@, frame_number, *op);
            answer(a) == eff.answer && final(state)@ == eff.log
        }),
{
    let plan = match plan_join(domain, state, frame_number, op) {
        Err(e) => {
            return Err(e);
        },
        Ok(plan) => plan,
    };
    let out = match &op.materialized {
        Err(e) => {
            return Err(e.duplicate());
        },
        Ok(out) => out,
    };
    let mut prover = out.prover.dup();
    prover.set(Field::Seniority, be_bytes_u64(plan.seniority));
    put_record(state, domain, &plan.prover_address, frame_number, prover);
    put_records(domain, state, frame_number, &out.allocations);
    state.set(
        domain.as_slice(),
        plan.prover_address.as_slice(),
        Layer::HyperedgeAdds,
        frame_number,
        GlobalValue::Links(make_links(domain, &out.allocations)),
    );
    mark_targets(domain, state, frame_number, &plan.prover_address, &op.merge_targets);
    let reward = match &op.reward_address {
        Err(e) => {
            return Err(e.duplicate());
        },
        Ok(a) => a,
    };
    let delegate = if op.delegate_address.len() == 32 {
        copy_bytes(op.delegate_address.as_slice())
    } else {
        copy_bytes(plan.prover_address.as_slice())
    };
    put_record(state, domain, reward, frame_number, make_reward(delegate));
    Ok(())
}

/// What is known of a decoded merge. `aggregated_seniority` is the seniority of the
/// peers that [`merge_peer_ids`] names.
pub struct MergeOp {
    pub address: Option<Vec<u8>>,
    pub merge_targets: Vec<MergeTarget>,
    pub aggregated_seniority: u64,
}

/// The peers that merge targets name.
pub open spec fn merge_peers(ts: Seq<MergeTarget>) -> Seq<Seq<char>>
    decreases ts.len(),
{
    if ts.len() == 0 {
        Seq::empty()
    } else {
        let before = merge_peers(ts.drop_last());
        if names_peer(ts.last().key_type, ts.last().public_key@) {
            before.push(base58_text(key_multihash(ts.last().public_key@)))
        } else {
            before
        }
    }
}

/// The peers that merge targets name.
pub fn merge_peer_ids(ts: &Vec<MergeTarget>) -> (r: Vec<String>)
    ensures
        texts(r@) == merge_peers(ts@),
{
    let mut out: Vec<String> = Vec::new();
    let mut i: usize = 0;
    assert(ts@.take(0) =~= Seq::<MergeTarget>::empty());
    assert(texts(out@) =~= Seq::<Seq<char>>::empty());
    while i < ts.len()
        invariant
            i <= ts@.len(),
            texts(out@) == merge_peers(ts@.take(i as int)),
        decreases ts@.len() - i,
    {
        let ghost before = texts(out@);
        proof {
            assert(ts@.take(i + 1).drop_last() =~= ts@.take(i as int));
            assert(ts@.take(i + 1).last() == ts@[i as int]);
        }
        if ts[i].key_type == 0 && ts[i].public_key.len() == 57 {
            let id = ed448_pubkey_to_peer_id_string(ts[i].public_key.as_slice());
            out.push(id);
            assert(texts(out@) =~= before.push(id@));
        }
        i += 1;
    }
    assert(ts@.take(i as int) =~= ts@);
    out
}

/// Each merge target must have a place for its marker.
pub open spec fn marker_checks(ts: Seq<MergeTarget>) -> Seq<Result<(), ErrorView>> {
    Seq::new(ts.len(), |i: int| success_of(ts[i].spent_address))
}

/// The seniority after a merge: the sum, as far as it can be held.
pub open spec fn merged_seniority(r: RecordView, ts: Seq<MergeTarget>, aggregated: u64) -> nat {
    let more = if merge_peers(ts).len() == 0 {
        0nat
    } else {
        aggregated as nat
    };
    if number_or_zero(r, Field::Seniority) + more > u64::MAX {
        u64::MAX as nat
    } else {
        number_or_zero(r, Field::Seniority) + more
    }
}

/// The effect of merging seniority: the prover's grows, and each target is marked
/// unless a prover has claimed it.
pub open spec fn merge_effect(domain: Seq<u8>, log: GlobalLog, frame_number: u64, op: MergeOp) -> StepEffect {
    let prover = match op.address {
        Some(a) => a@,
        None => Seq::empty(),
    };
    if op.merge_targets@.len() == 0 {
        fails(log, bad("invoke_step seniority_merge: no merge targets"@))
    } else if prover.len() < 32 {
        fails(log, bad("invoke_step seniority_merge: address too short"@))
    } else {
        match lookup(log, vertex(domain, prover)) {
            None => fails(log, bad("invoke_step seniority_merge: prover not found"@)),
            Some(v) => if v is Empty {
                fails(log, bad("invoke_step seniority_merge: prover has no data"@))
            } else {
                match first_err(marker_checks(op.merge_targets@)) {
                    Err(e) => fails(log, e),
                    Ok(()) => StepEffect {
                        answer: Ok(()),
                        log: marked_all(
                            put(
                                log,
                                domain,
                                prover,
                                frame_number,
                                with_value(
                                    record_of(v),
                                    Field::Seniority,
                                    be_seq(
                                        merged_seniority(
                                            record_of(v),
                                            op.merge_targets@,
                                            op.aggregated_seniority,
                                        ),
                                        8,
                                    ),
                                ),
                            ),
                            domain,
                            frame_number,
                            prover,
                            op.merge_targets@,
                        ),
                    },
                }
            },
        }
    }
}

fn check_markers(ts: &Vec<MergeTarget>) -> (a: Answer)
    ensures
        answer(a) == first_err(marker_checks(ts@)),
{
    let ghost rs = marker_checks(ts@);
    let mut k: usize = 0;
    while k < ts.len()
        invariant
            k <= ts@.len(),
            rs == marker_checks(ts@),
            first_err(rs.take(k as int)) is Ok,
        decreases ts@.len() - k,
    {
        let a = success(&ts[k].spent_address);
        proof {
            lemma_first_err_step(rs, k as int);
        }
        if a.is_err() {
            proof {
                lemma_first_err_prefix(rs, k + 1);
            }
            return a;
        }
        k += 1;
    }
    assert(rs.take(k as int) =~= rs);
    Ok(())
}

/// Merges the seniority of older keys into a prover's.
pub fn invoke_seniority_merge(
    domain: &Vec<u8>,
    state: &mut HypergraphState<GlobalValue>,
    frame_number: u64,
    op: &MergeOp,
) -> (a: Answer)
    ensures
        final(state).committed == old(state).committed,
        ({
            let eff = merge_effect(domain@, old(state)@, frame_number, *op);
            answer(a) == eff.answer && final(state)@ == eff.log
        }),
{
    if op.merge_targets.len() == 0 {
        return Err(invalid_argument("invoke_step seniority_merge: no merge targets"));
    }
    let prover = match &op.address {
        Some(a) => copy_bytes(a.as_slice()),
        None => Vec::new(),
    };
    if prover.len() < 32 {
        return Err(invalid_argument("invoke_step seniority_merge: address too short"));
    }
    let mut record = match state.get(domain.as_slice(), prover.as_slice(), Layer::VertexAdds) {
        None => {
            return Err(invalid_argument("invoke_step seniority_merge: prover not found"));
        },
        Some(v) => {
            if v.is_empty() {
                return Err(invalid_argument("invoke_step seniority_merge: prover has no data"));
            }
            v.record()
        },
    };
    let ids = merge_peer_ids(&op.merge_targets);
    assert(texts(ids@).len() == ids@.len());
    let more: u64 = if ids.len() == 0 {
        0
    } else {
        op.aggregated_seniority
    };
    if let Err(e) = check_markers(&op.merge_targets) {
        return Err(e);
    }
    let had: u64 = match record.number(Field::Seniority) {
        Some(s) => s,
        None => 0,
    };
    let sum: u64 = if had > u64::MAX - more {
        u64::MAX
    } else {
        had + more
    };
    record.set(Field::Seniority, be_bytes_u64(sum));
    put_record(state, domain, &prover, frame_number, record);
    mark_targets(domain, state, frame_number, &prover, &op.merge_targets);
    Ok(())
}

} // verus!
