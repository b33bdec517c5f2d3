use quil_node::envelope::{Envelope, EnvelopeTypes};
use quil_node::error::QuilError;
use quil_node::global_engine::{
    places_to_bytes, size_or_zero, BigSize, GlobalStep, HeaderCredit, ManyFilterOp, OneFilterOp,
    ProverUpdateOp, ShardPath, ShardSize, ShardWork,
};
use quil_node::global_execution::{
    extract_prover_address, load_trees_for_validation, GlobalExecutionEngine, GlobalRequest,
    GlobalValidation,
};
use quil_node::global_intrinsic::{
    needs_allocation_tree, select_participant_keys, ActiveProver, AggregateSignature,
    GlobalIntrinsic, GlobalReport, GlobalTypes, HeaderReport, JoinChecks, KickChecks,
};
use quil_node::global_join::{
    invoke_join, invoke_seniority_merge, merge_peer_ids, plan_join, JoinOp, JoinOutput, MergeOp,
    MergeTarget, RecordWrite,
};
use quil_node::global_steps::{
    invoke_filter_op, invoke_kick, plan_filter_op, FilterStep, STATUS_KICKED,
};
use quil_node::peer_id::ed448_pubkey_to_peer_id_string;
use quil_node::records::{Field, GlobalValue, ProverStatus, Record};
use quil_node::state::{HypergraphState, Layer};

type State = HypergraphState<GlobalValue>;

const GLOBAL: [u8; 32] = [0xff; 32];
const ENVELOPES: EnvelopeTypes = EnvelopeTypes { bundle: 0x0313, request: 0x0312 };
const PAUSE: u32 = 0x0301;
const CONFIRM: u32 = 0x0304;
const JOIN: u32 = 0x0306;
const SPLIT: u32 = 0x0309;
const SHARD_MERGE: u32 = 0x030a;
const KICK: u32 = 0x030c;
const HEADER: u32 = 0x030d;

fn types() -> GlobalTypes {
    GlobalTypes {
        prefixes: (0x0301..0x030e).collect(),
        prover_pause: PAUSE,
        prover_resume: 0x0302,
        prover_leave: 0x0303,
        prover_confirm: CONFIRM,
        prover_reject: 0x0305,
        prover_join: JOIN,
        prover_update: 0x0307,
        alt_shard_update: 0x0308,
        shard_split: SPLIT,
        shard_merge: SHARD_MERGE,
        seniority_merge: 0x030b,
        prover_kick: KICK,
        frame_header: HEADER,
    }
}

fn bytes_of(prefix: u32) -> Vec<u8> {
    prefix.to_be_bytes().to_vec()
}

fn missing() -> QuilError {
    QuilError::InvalidArgument("not this operation".to_string())
}

fn report() -> GlobalReport {
    GlobalReport {
        signed: Err(missing()),
        join: Err(missing()),
        alt_shard: Err(missing()),
        kick: Err(missing()),
        header_peek: Err(missing()),
        header: Err(missing()),
    }
}

fn signed(v: Result<bool, QuilError>) -> GlobalReport {
    GlobalReport { signed: Ok(v), ..report() }
}

fn intrinsic() -> GlobalIntrinsic {
    GlobalIntrinsic::new(types(), GLOBAL.to_vec())
}

#[test]
fn validate_pause_structural_only() {
    let gi = intrinsic();
    assert!(gi.validate(&bytes_of(PAUSE), &signed(Ok(false)), false).unwrap());
}

#[test]
fn validate_pause_with_trees_and_accept() {
    let gi = intrinsic();
    assert!(gi.validate(&bytes_of(PAUSE), &signed(Ok(true)), true).unwrap());
}

#[test]
fn validate_pause_with_trees_and_reject() {
    let gi = intrinsic();
    assert!(!gi.validate(&bytes_of(PAUSE), &signed(Ok(false)), true).unwrap());
}

#[test]
fn validate_pause_wrong_allocation_status() {
    let gi = intrinsic();
    let wrong = signed(Err(QuilError::InvalidArgument("allocation is not active".to_string())));
    assert!(gi.validate(&bytes_of(PAUSE), &wrong, true).is_err());
}

#[test]
fn validate_join_structural() {
    let gi = intrinsic();
    let r = GlobalReport {
        join: Ok(JoinChecks { structure: Ok(()), signatures: Ok(true) }),
        ..report()
    };
    assert!(gi.validate(&bytes_of(JOIN), &r, false).unwrap());
}

#[test]
fn validate_rejects_unknown_type() {
    let gi = intrinsic();
    let bad = [0xDE, 0xAD, 0xBE, 0xEF];
    let err = gi.validate(&bad, &report(), false).unwrap_err();
    assert_eq!(err.text(), "global intrinsic: unknown type prefix 0xdeadbeef");
}

#[test]
fn validate_rejects_short_input() {
    let gi = intrinsic();
    assert!(gi.validate(&[0, 0], &report(), false).is_err());
}

#[test]
fn validate_confirm_structural_only() {
    let gi = intrinsic();
    assert!(gi.validate(&bytes_of(CONFIRM), &signed(Ok(false)), false).unwrap());
}

#[test]
fn a_kick_is_checked_in_full_only_with_all_it_needs() {
    let r = || GlobalReport {
        kick: Ok(KickChecks {
            full: Err(QuilError::Crypto("no conflict".to_string())),
            equivocation: Ok(true),
        }),
        ..report()
    };
    assert!(intrinsic().validate(&bytes_of(KICK), &r(), false).unwrap());
    let full = GlobalIntrinsic::new_with_stores(types(), GLOBAL.to_vec(), true, true, false, false)
        .with_kick_verify_deps();
    let err = full.validate(&bytes_of(KICK), &r(), false).unwrap_err();
    assert_eq!(err.text(), "no conflict");
}

fn header() -> HeaderReport {
    HeaderReport {
        signature_bytes: vec![1],
        signature: Ok(AggregateSignature {
            public_key: Some(vec![5, 5]),
            signature: vec![0; 74],
            bitmask: vec![1],
        }),
        active_provers: Ok(vec![]),
        participant_indices: vec![],
        throwaway_key: Ok(()),
        aggregate: Ok(vec![5, 5]),
        attested_single: Ok(true),
        attested_with_ids: Ok(false),
    }
}

fn check_header(h: HeaderReport) -> Result<bool, String> {
    let gi = GlobalIntrinsic::new_with_frame_prover(types(), GLOBAL.to_vec())
        .with_frame_header_deps()
        .with_kick_verify_deps();
    let r = GlobalReport { header_peek: Ok(()), header: Ok(h), ..report() };
    gi.validate(&bytes_of(HEADER), &r, false).map_err(|e| e.text().to_string())
}

#[test]
fn each_step_of_a_headers_check_can_refuse() {
    assert_eq!(check_header(header()), Ok(true));
    let no_sig = HeaderReport { signature_bytes: vec![], ..header() };
    assert_eq!(
        check_header(no_sig).unwrap_err(),
        "FrameHeader op missing BLS aggregate signature"
    );
    let bad_sig = HeaderReport { signature: Err("short".to_string()), ..header() };
    assert_eq!(
        check_header(bad_sig).unwrap_err(),
        "FrameHeader: aggregate signature decode failed: short"
    );
    let no_provers = HeaderReport { active_provers: Err("db".to_string()), ..header() };
    assert_eq!(check_header(no_provers).unwrap_err(), "FrameHeader: get_active_provers: db");
    let no_key = HeaderReport { throwaway_key: Err("rng".to_string()), ..header() };
    assert_eq!(check_header(no_key).unwrap_err(), "FrameHeader: throwaway key: rng");
    let no_sum = HeaderReport { aggregate: Err("point".to_string()), ..header() };
    assert_eq!(check_header(no_sum).unwrap_err(), "FrameHeader: aggregate: point");
    let other = HeaderReport { aggregate: Ok(vec![6]), ..header() };
    assert_eq!(
        check_header(other).unwrap_err(),
        "FrameHeader: aggregate pubkey does not match signature's declared pubkey"
    );
    let refused = HeaderReport { attested_single: Ok(false), ..header() };
    assert_eq!(
        check_header(refused).unwrap_err(),
        "FrameHeader: BLS signature / multiproof verification rejected"
    );
    let failed = HeaderReport { attested_single: Err("vdf".to_string()), ..header() };
    assert_eq!(
        check_header(failed).unwrap_err(),
        "FrameHeader: BLS signature / multiproof verification: vdf"
    );
    let many = HeaderReport {
        signature: Ok(AggregateSignature {
            public_key: Some(vec![5, 5]),
            signature: vec![0; 590],
            bitmask: vec![1],
        }),
        attested_single: Ok(false),
        attested_with_ids: Ok(true),
        ..header()
    };
    assert_eq!(check_header(many), Ok(true));
}

#[test]
fn participants_keys_are_picked_by_place() {
    let active = vec![
        ActiveProver { address: vec![1], public_key: vec![10] },
        ActiveProver { address: vec![2], public_key: vec![20] },
    ];
    assert_eq!(select_participant_keys(&active, &vec![1, 7, 0]), vec![vec![10], vec![20]]);
    assert_eq!(select_participant_keys(&active, &vec![1]), vec![vec![20]]);
}

fn global_engine() -> GlobalExecutionEngine {
    GlobalExecutionEngine::new(types(), ENVELOPES, GLOBAL.to_vec())
}

fn nothing<R>() -> Envelope<R> {
    Envelope { bundle: Err(missing()), request: Err(missing()) }
}

fn validation(prefix: u32, peek: Result<(), QuilError>) -> GlobalValidation {
    GlobalValidation {
        inner_type_prefix: prefix,
        inner_bytes: bytes_of(prefix),
        signer: None,
        allocation_address: None,
        report: report(),
        peek,
    }
}

#[test]
fn global_engine_name_is_global() {
    let e = global_engine();
    assert_eq!(e.get_name(), "global");
}

#[test]
fn global_engine_validate_accepts_global_domain_address() {
    let e = global_engine();
    assert!(e.validate_message(&GLOBAL, b"", &nothing()).is_ok());
}

#[test]
fn global_engine_validate_rejects_non_global_address() {
    let e = global_engine();
    let err = e.validate_message(&[0x11u8; 32], b"", &nothing()).unwrap_err();
    assert!(matches!(err, QuilError::InvalidArgument(_)));
}

#[test]
fn global_engine_validate_rejects_short_address() {
    let e = global_engine();
    let err = e.validate_message(&[0xFFu8; 16], b"", &nothing()).unwrap_err();
    assert!(matches!(err, QuilError::InvalidArgument(_)));
}

#[test]
fn global_engine_process_message_returns_empty_result() {
    let mut e = global_engine();
    let r = match e.process_message(0, b"", &nothing()) {
        Ok(r) => r,
        Err(e) => panic!("{}", e.text()),
    };
    assert!(r.messages.is_empty());
    assert!(r.state.is_empty());
}

#[test]
fn global_engine_lock_and_unlock_are_noops() {
    let e = global_engine();
    assert!(e.lock().is_empty());
    assert!(e.unlock().is_ok());
}

#[test]
fn global_engine_validate_accepts_bundle_with_prover_ops() {
    let e = global_engine();
    let contents = Envelope {
        bundle: Ok(vec![Some(validation(PAUSE, Ok(()))), Some(validation(JOIN, Ok(())))]),
        request: Err(missing()),
    };
    assert!(e.validate_message(&GLOBAL, &bytes_of(ENVELOPES.bundle), &contents).is_ok());
}

#[test]
fn global_engine_validate_accepts_single_request_with_prover_op() {
    let e = global_engine();
    let contents = Envelope { bundle: Err(missing()), request: Ok(validation(PAUSE, Ok(()))) };
    assert!(e.validate_message(&GLOBAL, &bytes_of(ENVELOPES.request), &contents).is_ok());
}

#[test]
fn global_engine_validate_rejects_unknown_top_level_prefix() {
    let e = global_engine();
    let garbage = [0xDE, 0xAD, 0xBE, 0xEF, 0x00, 0x00, 0x00, 0x00];
    assert!(e.validate_message(&GLOBAL, &garbage, &nothing()).is_err());
}

#[test]
fn the_first_refused_operation_of_a_bundle_decides() {
    let e = global_engine();
    let contents = Envelope {
        bundle: Ok(vec![
            None,
            Some(validation(0x9999, Err(missing()))),
            Some(validation(PAUSE, Err(QuilError::Crypto("first".to_string())))),
            Some(validation(JOIN, Err(QuilError::Crypto("second".to_string())))),
        ]),
        request: Err(missing()),
    };
    let err = e.validate_message(&GLOBAL, &bytes_of(ENVELOPES.bundle), &contents).unwrap_err();
    assert_eq!(err.text(), "first");
}

fn step() -> GlobalStep {
    GlobalStep {
        one_filter: Err(missing()),
        many_filters: Err(missing()),
        join: Err(missing()),
        kick: Err(missing()),
        update: Err(missing()),
        merge: Err(missing()),
        header: Err(missing()),
        split: Err(missing()),
        shard_merge: Err(missing()),
        alt_shard: Err(missing()),
    }
}

fn request(prefix: u32, step: GlobalStep) -> GlobalRequest {
    GlobalRequest { inner_type_prefix: prefix, inner_bytes: bytes_of(prefix), step }
}

#[test]
fn global_engine_process_accepts_bundle_with_prover_ops() {
    let mut e = global_engine();
    let contents = Envelope { bundle: Ok(vec![Some(request(PAUSE, step()))]), request: Err(missing()) };
    match e.process_message(1, &bytes_of(ENVELOPES.bundle), &contents) {
        Ok(r) => assert!(r.messages.is_empty()),
        Err(e) => panic!("{}", e.text()),
    }
}

const PROVER: [u8; 32] = [0x01; 32];

fn u64_field(r: &Record, f: Field) -> Option<u64> {
    r.number(f)
}

fn prover_record(pubkey: &[u8], seniority: u64) -> Record {
    let mut r = Record::new();
    r.set(Field::PublicKey, pubkey.to_vec());
    r.set(Field::Status, vec![0]);
    r.set(Field::Seniority, seniority.to_be_bytes().to_vec());
    r
}

fn put(state: &mut State, address: &[u8], r: Record) {
    state.set(&GLOBAL, address, Layer::VertexAdds, 1, GlobalValue::Fields(r));
}

fn read(state: &State, address: &[u8]) -> Option<Record> {
    match state.get(&GLOBAL, address, Layer::VertexAdds) {
        Some(v) => Some(v.record()),
        None => None,
    }
}

fn target(pubkey: Vec<u8>, marker: u8) -> MergeTarget {
    MergeTarget { key_type: 0, public_key: pubkey, spent_address: Ok(vec![marker; 32]) }
}

fn merge(address: &[u8], targets: Vec<MergeTarget>, aggregated: u64) -> MergeOp {
    MergeOp { address: Some(address.to_vec()), merge_targets: targets, aggregated_seniority: aggregated }
}

#[test]
fn merge_aggregates_seniority_via_sum() {
    let mut state = State::new();
    put(&mut state, &PROVER, prover_record(&vec![0xAAu8; 585], 100));
    let targets = vec![target(vec![0x11u8; 57], 0x71), target(vec![0x22u8; 57], 0x72)];
    assert_eq!(
        merge_peer_ids(&targets),
        vec![
            ed448_pubkey_to_peer_id_string(&[0x11u8; 57]),
            ed448_pubkey_to_peer_id_string(&[0x22u8; 57]),
        ]
    );
    let expected_merge = 55;
    let op = merge(&PROVER, targets, expected_merge);
    assert!(invoke_seniority_merge(&GLOBAL.to_vec(), &mut state, 2, &op).is_ok());
    let r = read(&state, &PROVER).unwrap();
    assert_eq!(u64_field(&r, Field::Seniority), Some(100u64.saturating_add(expected_merge)));
}

fn marker(state: &State, address: &[u8]) -> Option<Vec<u8>> {
    read(state, address).and_then(|r| r.get(Field::ProverAddress).map(|b| b.clone()))
}

#[test]
fn merge_skips_already_claimed_spent_marker() {
    let mut state = State::new();
    let claimer = [0x0Au8; 32];
    let attacker = [0x0Bu8; 32];
    put(&mut state, &claimer, prover_record(&vec![0xAAu8; 585], 50));
    put(&mut state, &attacker, prover_record(&vec![0xBBu8; 585], 0));
    let spent = [0x73u8; 32];
    let op1 = merge(&claimer, vec![target(vec![0x33u8; 57], 0x73)], 0);
    assert!(invoke_seniority_merge(&GLOBAL.to_vec(), &mut state, 2, &op1).is_ok());
    assert_eq!(
        marker(&state, &spent).as_deref(),
        Some(&claimer[..]),
        "first merge must stamp the marker with the claimer's address",
    );
    let op2 = merge(&attacker, vec![target(vec![0x33u8; 57], 0x73)], 0);
    assert!(invoke_seniority_merge(&GLOBAL.to_vec(), &mut state, 3, &op2).is_ok());
    assert_eq!(marker(&state, &spent).as_deref(), Some(&claimer[..]));
}

#[test]
fn merge_overwrites_legacy_empty_marker() {
    let mut state = State::new();
    put(&mut state, &PROVER, prover_record(&vec![0xCCu8; 585], 0));
    let spent = [0x74u8; 32];
    state.set(&GLOBAL, &spent, Layer::VertexAdds, 1, GlobalValue::Empty);
    assert!(marker(&state, &spent).is_none(), "pre-seeded marker must have no ProverAddress");
    let op = merge(&PROVER, vec![target(vec![0x44u8; 57], 0x74)], 0);
    assert!(invoke_seniority_merge(&GLOBAL.to_vec(), &mut state, 2, &op).is_ok());
    let stored = marker(&state, &spent)
        .expect("legacy empty marker should be overwritten with ProverAddress");
    assert_eq!(stored, PROVER.to_vec());
}

fn allocation_record(status: u8, joined: u64) -> Record {
    let mut r = Record::new();
    r.set(Field::Status, vec![status]);
    r.set(Field::JoinFrameNumber, joined.to_be_bytes().to_vec());
    r
}

fn link(address: &[u8]) -> Vec<u8> {
    let mut l = GLOBAL.to_vec();
    l.extend_from_slice(address);
    l
}

#[test]
fn kick_with_two_allocations_marks_both_status_4() {
    let mut state = State::new();
    put(&mut state, &PROVER, prover_record(&vec![0xAAu8; 585], 100));
    let (a, b) = ([0x11u8; 32], [0x22u8; 32]);
    put(&mut state, &a, allocation_record(0, 1));
    put(&mut state, &b, allocation_record(0, 1));
    state.set(
        &GLOBAL,
        &PROVER,
        Layer::HyperedgeAdds,
        1,
        GlobalValue::Links(vec![link(&a), link(&b)]),
    );
    assert!(invoke_kick(&GLOBAL.to_vec(), &mut state, 42, &Ok(PROVER.to_vec())).is_ok());
    let status = |addr: &[u8]| read(&state, addr).and_then(|r| r.first_byte(Field::Status));
    let frame = |addr: &[u8]| read(&state, addr).and_then(|r| r.number(Field::KickFrameNumber));
    assert_eq!(status(&PROVER), Some(STATUS_KICKED), "prover vertex must have Status=4 after kick");
    assert_eq!(status(&a), Some(STATUS_KICKED), "allocation A must have Status=4 after kick");
    assert_eq!(status(&b), Some(STATUS_KICKED), "allocation B must have Status=4 after kick");
    assert_eq!(frame(&a), Some(42));
    assert_eq!(frame(&b), Some(42));
}

fn join_op(pubkey: Vec<u8>, allocations: Vec<[u8; 32]>, targets: Vec<MergeTarget>, aggregated: u64) -> JoinOp {
    JoinOp {
        public_key: pubkey.clone(),
        prover_address: Ok(PROVER.to_vec()),
        allocation_addresses: allocations.iter().map(|a| Ok(a.to_vec())).collect(),
        merge_targets: targets,
        delegate_address: vec![],
        aggregated_seniority: aggregated,
        materialized: Ok(JoinOutput {
            prover: prover_record(&pubkey, 0),
            allocations: allocations
                .iter()
                .map(|a| RecordWrite { address: a.to_vec(), record: allocation_record(0, 10) })
                .collect(),
        }),
        reward_address: Ok(vec![0x99; 32]),
    }
}

#[test]
fn join_creates_hyperedge_linking_prover_to_allocations() {
    let mut state = State::new();
    let (a, b) = ([0x33u8; 32], [0x44u8; 32]);
    let op = join_op(vec![0xBBu8; 585], vec![a, b], vec![], 0);
    assert!(invoke_join(&GLOBAL.to_vec(), &mut state, 10, &op).is_ok());
    match state.get(&GLOBAL, &PROVER, Layer::HyperedgeAdds) {
        Some(GlobalValue::Links(links)) => {
            assert!(!links.is_empty(), "hyperedge blob must be populated");
            assert_eq!(
                *links,
                vec![link(&a), link(&b)],
                "hyperedge must enumerate exactly the join's allocations"
            );
        }
        _ => panic!("join must write a hyperedge for the prover"),
    }
    let reward = read(&state, &[0x99; 32]).unwrap();
    assert_eq!(reward.get(Field::DelegateAddress), Some(&PROVER.to_vec()));
    assert_eq!(reward.get(Field::Balance), Some(&vec![0u8; 32]));
}

#[test]
fn join_with_merge_targets_aggregates_seniority() {
    let mut state = State::new();
    let mt_pubkey = vec![0x55u8; 57];
    let expected: u64 = 1234;
    let frame_number: u64 = 0xDEAD_BEEF;
    assert_ne!(
        expected, frame_number,
        "test setup must distinguish frame_number from aggregated value",
    );
    let op = join_op(
        vec![0xEEu8; 585],
        vec![[0x66u8; 32]],
        vec![target(mt_pubkey.clone(), 0x75)],
        expected,
    );
    let plan = match plan_join(&GLOBAL.to_vec(), &state, frame_number, &op) {
        Ok(p) => p,
        Err(e) => panic!("{}", e.text()),
    };
    assert_eq!(plan.peers, vec![ed448_pubkey_to_peer_id_string(&mt_pubkey)]);
    assert!(invoke_join(&GLOBAL.to_vec(), &mut state, frame_number, &op).is_ok());
    let r = read(&state, &PROVER).expect("join must create a prover vertex");
    let bytes = r.get(Field::Seniority).expect("seniority field").clone();
    assert_eq!(bytes.len(), 8);
    let stored = u64::from_be_bytes(bytes.try_into().unwrap());
    assert_eq!(stored, expected);
    assert_eq!(marker(&state, &[0x75; 32]), Some(PROVER.to_vec()));
}

#[test]
fn finding3_rejoin_gate_must_refuse_live_active_allocation() {
    let mut state = State::new();
    let pubkey = vec![0x33u8; 64];
    let allocation = [0x22u8; 32];
    put(&mut state, &PROVER, prover_record(&pubkey, 0));
    let active = allocation_record(1, 100);
    assert!(active.allocation_info().unwrap().status == ProverStatus::Active);
    put(&mut state, &allocation, active);
    let op = join_op(pubkey, vec![allocation], vec![], 0);
    let result = invoke_join(&GLOBAL.to_vec(), &mut state, 2000, &op);
    assert!(result.is_err());
}

#[test]
fn only_stale_allocations_are_joined_anew() {
    let pubkey = vec![0x33u8; 64];
    let allocation = [0x22u8; 32];
    let try_join = |status: u8, joined: u64, frame: u64| {
        let mut state = State::new();
        put(&mut state, &PROVER, prover_record(&pubkey, 0));
        put(&mut state, &allocation, allocation_record(status, joined));
        let op = join_op(pubkey.clone(), vec![allocation], vec![], 0);
        invoke_join(&GLOBAL.to_vec(), &mut state, frame, &op).map_err(|e| e.text().to_string())
    };
    assert_eq!(
        try_join(0, 100, 819).unwrap_err(),
        "invoke_step join: allocation still active (status=0, frame_since_join=719)"
    );
    assert!(try_join(0, 100, 820).is_ok());
    assert!(try_join(4, 100, 101).is_ok());
}

#[test]
fn a_kicked_prover_cannot_join() {
    let mut state = State::new();
    let mut r = prover_record(&[1; 585], 0);
    r.set(Field::KickFrameNumber, 7u64.to_be_bytes().to_vec());
    put(&mut state, &PROVER, r);
    let op = join_op(vec![1; 585], vec![], vec![], 0);
    let err = invoke_join(&GLOBAL.to_vec(), &mut state, 9, &op).unwrap_err();
    assert_eq!(err.text(), "invoke_step join: prover has been previously kicked");
    let none = join_op(vec![], vec![], vec![], 0);
    let err = invoke_join(&GLOBAL.to_vec(), &mut state, 9, &none).unwrap_err();
    assert_eq!(err.text(), "invoke_step join: no public key");
}

#[test]
fn a_join_keeps_the_greater_seniority() {
    let mut state = State::new();
    put(&mut state, &PROVER, prover_record(&[1; 585], 900));
    let op = join_op(vec![1; 585], vec![], vec![target(vec![5; 57], 0x76)], 100);
    assert!(invoke_join(&GLOBAL.to_vec(), &mut state, 9, &op).is_ok());
    assert_eq!(read(&state, &PROVER).unwrap().number(Field::Seniority), Some(900));
}

fn filter_step(verified: Result<bool, QuilError>) -> FilterStep {
    FilterStep {
        allocation_address: Ok(vec![0x22; 32]),
        verified,
        mutated: Ok(allocation_record(2, 100)),
    }
}

#[test]
fn a_step_on_an_allocation_sets_both_standings() {
    let mut state = State::new();
    let d = GLOBAL.to_vec();
    let p = Some(PROVER.to_vec());
    let text = |s: &mut State, a: &Option<Vec<u8>>, f: FilterStep| {
        invoke_filter_op(&d, s, 5, a, &f).unwrap_err().text().to_string()
    };
    assert_eq!(
        text(&mut state, &None, filter_step(Ok(true))),
        "invoke_step: prover address too short"
    );
    assert_eq!(text(&mut state, &p, filter_step(Ok(true))), "invoke_step: prover not found");
    put(&mut state, &PROVER, allocation_record(0, 0));
    assert_eq!(text(&mut state, &p, filter_step(Ok(true))), "invoke_step: prover has no PublicKey");
    put(&mut state, &PROVER, prover_record(&[1; 585], 3));
    assert_eq!(text(&mut state, &p, filter_step(Ok(true))), "invoke_step: allocation not found");
    put(&mut state, &[0x22; 32], allocation_record(1, 100));
    assert_eq!(
        text(&mut state, &p, filter_step(Ok(false))),
        "invoke_step: signature verification failed at materialize"
    );
    assert!(invoke_filter_op(&d, &mut state, 5, &p, &filter_step(Ok(true))).is_ok());
    assert_eq!(read(&state, &[0x22; 32]).unwrap().first_byte(Field::Status), Some(2));
    let prover = read(&state, &PROVER).unwrap();
    assert_eq!(prover.first_byte(Field::Status), Some(2));
    assert_eq!(prover.number(Field::Seniority), Some(3));
}

#[test]
fn an_operation_on_an_allocation_is_planned_from_the_records() {
    let mut state = State::new();
    let d = GLOBAL.to_vec();
    let p = Some(PROVER.to_vec());
    let at = || Ok(vec![0x22; 32]);
    put(&mut state, &PROVER, prover_record(&[1; 585], 3));
    let err = match plan_filter_op(&d, &state, &p, &at()) {
        Ok(_) => panic!("there is no allocation"),
        Err(e) => e,
    };
    assert_eq!(err.text(), "invoke_step: allocation not found");
    put(&mut state, &[0x22; 32], allocation_record(1, 100));
    let plan = match plan_filter_op(&d, &state, &p, &at()) {
        Ok(plan) => plan,
        Err(e) => panic!("{}", e.text()),
    };
    assert_eq!(plan.prover_address, PROVER.to_vec());
    assert_eq!(plan.allocation_address, vec![0x22; 32]);
    assert_eq!(plan.prover.number(Field::Seniority), Some(3));
    assert_eq!(plan.allocation.first_byte(Field::Status), Some(1));
    // Once an operation was applied, the next one works on what it left.
    assert!(invoke_filter_op(&d, &mut state, 5, &p, &filter_step(Ok(true))).is_ok());
    match plan_filter_op(&d, &state, &p, &at()) {
        Ok(plan) => assert_eq!(plan.allocation.first_byte(Field::Status), Some(2)),
        Err(e) => panic!("{}", e.text()),
    }
    assert_eq!(state.committed, 0);
}

#[test]
fn requests_of_a_bundle_stand_alone() {
    let mut state = State::new();
    put(&mut state, &PROVER, prover_record(&[1; 585], 3));
    put(&mut state, &[0x22; 32], allocation_record(1, 100));
    let mut e = GlobalExecutionEngine::new_with_intrinsic(
        types(),
        ENVELOPES,
        GLOBAL.to_vec(),
        intrinsic(),
        state,
    );
    let pause = |ok| {
        let one = OneFilterOp { address: Some(PROVER.to_vec()), step: filter_step(Ok(ok)) };
        request(PAUSE, GlobalStep { one_filter: Ok(one), ..step() })
    };
    let contents = Envelope {
        bundle: Ok(vec![Some(pause(false)), None, Some(pause(true))]),
        request: Err(missing()),
    };
    assert!(e.process_message(5, &bytes_of(ENVELOPES.bundle), &contents).is_ok());
    let s = e.state.as_ref().unwrap();
    assert_eq!(read(s, &PROVER).unwrap().first_byte(Field::Status), Some(2));
    assert_eq!(s.committed, s.changes.len());
    let broken = nothing();
    assert!(e.process_message(5, &bytes_of(ENVELOPES.bundle), &broken).is_err());
    assert!(e.process_message(5, &bytes_of(0x7777), &broken).is_err());
}

#[test]
fn many_filters_are_taken_one_by_one() {
    let mut state = State::new();
    put(&mut state, &PROVER, prover_record(&[1; 585], 3));
    put(&mut state, &[0x22; 32], allocation_record(1, 100));
    let many = ManyFilterOp { address: Some(PROVER.to_vec()), steps: vec![filter_step(Ok(true)), filter_step(Ok(false))] };
    let s = GlobalStep { many_filters: Ok(many), ..step() };
    let err = match intrinsic().invoke_step(&mut state, 5, &bytes_of(CONFIRM), &s) {
        Ok(_) => panic!("the second step is refused"),
        Err(e) => e,
    };
    assert_eq!(err.text(), "invoke_step: signature verification failed at materialize");
    assert_eq!(read(&state, &[0x22; 32]).unwrap().first_byte(Field::Status), Some(2));
}

#[test]
fn a_prover_may_be_updated_if_its_signature_holds() {
    let mut state = State::new();
    put(&mut state, &PROVER, prover_record(&[1; 585], 3));
    let up = |v| {
        GlobalStep {
            update: Ok(ProverUpdateOp {
                address: Some(PROVER.to_vec()),
                verified: Ok(v),
                writes: Ok(vec![RecordWrite { address: vec![0x55; 32], record: allocation_record(1, 1) }]),
            }),
            ..step()
        }
    };
    assert!(intrinsic().invoke_step(&mut state, 5, &bytes_of(0x0307), &up(false)).is_err());
    assert!(read(&state, &[0x55; 32]).is_none());
    assert!(intrinsic().invoke_step(&mut state, 5, &bytes_of(0x0307), &up(true)).is_ok());
    assert!(read(&state, &[0x55; 32]).is_some());
}

#[test]
fn shards_are_changed_only_where_there_is_a_store() {
    let paths = || vec![ShardPath { shard_key: vec![1], path: vec![2, 3] }];
    let s = GlobalStep { split: Ok(Ok(paths())), shard_merge: Ok(Ok(paths())), ..step() };
    let with = GlobalIntrinsic::new_with_stores(types(), GLOBAL.to_vec(), false, false, true, true);
    let mut state = State::new();
    match with.invoke_step(&mut state, 5, &bytes_of(SPLIT), &s) {
        Ok(ShardWork::Put(p)) => assert_eq!((p[0].shard_key.clone(), p[0].path.clone()), (vec![1], vec![2, 3])),
        _ => panic!("a split adds shards"),
    }
    match with.invoke_step(&mut state, 5, &bytes_of(SHARD_MERGE), &s) {
        Ok(ShardWork::Remove(p)) => assert_eq!(p.len(), 1),
        _ => panic!("a merge takes shards away"),
    }
    match intrinsic().invoke_step(&mut state, 5, &bytes_of(SPLIT), &s) {
        Ok(ShardWork::Nothing) => {}
        _ => panic!("without a store nothing happens"),
    }
}

#[test]
fn header_credits_are_planned() {
    let credit = || HeaderCredit {
        active_provers: Ok(()),
        attestation: Ok(vec![0, 2, 300]),
        shard: Some(ShardSize { size: BigSize { negative: false, magnitude: vec![1, 0] }, leaf_count: 3 }),
        world_size: BigSize { negative: false, magnitude: vec![9; 9] },
        credited: Ok(vec![]),
    };
    assert!(matches!(intrinsic().plan_credit(&credit()), Ok(None)));
    let unproved = GlobalIntrinsic { hypergraph: true, ..intrinsic().with_frame_header_deps() };
    assert!(matches!(unproved.plan_credit(&credit()), Ok(None)));
    let bare = unproved.with_frame_prover();
    let err = match bare.plan_credit(&credit()) {
        Err(e) => e,
        Ok(_) => panic!("the attestation cannot be checked"),
    };
    assert_eq!(
        err.text(),
        "invoke_frame_header: missing frame_prover or bls_constructor for attestation verify"
    );
    let gi = intrinsic().with_frame_header_deps().with_frame_prover().with_kick_verify_deps();
    let bad = HeaderCredit { attestation: Err("bad vdf".to_string()), ..credit() };
    let err = match gi.plan_credit(&bad) {
        Err(e) => e,
        Ok(_) => panic!("the attestation is refused"),
    };
    assert_eq!(err.text(), "invoke_frame_header: frame header attestation invalid: bad vdf");
    let planned = match gi.plan_credit(&credit()) {
        Ok(Some(c)) => c,
        _ => panic!("a credit is due"),
    };
    assert_eq!(planned.state_size, 256);
    assert_eq!(planned.world_size, 0);
    assert_eq!(planned.shard_count, 3);
    assert_eq!(planned.participants, vec![0, 2]);
    assert_eq!(places_to_bytes(&vec![255, 256]), vec![255]);
    assert_eq!(size_or_zero(&BigSize { negative: true, magnitude: vec![1] }), 0);
    assert_eq!(size_or_zero(&BigSize { negative: false, magnitude: vec![255; 8] }), u64::MAX);
}

#[test]
fn trees_are_looked_up_by_the_signer() {
    let t = types();
    assert!(needs_allocation_tree(&t, PAUSE));
    assert!(!needs_allocation_tree(&t, JOIN));
    assert_eq!(extract_prover_address(&t, PAUSE, &Some(PROVER.to_vec())), Some(PROVER.to_vec()));
    assert_eq!(extract_prover_address(&t, PAUSE, &None), None);
    let mut state = State::new();
    put(&mut state, &PROVER, prover_record(&[1; 585], 0));
    put(&mut state, &[0x22; 32], allocation_record(1, 1));
    let v = GlobalValidation {
        signer: Some(PROVER.to_vec()),
        allocation_address: Some(vec![0x22; 32]),
        ..validation(PAUSE, Ok(()))
    };
    let (p, a) = load_trees_for_validation(&t, &GLOBAL.to_vec(), &state, &v);
    assert!(p.is_some() && a.is_some());
    let (p, a) = load_trees_for_validation(&t, &GLOBAL.to_vec(), &State::new(), &v);
    assert!(p.is_none() && a.is_none());
}

#[test]
fn an_allocations_record_is_read_field_by_field() {
    let mut r = allocation_record(3, 100);
    r.set(Field::Epoch, 4u64.to_be_bytes().to_vec());
    r.set(Field::LeaveFrameNumber, vec![1, 2]);
    r.set(Field::ConfirmationFilter, vec![7]);
    let i = r.allocation_info().unwrap();
    assert!(i.status == ProverStatus::Leaving);
    assert_eq!((i.join_frame_number, i.epoch, i.leave_frame_number), (100, 4, 0));
    assert_eq!(i.confirmation_filter, vec![7]);
    assert!(Record::new().allocation_info().is_none());
    for (b, s) in [
        (0, ProverStatus::Joining),
        (1, ProverStatus::Active),
        (2, ProverStatus::Paused),
        (4, ProverStatus::Rejected),
        (5, ProverStatus::Kicked),
        (6, ProverStatus::Unknown),
    ] {
        assert!(allocation_record(b, 0).allocation_info().unwrap().status == s);
    }
}

#[test]
fn header_dependencies_are_installed_on_the_intrinsic() {
    let mut bare = global_engine();
    bare.install_frame_header_deps();
    assert!(bare.intrinsic.is_none());
    let mut e = GlobalExecutionEngine::new_with_intrinsic(
        types(),
        ENVELOPES,
        GLOBAL.to_vec(),
        intrinsic(),
        State::new(),
    );
    e.install_frame_header_deps();
    let g = e.intrinsic.as_ref().unwrap();
    assert!(g.prover_registry && g.reward_issuance && g.frame_prover);
    assert!(g.bls_constructor && g.hypergraph && g.inclusion_prover);
}
