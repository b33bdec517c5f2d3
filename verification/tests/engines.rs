use quil_node::auth::{
    check_op_signature, extract_hyperedge_id, signature_to_check, verify_op_signature, AuthCheck, HyperedgeAdd,
    HyperedgeRemove, HypergraphConfigResolver, OpForAuth, SignedMessage, ValidSignatures, VertexAdd,
    VertexRemove, WriteKeys,
};
use quil_node::assoc::KeyMap;
use quil_node::compute_engine::{
    finalize_domain, ComputeExecutionEngine, ComputeReport, ComputeRequest, ComputeTypes,
    PlacedWrite,
};
use quil_node::domains::{EngineType, ExecutionMode, SystemDomains};
use quil_node::envelope::{Envelope, EnvelopeTypes};
use quil_node::error::QuilError;
use quil_node::global_execution::GlobalExecutionEngine;
use quil_node::global_intrinsic::GlobalTypes;
use quil_node::hypergraph_engine::{
    auth_check_to_result, HypergraphExecutionEngine, HypergraphOp, HypergraphRequest,
    HypergraphTypes,
};
use quil_node::routing::{accepts, check_request_for_engine, RequestVariant};
use quil_node::state::{HypergraphState, Layer};
use quil_node::token_engine::{ProcessMessageResult, TokenExecutionEngine};
use quil_node::token_ops::TokenTypes;

const ENVELOPES: EnvelopeTypes = EnvelopeTypes { bundle: 0x0313, request: 0x0312 };
const VERTEX_ADD: u32 = 0x0401;
const VERTEX_REMOVE: u32 = 0x0402;
const HYPEREDGE_ADD: u32 = 0x0403;
const HYPEREDGE_REMOVE: u32 = 0x0404;

fn bytes_of(tag: u32) -> Vec<u8> {
    let mut b = tag.to_be_bytes().to_vec();
    b.extend([0; 8]);
    b
}

fn missing() -> QuilError {
    QuilError::InvalidArgument("not this operation".to_string())
}

fn nothing<R>() -> Envelope<R> {
    Envelope { bundle: Err(missing()), request: Err(missing()) }
}

fn bundle<R>(rs: Vec<R>) -> Envelope<R> {
    Envelope { bundle: Ok(rs.into_iter().map(Some).collect()), request: Err(missing()) }
}

fn single<R>(r: R) -> Envelope<R> {
    Envelope { bundle: Err(missing()), request: Ok(r) }
}

fn done(r: Result<ProcessMessageResult, QuilError>) -> ProcessMessageResult {
    match r {
        Ok(p) => p,
        Err(e) => panic!("{}", e.text()),
    }
}

#[test]
fn engine_type_as_str_covers_all_variants() {
    assert_eq!(EngineType::Global.as_str(), "global");
    assert_eq!(EngineType::Token.as_str(), "token");
    assert_eq!(EngineType::Compute.as_str(), "compute");
    assert_eq!(EngineType::Hypergraph.as_str(), "hypergraph");
}

#[test]
fn engine_type_variants_are_distinct() {
    let all = [
        EngineType::Global,
        EngineType::Token,
        EngineType::Compute,
        EngineType::Hypergraph,
    ];
    for (i, a) in all.iter().enumerate() {
        for (j, b) in all.iter().enumerate() {
            if i == j {
                assert_eq!(a, b);
            } else {
                assert_ne!(a, b);
            }
        }
    }
}

#[test]
fn execution_mode_variants_are_distinct() {
    assert_ne!(ExecutionMode::Global, ExecutionMode::Application);
}

fn token_engine(mode: ExecutionMode) -> TokenExecutionEngine {
    let types = TokenTypes {
        prefixes: vec![],
        transaction: 0x0501,
        mint_transaction: 0x0502,
        pending_transaction: 0x0503,
        token_deploy: 0x0504,
        token_update: 0x0505,
        mint_transaction_input: 0x0506,
        pending_transaction_input: 0x0507,
        mint_transaction_output: 0x0508,
        pending_transaction_output: 0x0509,
    };
    TokenExecutionEngine::new(mode, ENVELOPES, types, vec![0x11; 32], vec![0xff; 32])
}

#[test]
fn token_engine_name_is_token() {
    let e = token_engine(ExecutionMode::Application);
    assert_eq!(e.get_name(), "token");
}

#[test]
fn token_engine_accepts_any_address() {
    let e = token_engine(ExecutionMode::Application);
    assert!(e.validate_message(&[0u8; 32], b"", &nothing()).is_ok());
    assert!(e.validate_message(&[0xFFu8; 32], b"", &nothing()).is_ok());
}

#[test]
fn token_engine_can_be_constructed_in_both_modes() {
    let app = token_engine(ExecutionMode::Application);
    let global = token_engine(ExecutionMode::Global);
    assert_eq!(app.get_name(), "token");
    assert_eq!(global.get_name(), "token");
}

const CODE_DEPLOY: u32 = 0x0601;
const CODE_EXECUTE: u32 = 0x0602;
const CODE_FINALIZE: u32 = 0x0603;
const COMPUTE_OTHER: u32 = 0x0604;

fn compute_types() -> ComputeTypes {
    ComputeTypes {
        prefixes: vec![CODE_DEPLOY, CODE_EXECUTE, CODE_FINALIZE, COMPUTE_OTHER],
        code_deployment: CODE_DEPLOY,
        code_execute: CODE_EXECUTE,
        code_finalize: CODE_FINALIZE,
    }
}

fn compute_engine() -> ComputeExecutionEngine {
    ComputeExecutionEngine::new(ExecutionMode::Application, ENVELOPES, compute_types())
}

#[test]
fn compute_engine_name_is_compute() {
    let e = compute_engine();
    assert_eq!(e.get_name(), "compute");
}

#[test]
fn compute_engine_process_returns_empty() {
    let mut e = compute_engine();
    let r = done(e.process_message(0, b"", &nothing()));
    assert!(r.messages.is_empty());
    assert!(r.state.is_empty());
}

fn compute_request(tag: u32, verified: Result<bool, QuilError>, address: u8) -> ComputeRequest {
    ComputeRequest {
        inner_type_prefix: tag,
        peek: Err(QuilError::Crypto("peek".to_string())),
        decoded: Ok(ComputeReport {
            verified,
            writes: Ok(vec![PlacedWrite { domain: vec![1; 32], address: vec![address], blob: vec![7] }]),
        }),
    }
}

#[test]
fn a_failed_computation_ends_the_bundle() {
    let mut e = ComputeExecutionEngine::new_with_state(
        ExecutionMode::Application,
        ENVELOPES,
        compute_types(),
        HypergraphState::new(),
    )
    .with_crypto();
    let contents = bundle(vec![
        compute_request(CODE_EXECUTE, Ok(true), 1),
        compute_request(0x9999, Ok(false), 2),
        compute_request(CODE_EXECUTE, Ok(false), 3),
        compute_request(CODE_EXECUTE, Ok(true), 4),
    ]);
    let err = match e.process_message(1, &bytes_of(ENVELOPES.bundle), &contents) {
        Ok(_) => panic!("the third request fails"),
        Err(e) => e,
    };
    assert_eq!(err.text(), "code execute: verify failed");
    let s = e.state.as_ref().unwrap();
    let at = |a: u8| s.get(&[1; 32], &[a], Layer::VertexAdds).is_some();
    assert!(at(1) && !at(2) && !at(3) && !at(4));
    let other = single(compute_request(COMPUTE_OTHER, Ok(true), 5));
    assert!(e.process_message(1, &bytes_of(ENVELOPES.request), &other).is_err());
    assert!(e.validate_message(&bytes_of(ENVELOPES.request), &other).is_err());
    assert!(e.process_message(1, &bytes_of(0x9999), &other).is_err());
}

#[test]
fn a_finalization_is_for_the_addresses_domain() {
    assert_eq!(finalize_domain(&[3; 40]), vec![3; 32]);
    assert_eq!(finalize_domain(&[3; 31]), vec![0; 32]);
}

fn hypergraph_types() -> HypergraphTypes {
    HypergraphTypes {
        prefixes: vec![VERTEX_ADD, VERTEX_REMOVE, HYPEREDGE_ADD, HYPEREDGE_REMOVE],
        vertex_add: VERTEX_ADD,
        vertex_remove: VERTEX_REMOVE,
        hyperedge_remove: HYPEREDGE_REMOVE,
        vertex_remove_cost: 64,
        hyperedge_remove_cost: 64,
    }
}

fn system_domains() -> SystemDomains {
    SystemDomains { global: vec![0xff; 32], compute: vec![0xcc; 32], quil_token: vec![0x11; 32] }
}

fn hypergraph_engine() -> HypergraphExecutionEngine {
    HypergraphExecutionEngine::new(
        ExecutionMode::Application,
        ENVELOPES,
        hypergraph_types(),
        system_domains(),
    )
}

fn with_state() -> HypergraphExecutionEngine {
    HypergraphExecutionEngine::new_with_state(
        ExecutionMode::Application,
        ENVELOPES,
        hypergraph_types(),
        system_domains(),
        HypergraphState::new(),
    )
}

fn address_of(domain: u8, data: u8) -> Vec<u8> {
    let mut a = vec![domain; 32];
    a.extend([data; 32]);
    a
}

fn no_signatures() -> ValidSignatures {
    ValidSignatures { items: vec![] }
}

fn write_key(domain: &[u8], key: &[u8]) -> WriteKeys {
    WriteKeys { keys: KeyMap { entries: vec![(domain.to_vec(), key.to_vec())] } }
}

fn vertex_add() -> HypergraphRequest {
    HypergraphRequest {
        inner_type_prefix: VERTEX_ADD,
        validated: Ok(HypergraphOp::VertexAdd {
            op: VertexAdd {
                domain: vec![0xAAu8; 32],
                data_address: vec![0xBBu8; 32],
                data: vec![1],
                signature: vec![0xCCu8; 114],
                message: Ok(vec![5]),
            },
            tree: Ok(vec![9, 9]),
        }),
        lock_writes: Some(Ok(vec![address_of(0xAA, 0xBB)])),
        valid: no_signatures(),
        vertex_add_cost: Ok(2 * 55),
    }
}

fn vertex_remove() -> HypergraphRequest {
    HypergraphRequest {
        inner_type_prefix: VERTEX_REMOVE,
        validated: Ok(HypergraphOp::VertexRemove(VertexRemove {
            domain: vec![0xAAu8; 32],
            data_address: vec![0xBBu8; 32],
            signature: vec![0xCCu8; 114],
            message: Ok(vec![5]),
        })),
        lock_writes: Some(Ok(vec![address_of(0xAA, 0xBB)])),
        valid: no_signatures(),
        vertex_add_cost: Err(missing()),
    }
}

#[test]
fn hypergraph_engine_name_is_hypergraph() {
    let e = hypergraph_engine();
    assert_eq!(e.get_name(), "hypergraph");
}

#[test]
fn hypergraph_engine_process_rejects_short_message() {
    let mut e = hypergraph_engine();
    assert!(e.process_message(0, &[0u8; 32], b"", &nothing()).is_err());
}

fn global_engine() -> GlobalExecutionEngine {
    let types = GlobalTypes {
        prefixes: vec![],
        prover_pause: 1,
        prover_resume: 2,
        prover_leave: 3,
        prover_confirm: 4,
        prover_reject: 5,
        prover_join: 6,
        prover_update: 7,
        alt_shard_update: 8,
        shard_split: 9,
        shard_merge: 10,
        seniority_merge: 11,
        prover_kick: 12,
        frame_header: 13,
    };
    GlobalExecutionEngine::new(types, ENVELOPES, vec![0xff; 32])
}

#[test]
fn all_engines_lock_unlock_are_noops() {
    let g = global_engine();
    let t = token_engine(ExecutionMode::Application);
    let c = compute_engine();
    let h = hypergraph_engine();
    assert!(g.lock().is_empty());
    assert!(g.unlock().is_ok());
    assert!(t.lock().is_empty());
    assert!(t.unlock().is_ok());
    assert!(c.lock().is_empty());
    assert!(c.unlock().is_ok());
    assert!(h.lock(b"", &Err(missing()), &None).unwrap().is_empty());
    assert!(h.unlock().is_ok());
}

#[test]
fn global_engine_get_cost_is_zero() {
    assert_eq!(global_engine().get_cost(b"any-message").unwrap(), 0);
}

#[test]
fn all_engines_report_zero_cost() {
    assert_eq!(global_engine().get_cost(b"").unwrap(), 0);
    assert_eq!(token_engine(ExecutionMode::Application).get_cost(b"", &Err(missing())).unwrap(), 0);
    assert_eq!(compute_engine().get_cost(b"").unwrap(), 0);
    assert_eq!(hypergraph_engine().get_cost(b"", &Err(missing())).unwrap(), 0);
}

#[test]
fn hypergraph_engine_validate_accepts_valid_vertex_add_bundle() {
    let e = hypergraph_engine();
    assert!(e.validate_message(&bytes_of(ENVELOPES.bundle), &bundle(vec![vertex_add()])).is_ok());
}

#[test]
fn hypergraph_engine_validate_rejects_structurally_invalid_op_in_bundle() {
    let e = hypergraph_engine();
    let bad_va = HypergraphRequest { validated: Err(missing()), ..vertex_add() };
    assert!(e.validate_message(&bytes_of(ENVELOPES.bundle), &bundle(vec![bad_va])).is_err());
}

#[test]
fn hypergraph_engine_validate_accepts_single_request() {
    let e = hypergraph_engine();
    assert!(e.validate_message(&bytes_of(ENVELOPES.request), &single(vertex_add())).is_ok());
}

#[test]
fn hypergraph_engine_process_accepts_single_request() {
    let mut e = hypergraph_engine();
    assert!(e
        .process_message(1, &[0u8; 32], &bytes_of(ENVELOPES.request), &single(vertex_add()))
        .is_ok());
}

#[test]
fn hypergraph_engine_process_accepts_bundle() {
    let mut e = hypergraph_engine();
    let contents = bundle(vec![vertex_add(), vertex_remove()]);
    let r = done(e.process_message(1, &[0u8; 32], &bytes_of(ENVELOPES.bundle), &contents));
    assert!(r.messages.is_empty());
}

#[test]
fn hypergraph_engine_lock_extracts_addresses_from_bundle() {
    let e = hypergraph_engine();
    let rs = Ok(vec![Some(vertex_add()), Some(vertex_remove())]);
    let addrs = e.lock(&bytes_of(ENVELOPES.bundle), &rs, &None).unwrap();
    assert!(!addrs.is_empty());
    for addr in &addrs {
        assert_eq!(addr.len(), 64); // domain(32) + data_address(32)
    }
}

#[test]
fn hypergraph_engine_get_cost_for_vertex_add_request() {
    let e = hypergraph_engine();
    let cost = e.get_cost(&bytes_of(ENVELOPES.request), &Ok(vertex_add())).unwrap();
    // 2 proofs × 55 = 110
    assert_eq!(cost, 110);
}

#[test]
fn hypergraph_engine_get_cost_for_vertex_remove_request() {
    let e = hypergraph_engine();
    let cost = e.get_cost(&bytes_of(ENVELOPES.request), &Ok(vertex_remove())).unwrap();
    assert_eq!(cost, 64);
}

#[test]
fn a_vertex_is_written_where_it_was_sent() {
    let mut e = with_state();
    let domain = [0xAAu8; 32];
    let m = bytes_of(ENVELOPES.request);
    assert!(e.process_message(1, &domain, &m, &single(vertex_add())).is_ok());
    let s = e.state.as_ref().unwrap();
    assert_eq!(s.get(&domain, &[0xBB; 32], Layer::VertexAdds), Some(&vec![9, 9]));
    let err = e.invoke_hypergraph_op(1, &[0xAB; 32], &vertex_add()).unwrap_err();
    assert_eq!(
        err.text(),
        format!(
            "hypergraph: inner-domain/routing-domain mismatch (inner={}, routing={})",
            "aa".repeat(32),
            "ab".repeat(32)
        )
    );
    assert_eq!(e.state.as_ref().unwrap().changes.len(), 1);
}

#[test]
fn managed_domains_cannot_be_written() {
    for d in [0xffu8, 0xcc, 0x11] {
        let mut e = with_state();
        let mut r = vertex_remove();
        r.validated = Ok(HypergraphOp::VertexRemove(VertexRemove {
            domain: vec![d; 32],
            data_address: vec![0; 32],
            signature: vec![],
            message: Ok(vec![]),
        }));
        let err = e.invoke_hypergraph_op(1, &[d; 32], &r).unwrap_err();
        let hex = format!("{:02x}", d).repeat(32);
        assert_eq!(
            err.text(),
            format!("hypergraph: write to system-managed domain {} rejected", hex)
        );
        assert!(e.state.as_ref().unwrap().changes.is_empty());
    }
}

#[test]
fn with_a_resolver_writes_need_the_write_key() {
    let domain = [0xAAu8; 32];
    let mut signed = domain.to_vec();
    signed.extend_from_slice(b"VERTEX_ADD");
    signed.push(5);
    let valid_under = |key: u8| ValidSignatures {
        items: vec![SignedMessage {
            key: vec![key; 57],
            message: signed.clone(),
            signature: vec![0xCC; 114],
        }],
    };
    let request = || HypergraphRequest { valid: valid_under(1), ..vertex_add() };

    let mut e = with_state().with_config_resolver(write_key(&[0xAC; 32], &[1; 57]));
    let err = e.invoke_hypergraph_op(1, &domain, &request()).unwrap_err();
    assert_eq!(err.text(), "hypergraph vertex_add: unknown deployment (no write key resolves)");

    let mut e = with_state().with_config_resolver(write_key(&domain, &[2; 57]));
    let err = e.invoke_hypergraph_op(1, &domain, &request()).unwrap_err();
    assert_eq!(err.text(), "hypergraph vertex_add: signature does not verify against write key");
    assert!(e.state.as_ref().unwrap().changes.is_empty());

    let mut e = with_state().with_config_resolver(write_key(&domain, &[1; 57]));
    let err = e.invoke_hypergraph_op(1, &domain, &vertex_add()).unwrap_err();
    assert_eq!(err.text(), "hypergraph vertex_add: signature does not verify against write key");
    assert!(e.invoke_hypergraph_op(1, &domain, &request()).is_ok());
    assert_eq!(e.state.as_ref().unwrap().changes.len(), 1);
}

#[test]
fn hyperedges_stand_at_their_own_address() {
    let domain = [0xAAu8; 32];
    let mut value = vec![1u8];
    value.extend([0xAA; 32]);
    value.extend([0x77; 32]);
    value.extend([5, 6]);
    assert_eq!(extract_hyperedge_id(&value), Some(address_of(0xAA, 0x77)));
    assert_eq!(extract_hyperedge_id(&vec![1; 64]), None);
    let edge = |value: Vec<u8>| HyperedgeAdd {
        domain: domain.to_vec(),
        value,
        signature: vec![],
        message: Ok(vec![]),
    };
    let request = |op, tag| HypergraphRequest {
        inner_type_prefix: tag,
        validated: Ok(op),
        lock_writes: None,
        valid: no_signatures(),
        vertex_add_cost: Err(missing()),
    };
    let mut e = with_state();
    let add = request(HypergraphOp::HyperedgeAdd { op: edge(value.clone()), commit: Ok(()) }, HYPEREDGE_ADD);
    assert!(e.invoke_hypergraph_op(1, &domain, &add).is_ok());
    let s = e.state.as_ref().unwrap();
    assert_eq!(s.get(&domain, &[0x77; 32], Layer::HyperedgeAdds), Some(&value));
    let short = request(HypergraphOp::HyperedgeAdd { op: edge(vec![1]), commit: Ok(()) }, HYPEREDGE_ADD);
    let err = e.invoke_hypergraph_op(1, &domain, &short).unwrap_err();
    assert_eq!(err.text(), "hyperedge commit: value too short");
    let remove = request(
        HypergraphOp::HyperedgeRemove(HyperedgeRemove {
            domain: domain.to_vec(),
            value,
            signature: vec![],
            message: Ok(vec![]),
        }),
        HYPEREDGE_REMOVE,
    );
    assert!(e.invoke_hypergraph_op(2, &domain, &remove).is_ok());
    let s = e.state.as_ref().unwrap();
    assert!(s.get(&domain, &[0x77; 32], Layer::HyperedgeRemoves).is_none());
    assert!(s.get(&domain, &[0x77; 32], Layer::HyperedgeAdds).is_some());
}

struct StaticResolver(Vec<u8>);

impl HypergraphConfigResolver for StaticResolver {
    fn write_public_key(&self, _domain: &[u8]) -> Option<Vec<u8>> {
        Some(self.0.clone())
    }
}

fn remove_op(signature: Vec<u8>) -> VertexRemove {
    VertexRemove {
        domain: vec![0xABu8; 32],
        data_address: vec![0x42u8; 32],
        signature,
        message: Ok(vec![0x42u8; 32]),
    }
}

fn signed_remove(seed: &[u8; 57]) -> VertexRemove {
    let signed = OpForAuth::VertexRemove(&remove_op(vec![])).signing_bytes().unwrap();
    let mut want = vec![0xABu8; 32];
    want.extend_from_slice(b"VERTEX_REMOVE");
    want.extend([0x42; 32]);
    assert_eq!(signed, want);
    let sk = ed448_rust::PrivateKey::from(seed);
    remove_op(sk.sign(&signed, None).unwrap().to_vec())
}

fn pubkey_from_seed(seed: &[u8; 57]) -> Vec<u8> {
    let sk = ed448_rust::PrivateKey::from(seed);
    ed448_rust::PublicKey::from(&sk).as_byte().to_vec()
}

fn checked(seeds: &[[u8; 57]], op: &VertexRemove) -> ValidSignatures {
    let message = OpForAuth::VertexRemove(op).signing_bytes().unwrap();
    let mut items = vec![];
    for seed in seeds {
        let pk = ed448_rust::PublicKey::from(&ed448_rust::PrivateKey::from(seed));
        if pk.verify(&message, &op.signature, None).is_ok() {
            items.push(SignedMessage {
                key: pk.as_byte().to_vec(),
                message: message.clone(),
                signature: op.signature.clone(),
            });
        }
    }
    ValidSignatures { items }
}

#[test]
fn vertex_remove_verifies_against_resolved_key() {
    let seed = [7u8; 57];
    let op = signed_remove(&seed);
    let resolver = StaticResolver(pubkey_from_seed(&seed));
    let valid = checked(&[[7; 57], [9; 57]], &op);
    let check =
        verify_op_signature(Some(&resolver), &OpForAuth::VertexRemove(&op), &valid).unwrap();
    assert_eq!(check, AuthCheck::Verified);
}

#[test]
fn vertex_remove_rejects_wrong_key() {
    let op = signed_remove(&[7u8; 57]);
    let resolver = StaticResolver(pubkey_from_seed(&[9u8; 57]));
    let valid = checked(&[[7; 57], [9; 57]], &op);
    assert_eq!(valid.items.len(), 1);
    let check =
        verify_op_signature(Some(&resolver), &OpForAuth::VertexRemove(&op), &valid).unwrap();
    assert_eq!(check, AuthCheck::Invalid);
}

#[test]
fn a_signature_counts_for_what_it_was_made_over() {
    let op = signed_remove(&[7u8; 57]);
    let valid = checked(&[[7; 57]], &op);
    let moved = VertexRemove { domain: vec![0xAC; 32], ..remove_op(op.signature.clone()) };
    let resolver = StaticResolver(pubkey_from_seed(&[7; 57]));
    let check =
        verify_op_signature(Some(&resolver), &OpForAuth::VertexRemove(&moved), &valid).unwrap();
    assert_eq!(check, AuthCheck::Invalid);
    let asked = signature_to_check(&resolver, &OpForAuth::VertexRemove(&op)).unwrap().unwrap();
    assert!(valid.holds(&asked.key, &asked.message, &asked.signature));
}

#[test]
fn missing_resolver_reports_no_resolver() {
    let op = VertexRemove {
        domain: vec![0u8; 32],
        data_address: vec![0u8; 32],
        signature: vec![0u8; 114],
        message: Ok(vec![]),
    };
    let none: Option<&StaticResolver> = None;
    let check = verify_op_signature(none, &OpForAuth::VertexRemove(&op), &no_signatures()).unwrap();
    assert_eq!(check, AuthCheck::NoResolver);
}

#[test]
fn unknown_domain_when_resolver_returns_none() {
    struct NoneResolver;
    impl HypergraphConfigResolver for NoneResolver {
        fn write_public_key(&self, _: &[u8]) -> Option<Vec<u8>> {
            None
        }
    }
    let op = VertexRemove {
        domain: vec![0u8; 32],
        data_address: vec![0u8; 32],
        signature: vec![0u8; 114],
        message: Ok(vec![]),
    };
    let check =
        verify_op_signature(Some(&NoneResolver), &OpForAuth::VertexRemove(&op), &no_signatures())
            .unwrap();
    assert_eq!(check, AuthCheck::UnknownDomain);
}

#[test]
fn what_is_signed_names_the_domain_and_the_operation() {
    let add = VertexAdd {
        domain: vec![1; 2],
        data_address: vec![],
        data: vec![],
        signature: vec![],
        message: Ok(vec![9]),
    };
    let mut want = vec![1u8, 1];
    want.extend_from_slice(b"VERTEX_ADD");
    want.push(9);
    assert_eq!(OpForAuth::VertexAdd(&add).signing_bytes().unwrap(), want);
    let edge = |n| HyperedgeAdd { domain: vec![1; 2], value: vec![0; n], signature: vec![], message: Ok(vec![9]) };
    let mut want = vec![1u8, 1];
    want.extend_from_slice(b"HYPEREDGE_ADD");
    want.push(9);
    assert_eq!(OpForAuth::HyperedgeAdd { op: &edge(65) }.signing_bytes().unwrap(), want);
    let err = OpForAuth::HyperedgeAdd { op: &edge(64) }.signing_bytes().unwrap_err();
    assert_eq!(err.text(), "hyperedge add auth: value too short");
    let gone = |n| HyperedgeRemove { domain: vec![1; 2], value: vec![0; n], signature: vec![], message: Ok(vec![9]) };
    let mut want = vec![1u8, 1];
    want.extend_from_slice(b"HYPEREDGE_REMOVE");
    want.push(9);
    assert_eq!(OpForAuth::HyperedgeRemove(&gone(65)).signing_bytes().unwrap(), want);
    let short = gone(1);
    let op = OpForAuth::HyperedgeRemove(&short);
    let err = check_op_signature(&Some(Some(vec![1])), &op, &no_signatures()).unwrap_err();
    assert_eq!(err.text(), "hyperedge remove auth: value too short");
    assert!(auth_check_to_result(AuthCheck::NoResolver, "x").is_ok());
    assert!(auth_check_to_result(AuthCheck::Verified, "x").is_ok());
}

#[test]
fn requests_go_to_their_engine() {
    assert!(accepts(EngineType::Global, Some(RequestVariant::Join)));
    assert!(!accepts(EngineType::Token, Some(RequestVariant::Join)));
    assert!(accepts(EngineType::Token, Some(RequestVariant::MintTransaction)));
    assert!(accepts(EngineType::Compute, Some(RequestVariant::CodeFinalize)));
    assert!(accepts(EngineType::Hypergraph, Some(RequestVariant::HyperedgeRemove)));
    assert!(!accepts(EngineType::Global, Some(RequestVariant::Other)));
    assert!(!accepts(EngineType::Global, None));
    assert!(check_request_for_engine(EngineType::Token, &Ok(Some(RequestVariant::Transaction))).is_ok());
    let err = check_request_for_engine(EngineType::Token, &Ok(None)).unwrap_err();
    assert_eq!(err.text(), "token prove: oneof variant does not route to this engine");
    let err = check_request_for_engine(EngineType::Compute, &Err("eof".to_string())).unwrap_err();
    assert_eq!(err.text(), "compute prove: decode MessageRequest proto failed: eof");
}

#[test]
fn a_read_gives_back_what_was_last_written() {
    let mut s: HypergraphState<Vec<u8>> = HypergraphState::new();
    s.set(&[1], &[2], Layer::VertexAdds, 1, vec![3]);
    s.set(&[1], &[2], Layer::HyperedgeAdds, 1, vec![4]);
    s.set(&[1], &[2], Layer::VertexAdds, 2, vec![5]);
    assert_eq!(s.get(&[1], &[2], Layer::VertexAdds), Some(&vec![5]));
    assert_eq!(s.get(&[1], &[2], Layer::HyperedgeAdds), Some(&vec![4]));
    assert_eq!(s.get(&[1], &[3], Layer::VertexAdds), None);
    s.delete(&[1], &[2], Layer::VertexAdds, 3);
    assert_eq!(s.get(&[1], &[2], Layer::VertexAdds), None);
    assert_eq!(s.committed, 0);
    s.commit();
    assert_eq!(s.committed, 4);
}
