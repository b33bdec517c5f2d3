use quil_node::assoc::KeyMap;
use quil_node::domains::ExecutionMode;
use quil_node::envelope::{Envelope, EnvelopeTypes};
use quil_node::error::QuilError;
use quil_node::state::{HypergraphState, Layer};
use quil_node::token_engine::TokenExecutionEngine;
use quil_node::token_ops::{
    check_nested_payment, parse_tx_input_sigs, parse_tx_outputs, ByDomain, DeployReport,
    InputReport, Materialized, MintConfig, MintInputReport, MintOutputReport, MintReport,
    MintVariant, NestedOutput, NestedPayment, OutputReport, PendingOutput, PendingReport,
    SingleOutput, TokenConfig, TokenInput, TokenRequest, TokenTypes, TransactionReport,
    UpdateReport, VertexWrite,
};

const ENVELOPES: EnvelopeTypes = EnvelopeTypes { bundle: 0x0313, request: 0x0312 };
const DOMAIN: [u8; 32] = [0x21; 32];
const TRANSACTION: u32 = 0x0501;
const MINT: u32 = 0x0502;
const PENDING: u32 = 0x0503;
const DEPLOY: u32 = 0x0504;
const UPDATE: u32 = 0x0505;

fn types() -> TokenTypes {
    TokenTypes {
        prefixes: (0x0501..0x0506).collect(),
        transaction: TRANSACTION,
        mint_transaction: MINT,
        pending_transaction: PENDING,
        token_deploy: DEPLOY,
        token_update: UPDATE,
        mint_transaction_input: 0x0506,
        pending_transaction_input: 0x0507,
        mint_transaction_output: 0x0508,
        pending_transaction_output: 0x0509,
    }
}

fn engine() -> TokenExecutionEngine {
    TokenExecutionEngine::new_with_state(
        ExecutionMode::Application,
        ENVELOPES,
        types(),
        vec![0x11; 32],
        vec![0xff; 32],
        HypergraphState::new(),
    )
    .with_crypto()
    .with_clock_store()
}

fn missing() -> QuilError {
    QuilError::InvalidArgument("not this operation".to_string())
}

fn request(tag: u32) -> TokenRequest {
    TokenRequest {
        inner_type_prefix: tag,
        peek: Ok(()),
        transaction: Err(missing()),
        mint: Err(missing()),
        pending: Err(missing()),
        deploy: Err(missing()),
        update: Err(missing()),
    }
}

fn token_input() -> TokenInput {
    TokenInput { commitment: vec![1], signature: vec![2] }
}

fn input(marker: u8, holds: bool) -> InputReport {
    InputReport {
        raw: vec![0, 0, 0, 0],
        as_standard: Ok(token_input()),
        as_mint: Err(missing()),
        as_pending: Err(missing()),
        structure: Ok(()),
        hidden_signature: Ok(holds),
        spent_address: Ok(vec![marker]),
    }
}

fn output() -> OutputReport {
    OutputReport {
        raw: vec![0, 0, 0, 0],
        as_standard: Ok(SingleOutput { commitment: vec![3], recipient: Ok(vec![4]) }),
        as_mint: Err(missing()),
        as_pending: Err(missing()),
    }
}

fn write(address: u8) -> VertexWrite {
    VertexWrite { address: vec![address], blob: vec![address, address] }
}

fn transaction(holds: bool, sums: bool) -> TransactionReport {
    TransactionReport {
        cost: Ok(77),
        structure: Ok(()),
        inputs: vec![input(50, holds)],
        outputs: vec![output()],
        challenge: Ok(()),
        sums: ByDomain { quil: Ok(false), other: Ok(sums) },
        materialized: Ok(Materialized { created: vec![write(40)], spent_markers: vec![write(50)] }),
    }
}

fn with_transaction(t: TransactionReport) -> TokenRequest {
    TokenRequest { transaction: Ok(t), ..request(TRANSACTION) }
}

fn found(e: &TokenExecutionEngine, address: u8) -> bool {
    e.state.as_ref().unwrap().get(&DOMAIN, &[address], Layer::VertexAdds).is_some()
}

fn refusal(e: &mut TokenExecutionEngine, r: TokenRequest) -> String {
    let before = (e.state.as_ref().unwrap().changes.len(), e.invalidated.len());
    let text = match e.process_request(9, &DOMAIN, &r) {
        Ok(()) => panic!("not refused"),
        Err(e) => e.text().to_string(),
    };
    assert_eq!((e.state.as_ref().unwrap().changes.len(), e.invalidated.len()), before);
    text
}

#[test]
fn a_transaction_writes_what_it_creates_and_spends() {
    let mut e = engine();
    assert!(e.process_request(9, &DOMAIN, &with_transaction(transaction(true, true))).is_ok());
    assert!(found(&e, 40) && found(&e, 50));
}

#[test]
fn a_transaction_cannot_be_replayed() {
    let mut e = engine();
    assert!(e.process_request(9, &DOMAIN, &with_transaction(transaction(true, true))).is_ok());
    assert_eq!(
        refusal(&mut e, with_transaction(transaction(true, true))),
        "transaction: input 0 already spent (double-spend)"
    );
}

#[test]
fn a_refused_transaction_leaves_no_trace() {
    let mut e = engine();
    assert_eq!(
        refusal(&mut e, with_transaction(transaction(false, true))),
        "transaction: input 0 hidden-signature verify failed"
    );
    let text = refusal(&mut e, with_transaction(transaction(true, false)));
    assert!(text.starts_with("transaction: "), "{}", text);
    assert!(!found(&e, 40));
}

#[test]
fn a_bundle_goes_on_after_a_refusal() {
    let mut e = engine();
    let contents = Envelope {
        bundle: Ok(vec![
            Some(with_transaction(transaction(false, true))),
            None,
            Some(with_transaction(transaction(true, true))),
        ]),
        request: Err(missing()),
    };
    let mut message = ENVELOPES.bundle.to_be_bytes().to_vec();
    assert!(e.process_message(9, &DOMAIN, &message, &contents).is_ok());
    assert!(found(&e, 40));
    message[3] = 0x99;
    let err = match e.process_message(9, &DOMAIN, &message, &contents) {
        Ok(_) => panic!("the envelope is not known"),
        Err(e) => e,
    };
    assert_eq!(err.text(), "token: unsupported message type");
}

fn mint(variant: Option<MintVariant>) -> MintReport {
    let made = |a: u8| Ok(Materialized { created: vec![write(a)], spent_markers: vec![] });
    MintReport {
        cost: Ok(5),
        structure: Ok(()),
        inputs: vec![MintInputReport {
            decoded: Ok(token_input()),
            verkle: Err(QuilError::Crypto("verkle".to_string())),
            payment: Err(QuilError::Crypto("payment".to_string())),
        }],
        outputs: vec![MintOutputReport { decoded: Ok(()), recipient: Ok(()) }],
        config: MintConfig {
            variant,
            has_authority_key_type: true,
            has_authority_public_key: true,
            has_verkle_root: true,
            has_payment_address: true,
        },
        sums: Ok(true),
        proof_of_work: Ok(()),
        authority: Ok(true),
        transcript: Ok(()),
        materialized_work: ByDomain { quil: made(60), other: made(61) },
        materialized_authority: made(62),
    }
}

fn with_mint(m: MintReport) -> TokenRequest {
    TokenRequest { mint: Ok(m), ..request(MINT) }
}

#[test]
fn a_mint_follows_its_variant() {
    let mut e = engine();
    let work = with_mint(mint(Some(MintVariant::ProofOfMeaningfulWork)));
    assert!(e.process_request(9, &DOMAIN, &work).is_ok());
    assert!(found(&e, 61) && !found(&e, 60) && !found(&e, 62));
    let authority = with_mint(mint(Some(MintVariant::Authority)));
    assert!(e.process_request(9, &DOMAIN, &authority).is_ok());
    assert!(found(&e, 62));
}

#[test]
fn a_mint_can_be_refused_at_every_step() {
    let mut e = engine();
    assert_eq!(
        refusal(&mut e, with_mint(mint(Some(MintVariant::NoMint)))),
        "mint transaction: token has NoMintBehavior (not mintable)"
    );
    assert_eq!(
        refusal(&mut e, with_mint(mint(None))),
        "mint transaction: unrecognized MintBehavior/ProofBasis combination or token config resolver unavailable for domain"
    );
    let sums = MintReport { sums: Ok(false), ..mint(Some(MintVariant::Authority)) };
    assert_eq!(
        refusal(&mut e, with_mint(sums)),
        "mint transaction: bulletproof range/sum verify failed"
    );
    let unsigned = MintReport { authority: Ok(false), ..mint(Some(MintVariant::Signature)) };
    assert_eq!(refusal(&mut e, with_mint(unsigned)), "mint authority/signature: verify failed");
    assert_eq!(
        refusal(&mut e, with_mint(mint(Some(MintVariant::VerkleMultiproofWithSignature)))),
        "verkle"
    );
    assert_eq!(refusal(&mut e, with_mint(mint(Some(MintVariant::Payment)))), "payment");
    let mut nowhere = mint(Some(MintVariant::Payment));
    nowhere.config.has_payment_address = false;
    assert_eq!(
        refusal(&mut e, with_mint(nowhere)),
        "mint payment: resolver missing payment_address"
    );
}

#[test]
fn a_pending_transaction_must_verify() {
    let mut e = engine();
    let pending = |ok| TokenRequest {
        pending: Ok(PendingReport {
            cost: Ok(6),
            structure: Ok(()),
            inputs: vec![],
            outputs: vec![],
            verified: ByDomain { quil: Ok(false), other: Ok(ok) },
            materialized: Ok(Materialized { created: vec![write(70)], spent_markers: vec![] }),
        }),
        ..request(PENDING)
    };
    assert_eq!(refusal(&mut e, pending(false)), "pending transaction: crypto verify failed");
    assert!(e.process_request(9, &DOMAIN, &pending(true)).is_ok());
    assert!(found(&e, 70));
}

fn update(behavior: u64, supply: Vec<u8>, prior: Option<TokenConfig>) -> TokenRequest {
    TokenRequest {
        update: Ok(UpdateReport {
            config: vec![1, 2, 3],
            parsed: Ok(TokenConfig { behavior, supply }),
            prior: KeyMap { entries: prior.into_iter().map(|c| (vec![1], c)).collect() },
            writes: Ok(vec![write(80)]),
        }),
        ..request(UPDATE)
    }
}

#[test]
fn an_update_keeps_behavior_and_supply() {
    let mut e = engine();
    let deploy = TokenRequest {
        deploy: Ok(DeployReport {
            config: vec![9],
            parsed: Ok(()),
            writes: Ok(vec![VertexWrite { address: vec![0xff; 32], blob: vec![1] }]),
        }),
        ..request(DEPLOY)
    };
    assert!(e.process_request(1, &DOMAIN, &deploy).is_ok());
    assert_eq!(e.invalidated, vec![DOMAIN.to_vec()]);
    let prior = || Some(TokenConfig { behavior: 3, supply: vec![1, 0] });
    assert_eq!(
        refusal(&mut e, update(4, vec![1, 0], prior())),
        "token update: behavior cannot be updated"
    );
    assert_eq!(
        refusal(&mut e, update(3, vec![0, 0, 255], prior())),
        "token update: supply cannot be reduced"
    );
    assert!(e.process_request(2, &DOMAIN, &update(3, vec![0, 1, 0], prior())).is_ok());
    assert!(e.process_request(2, &DOMAIN, &update(3, vec![], prior())).is_ok());
    assert!(e.process_request(2, &DOMAIN, &update(3, vec![2, 0], prior())).is_ok());
    assert!(found(&e, 80));
    assert_eq!(e.invalidated.len(), 4);
}

#[test]
fn an_update_in_a_bundle_is_held_to_the_configuration_before_it() {
    let mut e = engine();
    let configured = |blob: u8, behavior: u64, supply: u8| {
        let entry = |b: u8, n: u8| (vec![b], TokenConfig { behavior: 3, supply: vec![n] });
        TokenRequest {
            update: Ok(UpdateReport {
                config: vec![1, 2, 3],
                parsed: Ok(TokenConfig { behavior, supply: vec![supply] }),
                prior: KeyMap { entries: vec![entry(1, 10), entry(2, 20)] },
                writes: Ok(vec![VertexWrite { address: vec![0xff; 32], blob: vec![blob] }]),
            }),
            ..request(UPDATE)
        }
    };
    // Nothing stands there yet.
    assert!(e.process_request(1, &DOMAIN, &configured(1, 3, 10)).is_ok());
    // Held to the first, which becomes the second.
    assert!(e.process_request(2, &DOMAIN, &configured(2, 3, 20)).is_ok());
    // Enough for the first, but not for the second.
    assert_eq!(refusal(&mut e, configured(1, 3, 15)), "token update: supply cannot be reduced");
}

#[test]
fn costs_are_told_by_the_kind_of_request() {
    let e = engine();
    let m = [0u8; 8];
    assert_eq!(e.get_cost(&m, &Ok(with_transaction(transaction(true, true)))).unwrap(), 77);
    assert_eq!(e.get_cost(&m, &Ok(with_mint(mint(None)))).unwrap(), 5);
    assert_eq!(e.get_cost(&m, &Ok(update(1, vec![], None))).unwrap(), 3);
    assert_eq!(e.get_cost(&m, &Ok(request(0x9999))).unwrap(), 0);
    assert_eq!(e.get_cost(&m, &Err(missing())).unwrap(), 0);
    assert_eq!(e.get_cost(&m[1..], &Ok(update(1, vec![], None))).unwrap(), 0);
}

#[test]
fn outputs_are_read_by_their_tag() {
    let mut pending = output();
    pending.raw = 0x0509u32.to_be_bytes().to_vec();
    pending.as_pending = Ok(PendingOutput {
        commitment: vec![8],
        to: Some(Ok(vec![9])),
        refund: Some(Ok(vec![10])),
    });
    let mut mint = output();
    mint.raw = 0x0508u32.to_be_bytes().to_vec();
    mint.as_mint = Ok(SingleOutput { commitment: vec![6], recipient: Ok(vec![7]) });
    let parsed = parse_tx_outputs(&types(), &vec![output(), mint, pending], 5).unwrap_or_else(|e| panic!("{}", e.text()));
    assert_eq!(parsed[0].commitment, vec![3]);
    assert_eq!(parsed[0].recipient, vec![4]);
    assert_eq!(parsed[0].frame_number, 5u64.to_be_bytes().to_vec());
    assert_eq!(parsed[1].recipient, vec![7]);
    assert_eq!(parsed[2].recipient, vec![9]);
    let mut mint_input = input(1, true);
    mint_input.raw = 0x0506u32.to_be_bytes().to_vec();
    mint_input.as_mint = Ok(TokenInput { commitment: vec![], signature: vec![33] });
    let sigs = parse_tx_input_sigs(&types(), &vec![input(1, true), mint_input]).unwrap_or_else(|e| panic!("{}", e.text()));
    assert_eq!(sigs, vec![vec![2], vec![33]]);
}

#[test]
fn a_nested_payment_is_taken_apart() {
    let out = || Ok(NestedOutput { commitment: vec![1], to_key: Ok(vec![2]), refund_key: Ok(vec![3]) });
    let good = Ok(NestedPayment { verified: Ok(true), outputs: vec![Err(missing()), out()] });
    let r = match check_nested_payment(&good, 1) {
        Ok(r) => r,
        Err(e) => panic!("{}", e.text()),
    };
    assert_eq!(r.output_commitment, vec![1]);
    assert_eq!(r.to_verification_key, vec![2]);
    assert_eq!(r.refund_verification_key, vec![3]);
    assert!(check_nested_payment(&good, 0).is_err());
    assert!(check_nested_payment(&good, 2).is_err());
    let bad = Ok(NestedPayment { verified: Ok(false), outputs: vec![out()] });
    assert!(check_nested_payment(&bad, 0).is_err());
    assert!(check_nested_payment(&Err(missing()), 0).is_err());
}
