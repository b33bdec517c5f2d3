use quil_node::assoc::KeyMap;
use quil_node::node_plan::{
    alert_key, delegate_address, genesis_archive_peer_ids, genesis_prover_keys, identity_seed,
    keep_present, multisig_seeds, node_mode, release_gate, seed_archive_pool, trusted_set,
    ArchivePeer, MainnetGenesis, NodeMode, ReleaseCheck,
};
use quil_node::node_rpc::{
    build_send_digest, check_send, check_submit, check_user_submit, collector_answer,
    listener_seed, pin_answer, plan_request_join, proxy_sign, send_answer, send_key, send_route,
    summarise_phase, traversal_proof, worker_entries, PhaseRoot, PinReport, SendRoute,
    TraversalReport, Worker,
};
use quil_node::codec::{can_check_ed448, Ed448Check};
use quil_node::node_sync::{
    advance_head, bootstrap_frame, candidate_frame, consensus_decision, finalized_frame,
    initial_head_frame, is_global_prover, lifecycle_enabled, plan_initial_sync,
    plan_periodic_sync, shard_submission, ConsensusDecision, ConsensusState, ControlEventData,
    ControlEventType, ShardRefresh, ShardSubmission,
};
use quil_node::peer_id::{ed448_multihash, ed448_pubkey_to_peer_id_string};
use quil_node::shard_info::{
    allocated_filters, choose_client, difficulty_and_frame, distinct_keys, needs_remote,
    peer_stream_addrs, remote_sizes, AllocationEntry, AppShardInfo, AppShards, LocalInfo,
    PeerReach, ProverEntry,
};

fn from_hex(s: &str) -> Vec<u8> {
    hex::decode(s).unwrap()
}

const SEED: &str = "cd23d24f714274e744343237b93290f511f6425f98e64459ff203e8985083ffdf60500553abc0e05cd02184bdb89c4ccd67e187951267eb328";

#[test]
fn the_mode_follows_core_and_flag() {
    assert_eq!(node_mode(0, false), NodeMode::Master);
    assert_eq!(node_mode(3, false), NodeMode::Worker(3));
    assert_eq!(node_mode(0, true), NodeMode::Dht);
    assert_eq!(node_mode(3, true), NodeMode::Dht);
}

#[test]
fn a_release_that_fails_its_check_may_not_start() {
    let failed = ReleaseCheck::Failed("no digest".to_string());
    assert_eq!(
        release_gate(true, true, &failed).unwrap_err(),
        "signature check failed: no digest"
    );
    assert_eq!(
        release_gate(true, true, &ReleaseCheck::NoPath("gone".to_string())).unwrap_err(),
        "could not determine executable path for signature check: gone"
    );
    assert!(release_gate(true, true, &ReleaseCheck::Passed(9)).is_ok());
    assert!(release_gate(false, true, &failed).is_ok());
    assert!(release_gate(true, false, &failed).is_ok());
}

#[test]
fn a_seed_is_the_first_57_bytes_of_a_key() {
    assert_eq!(identity_seed(SEED), Some(from_hex(SEED)));
    let long = format!("{}{}", SEED, "AB".repeat(57));
    assert_eq!(identity_seed(&long), Some(from_hex(SEED)));
    assert_eq!(identity_seed(&SEED[2..]), None);
    assert_eq!(identity_seed(&SEED[1..]), None);
    assert_eq!(identity_seed("zz"), None);
    assert_eq!(identity_seed(""), None);
}

#[test]
fn seeds_come_in_order_without_the_unreadable() {
    let other = "11".repeat(57);
    let further = vec![other.clone(), "xyz".to_string(), "22".repeat(114)];
    let seeds = multisig_seeds(SEED, &further);
    assert_eq!(seeds, vec![from_hex(SEED), vec![0x11; 57], vec![0x22; 57]]);
    assert_eq!(multisig_seeds("", &vec![other]), vec![vec![0x11; 57]]);
}

#[test]
fn addresses_that_cannot_be_read_count_as_none() {
    assert_eq!(delegate_address("  AbcD\n"), vec![0xab, 0xcd]);
    assert_eq!(delegate_address("   "), Vec::<u8>::new());
    assert_eq!(delegate_address("abc"), Vec::<u8>::new());
    assert_eq!(alert_key("00ff"), vec![0, 0xff]);
    assert_eq!(alert_key(" 00ff"), Vec::<u8>::new());
}

#[test]
fn the_pool_starts_with_what_is_configured() {
    let hosts = vec!["1.1.1.1".to_string(), "2.2.2.2".to_string()];
    let configured = vec![
        "/ip4/10.0.0.1/tcp/1".to_string(),
        "/dns/a.b/tcp/2".to_string(),
        "nonsense".to_string(),
    ];
    assert_eq!(seed_archive_pool(&configured, 0, &hosts), vec!["a.b:2"]);
    assert_eq!(seed_archive_pool(&configured, 5, &hosts), vec!["10.0.0.1:1", "a.b:2"]);
    assert_eq!(seed_archive_pool(&vec![], 0, &hosts), vec!["1.1.1.1:8340", "2.2.2.2:8340"]);
    assert!(seed_archive_pool(&vec![], 1, &hosts).is_empty());
}

#[test]
fn the_identifier_of_a_key_is_its_multihash() {
    let key = vec![0x11u8; 57];
    assert_eq!(
        ed448_multihash(&key),
        from_hex("1220afe7b8b934855b8c294612547f691a831643b2faf2506b5e26a284aaacc825b0")
    );
    assert_eq!(
        ed448_pubkey_to_peer_id_string(&key),
        "QmaBJzWdPhBHgpi7evwj5obxrUMgkAm9oSnTajuS7XE8kF"
    );
}

fn peer(id: &str, key: &str) -> ArchivePeer {
    ArchivePeer { peer_id: id.to_string(), pubkey_hex: key.to_string() }
}

const KEY_BASE64: &str =
    "ERERERERERERERERERERERERERERERERERERERERERERERERERERERERERERERERERERERERERER";

#[test]
fn trusted_peers_are_archives_and_the_beacon() {
    let id = "QmaBJzWdPhBHgpi7evwj5obxrUMgkAm9oSnTajuS7XE8kF";
    let bytes = from_hex("1220afe7b8b934855b8c294612547f691a831643b2faf2506b5e26a284aaacc825b0");
    let peers = vec![peer("2g", ""), peer("0OIl", ""), peer(id, "")];
    let ids = genesis_archive_peer_ids(&peers, &None);
    assert_eq!(ids.items, vec![vec![0x61], bytes.clone()]);
    let with_beacon = genesis_archive_peer_ids(&vec![], &Some(KEY_BASE64.to_string()));
    assert_eq!(with_beacon.items, vec![bytes.clone()]);
    let both = genesis_archive_peer_ids(&peers, &Some(KEY_BASE64.to_string()));
    assert_eq!(both.items.len(), 2);
    let unreadable = genesis_archive_peer_ids(&peers, &Some("*".to_string()));
    assert_eq!(unreadable.items.len(), 2);
}

#[test]
fn the_main_network_has_its_keys_built_in() {
    let data = MainnetGenesis {
        beacon_ed448_key: String::new(),
        beacon_bls48581_key: KEY_BASE64.to_string(),
        archive_peers: vec![peer("", "0102"), peer("", "x"), peer("", "03")],
    };
    let other = Some(vec![vec![9u8]]);
    let some = Some(data);
    assert_eq!(
        genesis_prover_keys(0, &some, &other),
        vec![vec![0x11; 57], vec![1, 2], vec![3]]
    );
    assert_eq!(genesis_prover_keys(1, &some, &other), vec![vec![9]]);
    assert!(genesis_prover_keys(0, &None, &other).is_empty());
    assert!(genesis_prover_keys(1, &some, &None).is_empty());
}

#[test]
fn what_is_missing_is_left_out() {
    let items = vec![Some(vec![1u8]), None, Some(vec![2]), Some(vec![1])];
    assert_eq!(keep_present(&items), vec![vec![1], vec![2], vec![1]]);
    assert_eq!(trusted_set(&items).items, vec![vec![1], vec![2]]);
}

#[test]
fn the_head_never_goes_back() {
    assert_eq!(initial_head_frame(None), 0);
    assert_eq!(initial_head_frame(Some(414)), 414);
    let mut head = 5;
    for f in [7, 6, 9, 1] {
        head = advance_head(head, f);
    }
    assert_eq!(head, 9);
}

#[test]
fn shard_events_become_submissions() {
    let split = || ControlEventData::ShardSplit { filter: vec![1], proposed: vec![vec![1, 0], vec![1, 1]] };
    match shard_submission(8, ControlEventType::ShardSplitEligible, split()) {
        Some(ShardSubmission::Split { shard, proposed, frame }) => {
            assert_eq!(shard, vec![1]);
            assert_eq!(proposed, vec![vec![1, 0], vec![1, 1]]);
            assert_eq!(frame, 8);
        }
        _ => panic!("a split is called for"),
    }
    assert!(shard_submission(0, ControlEventType::ShardSplitEligible, split()).is_none());
    assert!(shard_submission(8, ControlEventType::ShardMergeEligible, split()).is_none());
    assert!(shard_submission(8, ControlEventType::Other, split()).is_none());
    let merge = ControlEventData::ShardMerge { filters: vec![vec![1, 0], vec![1, 1]], parent: vec![1] };
    match shard_submission(8, ControlEventType::ShardMergeEligible, merge) {
        Some(ShardSubmission::Merge { shards, parent, frame }) => {
            assert_eq!(shards.len(), 2);
            assert_eq!(parent, vec![1]);
            assert_eq!(frame, 8);
        }
        _ => panic!("a merge is called for"),
    }
}

#[test]
fn archives_do_not_synchronise() {
    let pool = vec!["a:1".to_string(), "b:2".to_string()];
    assert!(plan_initial_sync(true, &pool).is_none());
    assert!(plan_initial_sync(false, &vec![]).is_none());
    let first = plan_initial_sync(false, &pool).unwrap();
    assert_eq!(first.archive, "a:1");
    assert!(first.expected_root.is_empty());
    let later = plan_periodic_sync(false, &pool, &Some(vec![4, 5])).unwrap();
    assert_eq!(later.expected_root, vec![4, 5]);
    assert!(plan_periodic_sync(true, &pool, &Some(vec![4, 5])).is_none());
    assert!(plan_periodic_sync(false, &pool, &None).unwrap().expected_root.is_empty());
    assert!(lifecycle_enabled(true, None));
    assert!(lifecycle_enabled(false, Some(true)));
    assert!(!lifecycle_enabled(false, Some(false)));
    assert!(!lifecycle_enabled(false, None));
}

#[test]
fn consensus_starts_from_the_best_frame_there_is() {
    let err: Result<u64, String> = Err("none".to_string());
    assert_eq!(bootstrap_frame(Some(3), err.clone(), Ok(0)), Ok(3));
    assert_eq!(bootstrap_frame(None, Ok(2), err.clone()), Ok(2));
    assert_eq!(bootstrap_frame(None, err.clone(), Ok(0)), Ok(0));
    assert_eq!(bootstrap_frame(None, err.clone(), err.clone()), err);
}

#[test]
fn consensus_is_for_global_provers_of_archives() {
    assert!(is_global_prover(&Some(vec![vec![1], vec![]])));
    assert!(!is_global_prover(&Some(vec![vec![1]])));
    assert!(!is_global_prover(&None));
    let d = |a, n, g, f, s| consensus_decision(a, n, g, f, s);
    assert_eq!(d(false, 0, true, true, true), ConsensusDecision::NotParticipant);
    assert_eq!(d(false, 99, true, true, true), ConsensusDecision::Activate);
    assert_eq!(d(true, 0, true, true, true), ConsensusDecision::Activate);
    assert_eq!(d(true, 0, false, true, true), ConsensusDecision::NotGlobalProver);
    assert_eq!(d(true, 0, true, false, true), ConsensusDecision::NoFrame);
    assert_eq!(d(true, 0, true, true, false), ConsensusDecision::NoSigner);
}

#[test]
fn refreshes_lie_60_frames_apart() {
    let mut r = ShardRefresh::new();
    assert!(r.due(0, false));
    assert!(!r.due(1000, true));
    r.done(0);
    assert!(!r.due(60, true));
    assert!(r.due(61, true));
    r.done(100);
    assert!(!r.due(159, true));
    assert!(r.due(160, true));
    assert!(r.due(101, false));
    r.done(u64::MAX);
    assert!(!r.due(u64::MAX, true));
}

#[test]
fn only_final_frames_carry_requests() {
    let s = ConsensusState {
        frame_number: 7,
        rank: 8,
        timestamp: 9,
        difficulty: 10,
        output: vec![1],
        parent_selector: vec![2],
        prover: vec![3],
        prover_tree_commitment: vec![4],
        requests_root: vec![5],
        messages: vec![vec![6]],
    };
    let c = candidate_frame(&s);
    assert_eq!((c.frame_number, c.rank, c.timestamp, c.difficulty), (7, 8, 9, 10));
    assert_eq!(c.output, vec![1]);
    assert_eq!(c.parent_selector, vec![2]);
    assert_eq!(c.prover, vec![3]);
    assert_eq!(c.prover_tree_commitment, vec![4]);
    assert_eq!(c.requests_root, vec![5]);
    assert!(c.requests.is_empty());
    assert_eq!(finalized_frame(&s).requests, vec![vec![6]]);
}

#[test]
fn messages_are_checked_before_they_are_collected() {
    assert_eq!(
        check_submit(false, &[1]).unwrap_err(),
        "unauthenticated peer — submit requires a valid Ed448 client cert"
    );
    assert_eq!(check_submit(true, &[]).unwrap_err(), "empty payload");
    assert!(check_submit(true, &[1]).is_ok());
    assert_eq!(check_user_submit(&[]).unwrap_err(), "empty message");
    assert!(check_user_submit(&[1]).is_ok());
    assert_eq!(collector_answer(false).unwrap_err(), "message collector rejected");
    assert!(collector_answer(true).is_ok());
}

#[test]
fn signatures_have_their_known_value() {
    let sig = proxy_sign(&from_hex(SEED), &from_hex("0c3e544074ec63b0265e0c")).unwrap();
    assert_eq!(
        hex::encode(&sig),
        "1f0a8888ce25e8d458a21130879b840a9089d999aaba039eaf3e3afa090a09d389dba82c4ff2ae8ac5cdfb7c55e94d5d961a29fe0109941e00b8dbdeea6d3b051068df7254c0cdc129cbe62db2dc957dbb47b51fd3f213fb8698f064774250a5028961c9bf8ffd973fe5d5c206492b140e00"
    );
    assert!(proxy_sign(&[1; 56], b"m").is_err());
}

// The scalar that the seed expands to, from which a verifying key is read.
const KEY: &str = "a0766589850ed5fb27e465bd78fe066964227ff21dbc4a5c55c3a75a5d0107bb62f18ef1bc730036b9ecc3d0d61ad778e9b05438a9d7f5ed00";

#[test]
fn only_signed_messages_go_out() {
    let key = from_hex(KEY);
    let global = vec![0xffu8; 32];
    let shard = vec![0x01u8; 32];
    let payload = b"payload".to_vec();
    let sign = |domain: &[u8]| {
        proxy_sign(&from_hex(SEED), &build_send_digest(domain, &payload)).unwrap()
    };
    assert_eq!(check_send(&key, &global, &payload, &sign(&global)), Ok(SendRoute::GlobalProver));
    assert_eq!(check_send(&key, &shard, &payload, &sign(&shard)), Ok(SendRoute::Domain));
    let mixed = check_send(&key, &shard, &payload, &sign(&global)).unwrap_err();
    assert!(mixed.starts_with("authentication failed: "), "{}", mixed);
    let short = check_send(&key, &shard, &payload, &[0; 10]).unwrap_err();
    assert!(short.starts_with("authentication failed: "), "{}", short);
    let bad = check_send(&[0; 10], &shard, &payload, &sign(&shard)).unwrap_err();
    assert!(bad.starts_with("bad pubkey: "), "{}", bad);
    assert_eq!(
        check_send(&key, &[1; 31], &payload, &[]).unwrap_err(),
        "domain must be 32 bytes"
    );
    assert_eq!(check_send(&key, &shard, &[], &[]).unwrap_err(), "empty payload");
}

#[test]
fn degenerate_signatures_and_keys_are_refused() {
    let key = from_hex(KEY);
    let shard = vec![0x01u8; 32];
    let payload = b"payload".to_vec();
    let good = proxy_sign(&from_hex(SEED), &build_send_digest(&shard, &payload)).unwrap();
    let refused = Err("authentication failed: InvalidSignature".to_string());
    // No scalar.
    let mut sig = good.clone();
    sig[57..].fill(0);
    assert_eq!(check_send(&key, &shard, &payload, &sig), refused);
    assert_eq!(check_send(&key, &shard, &payload, &[0; 114]), refused);
    // The neutral point.
    let mut sig = good.clone();
    sig[..57].fill(0);
    sig[0] = 1;
    assert_eq!(check_send(&key, &shard, &payload, &sig), refused);
    // The point opposite to it.
    let p = "fe".to_string() + &"ff".repeat(27) + "fe" + &"ff".repeat(27) + "00";
    sig[..57].copy_from_slice(&from_hex(&p));
    assert_eq!(check_send(&key, &shard, &payload, &sig), refused);
    // Keys that stand for the neutral point: zero, and the order of the base point.
    assert_eq!(check_send(&[0; 57], &shard, &payload, &good), refused);
    let order = "f34458ab92c27823558fc58d72c26c219036d6ae49db4ec4e923ca7c".to_string()
        + &"ff".repeat(27)
        + "3f00";
    assert_eq!(check_send(&from_hex(&order), &shard, &payload, &good), refused);
    assert!(!can_check_ed448(&from_hex(&order), &good));
    assert!(can_check_ed448(&key, &good));
}

#[test]
fn white_space_round_an_address_is_dropped() {
    assert_eq!(delegate_address("  0aff\t\n"), vec![0x0a, 0xff]);
    assert_eq!(delegate_address("\u{3000}\u{85}0aff\u{a0}\u{2028}"), vec![0x0a, 0xff]);
    assert_eq!(delegate_address("\u{200b}0aff"), Vec::<u8>::new());
    assert_eq!(delegate_address("0a ff"), Vec::<u8>::new());
    assert_eq!(delegate_address(" "), Vec::<u8>::new());
}

#[test]
fn what_is_signed_holds_domain_and_message() {
    let mut want = b"NODE_AUTHENTICATION".to_vec();
    want.extend([5u8; 32]);
    want.extend([6u8; 3]);
    assert_eq!(build_send_digest(&[5; 32], &[6; 3]), want);
    assert_ne!(build_send_digest(&[5; 32], &[6; 3]), build_send_digest(&[6; 32], &[6; 3]));
}

#[test]
fn a_checked_message_is_routed() {
    assert_eq!(send_route(&[0xff; 32], &Ed448Check::Valid), Ok(SendRoute::GlobalProver));
    assert_eq!(send_route(&[0xfe; 32], &Ed448Check::Valid), Ok(SendRoute::Domain));
    assert_eq!(
        send_route(&[0xff; 32], &Ed448Check::Refused("X".to_string())).unwrap_err(),
        "authentication failed: X"
    );
    assert_eq!(
        send_route(&[0xff; 32], &Ed448Check::BadKey("Y".to_string())).unwrap_err(),
        "bad pubkey: Y"
    );
    assert!(send_answer(&Ok(())).is_ok());
    assert_eq!(
        send_answer(&Err("closed".to_string())).unwrap_err(),
        "p2p publish failed: closed"
    );
}

#[test]
fn the_stored_key_comes_before_the_derived_one() {
    assert_eq!(send_key(Some(vec![1]), Some(vec![2])), (Some(vec![1]), "keystore q-peer-key"));
    assert_eq!(
        send_key(None, Some(vec![2])),
        (Some(vec![2]), "config.p2p.peer_priv_key (mtls_seed)")
    );
    assert_eq!(send_key(None, None), (None, ""));
    assert_eq!(listener_seed(Some(vec![3])), Ok(vec![3]));
    assert!(listener_seed(None).unwrap_err().starts_with("peer gRPC requires an Ed448 identity"));
}

#[test]
fn joins_bind_workers_first() {
    let filters = vec![vec![1u8], vec![2]];
    let pins = plan_request_join(9, &filters, &vec![4, 5]).unwrap_or_else(|e| panic!("{}", e));
    assert_eq!(pins.len(), 2);
    assert_eq!((pins[1].core_id, pins[1].filter.clone(), pins[1].frame), (5, vec![2], 9));
    assert!(plan_request_join(9, &filters, &vec![]).unwrap_or_else(|e| panic!("{}", e)).is_empty());
    let refusal = |f, fs: &Vec<Vec<u8>>, ws: &Vec<u32>| match plan_request_join(f, fs, ws) {
        Ok(_) => panic!("not refused"),
        Err(e) => e,
    };
    assert_eq!(refusal(0, &filters, &vec![]), "no frames received yet");
    assert_eq!(refusal(9, &vec![], &vec![]), "filters must be non-empty");
    assert_eq!(
        refusal(9, &filters, &vec![1]),
        "worker_ids length (1) must match filters length (2)"
    );
}

#[test]
fn a_worker_that_cannot_be_bound_ends_the_request() {
    assert!(pin_answer(12, &PinReport { filter: Ok(()), frame: Ok(()) }).is_ok());
    assert_eq!(
        pin_answer(12, &PinReport { filter: Err("busy".to_string()), frame: Ok(()) }).unwrap_err(),
        "pre-pin worker 12: busy"
    );
    assert_eq!(
        pin_answer(12, &PinReport { filter: Ok(()), frame: Err("gone".to_string()) }).unwrap_err(),
        "set_pending_filter_frame 12: gone"
    );
}

#[test]
fn a_worker_with_a_filter_is_allocated() {
    let w = |filter: Vec<u8>| Worker {
        core_id: 1,
        filter,
        available_storage: 2,
        total_storage: 3,
        manually_managed: true,
    };
    let e = worker_entries(&vec![w(vec![]), w(vec![9])]);
    assert!(!e[0].allocated && e[1].allocated);
    assert_eq!((e[1].core_id, e[1].available_storage, e[1].total_storage), (1, 2, 3));
    assert!(e[0].manually_managed);
    assert_eq!(e[1].filter, vec![9]);
}

#[test]
fn trees_are_summarised() {
    let none = summarise_phase(&None);
    assert_eq!(none.commitment, vec![0; 64]);
    assert!(none.size.is_empty());
    assert_eq!(none.leaf_count, 0);
    let branch = |size| summarise_phase(&Some(PhaseRoot::Branch { commitment: vec![7], size, leaf_count: 5 }));
    assert_eq!(branch(0).size, vec![0]);
    assert_eq!(branch(127).size, vec![127]);
    assert_eq!(branch(128).size, vec![0, 128]);
    assert_eq!(branch(-1).size, vec![255]);
    assert_eq!(branch(-128).size, vec![128]);
    assert_eq!(branch(-129).size, vec![255, 127]);
    assert_eq!(branch(256).size, vec![1, 0]);
    assert_eq!(branch(1).leaf_count, 5);
    let leaf = summarise_phase(&Some(PhaseRoot::Leaf { commitment: vec![8], size: 3 }));
    assert_eq!((leaf.commitment, leaf.size, leaf.leaf_count), (vec![8], vec![3], 1));
}

#[test]
fn a_proof_of_traversal_needs_every_step() {
    let keys = vec![vec![1u8]];
    let r = |stored, decoded, proof| TraversalReport { stored, decoded, proof };
    assert_eq!(
        traversal_proof(&vec![], r(Ok(true), Ok(true), Some(vec![1]))).unwrap_err(),
        "keys must be non-empty"
    );
    assert_eq!(
        traversal_proof(&keys, r(Err("io".to_string()), Ok(true), None)).unwrap_err(),
        "load_tree_blob: io"
    );
    assert_eq!(
        traversal_proof(&keys, r(Ok(false), Ok(true), None)).unwrap_err(),
        "tree not found for domain"
    );
    assert_eq!(
        traversal_proof(&keys, r(Ok(true), Err("bad".to_string()), None)).unwrap_err(),
        "deserialize: bad"
    );
    assert_eq!(traversal_proof(&keys, r(Ok(true), Ok(false), None)).unwrap_err(), "empty tree");
    assert_eq!(
        traversal_proof(&keys, r(Ok(true), Ok(true), None)).unwrap_err(),
        "no keys matched in tree"
    );
    assert_eq!(traversal_proof(&keys, r(Ok(true), Ok(true), Some(vec![3]))), Ok(vec![3]));
}

#[test]
fn the_later_frame_is_told() {
    assert_eq!(difficulty_and_frame(Some((5, 10)), 12), (5, 12));
    assert_eq!(difficulty_and_frame(Some((5, 10)), 7), (5, 10));
    assert_eq!(difficulty_and_frame(None, 7), (0, 7));
}

#[test]
fn live_filters_of_the_own_prover_are_told() {
    let a = |f: u8, live| AllocationEntry { confirmation_filter: vec![f], live };
    let provers = vec![
        ProverEntry { address: vec![1], allocations: vec![a(1, true), a(2, false), a(3, true)] },
        ProverEntry { address: vec![2], allocations: vec![a(4, true)] },
        ProverEntry { address: vec![1], allocations: vec![a(3, true), a(5, true)] },
    ];
    assert_eq!(allocated_filters(&provers, &[1]).items, vec![vec![1], vec![3], vec![5]]);
    assert!(allocated_filters(&provers, &[9]).items.is_empty());
}

#[test]
fn incomplete_data_is_fetched() {
    let keys = vec![vec![1u8], vec![2], vec![1]];
    assert_eq!(distinct_keys(&keys).items.len(), 2);
    let l = |details, basis| Some(LocalInfo { details, basis });
    assert!(needs_remote(&None, false, true, 0, true));
    assert!(!needs_remote(&None, false, true, 0, false));
    assert!(needs_remote(&l(2, 0), false, true, 0, true));
    assert!(needs_remote(&l(1, 5), true, false, 2, true));
    assert!(!needs_remote(&l(1, 5), false, false, 2, true));
    assert!(!needs_remote(&l(1, 5), true, true, 2, true));
    assert!(!needs_remote(&l(2, 5), true, false, 2, true));
}

#[test]
fn the_first_peer_reached_is_asked() {
    assert_eq!(choose_client(Some(1), &vec![Some(2)]).unwrap(), 1);
    assert_eq!(choose_client(None, &vec![None, Some(2), Some(3)]).unwrap(), 2);
    let err = choose_client(None, &vec![None]).unwrap_err();
    assert_eq!(err.text(), "shard info: no archive endpoint reachable for fallback");
}

#[test]
fn a_part_without_a_prefix_takes_the_shards() {
    let mut told: KeyMap<Vec<u8>, AppShards> = KeyMap::new();
    told.insert(
        vec![1],
        AppShards {
            infos: vec![
                AppShardInfo { prefix: vec![], size: vec![1], data_shards: 2 },
                AppShardInfo { prefix: vec![7], size: vec![3], data_shards: 4 },
            ],
        },
    );
    let s = remote_sizes(&told, &vec![1], &vec![9, 9]);
    assert_eq!(s.len(), 2);
    assert_eq!((s[0].prefix.clone(), s[0].size.clone(), s[0].data_shards), (vec![9, 9], vec![1], 2));
    assert_eq!((s[1].prefix.clone(), s[1].size.clone(), s[1].data_shards), (vec![7], vec![3], 4));
    assert!(remote_sizes(&told, &vec![2], &vec![9]).is_empty());
}

#[test]
fn a_peers_first_way_is_taken() {
    let mut peers: KeyMap<Vec<u8>, PeerReach> = KeyMap::new();
    peers.insert(
        vec![1],
        PeerReach { reachability: vec![vec!["a".to_string(), "b".to_string()], vec!["c".to_string()]] },
    );
    peers.insert(vec![2], PeerReach { reachability: vec![] });
    assert_eq!(peer_stream_addrs(&peers, &vec![1]), vec!["a", "b"]);
    assert!(peer_stream_addrs(&peers, &vec![2]).is_empty());
    assert!(peer_stream_addrs(&peers, &vec![3]).is_empty());
}
