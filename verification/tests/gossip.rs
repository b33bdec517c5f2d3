use quil_node::assoc::{KeyMap, KeySet};
use quil_node::behaviour::{
    BlossomSubBehaviour, BlossomsubParams, MAX_OTHER_ADVERTISERS, MAX_SUBSCRIPTIONS_PER_PEER,
};
use quil_node::blossomsub::{BlossomSubRouter, MeshParams};
use quil_node::gossip::{BackoffRule, Backoffs, Scores, build_composite, PeerSubscriptions};
use quil_node::membership::signing_bytes;
use quil_node::message_cache::MessageCache;
use quil_node::sorting::sort_scores;
use quil_node::wire::{
    BlossomSubEvent, Charge, Control, Ihave, Incoming, OutRpc, Rpc, SubOpts, ValidationResult,
    WireMessage,
};

fn params() -> BlossomsubParams {
    BlossomsubParams {
        d: 8,
        d_lo: 6,
        d_hi: 12,
        d_score: 4,
        d_lazy: 6,
        prune_backoff: 60_000,
        fanout_ttl: 60_000,
        iwant_followup_time: 3_000,
        heartbeat_interval: 700,
        history_length: 5,
        history_gossip: 3,
        gossip_threshold: -100,
        opportunistic_graft_threshold: 5,
    }
}

fn behaviour() -> BlossomSubBehaviour {
    BlossomSubBehaviour::with_params(params(), 0, 0)
}

fn two_slice_bitmask() -> (Vec<u8>, Vec<Vec<u8>>) {
    (vec![0xC0], vec![vec![0x80], vec![0x40]])
}

fn seed_subscription(bh: &mut BlossomSubBehaviour, peer: u64, bitmasks: &[Vec<u8>]) {
    let subs = bitmasks
        .iter()
        .map(|b| SubOpts { subscribe: true, bitmask: b.clone() })
        .collect();
    bh.handle_subscriptions(peer, &subs);
}

fn control(c: Control) -> Rpc {
    Rpc { subscriptions: vec![], publish: vec![], control: Some(c) }
}

fn no_control() -> Control {
    Control { graft: vec![], prune: vec![], ihave: vec![], iwant: vec![] }
}

fn graft_rpc(bitmask: &[u8]) -> Rpc {
    control(Control { graft: vec![bitmask.to_vec()], ..no_control() })
}

fn prune_rpc(bitmask: &[u8]) -> Rpc {
    control(Control { prune: vec![bitmask.to_vec()], ..no_control() })
}

const PEER: u64 = 7;

fn same(bh: &BlossomSubBehaviour, bitmask: &Vec<u8>) -> bool {
    match bh.composites.get(bitmask) {
        Some(c) => c.same.contains(&PEER),
        None => panic!("no composite"),
    }
}

fn broker(bh: &BlossomSubBehaviour, bitmask: &Vec<u8>) -> bool {
    match bh.composites.get(bitmask) {
        Some(c) => c.broker.contains(&PEER),
        None => panic!("no composite"),
    }
}

fn in_mesh(bh: &BlossomSubBehaviour, bitmask: &Vec<u8>, peer: u64) -> bool {
    match bh.mesh.get(bitmask) {
        Some(m) => m.contains(&peer),
        None => false,
    }
}

#[test]
fn graft_of_peer_subscribed_to_all_slices_classified_as_same() {
    let (bitmask, slices) = two_slice_bitmask();
    let mut bh = behaviour();
    bh.subscriptions.insert(bitmask.clone());
    bh.join_composite(&bitmask, &slices);
    seed_subscription(&mut bh, PEER, &slices);
    bh.handle_rpc(PEER, &graft_rpc(&slices[0]), 0, 0);
    assert!(same(&bh, &bitmask), "peer should be in same");
    assert!(!broker(&bh, &bitmask));
    for s in &slices {
        assert!(in_mesh(&bh, s, PEER), "peer missing from slice mesh");
    }
}

#[test]
fn prune_of_single_slice_demotes_same_to_broker_and_keeps_in_other_slices() {
    let (bitmask, slices) = two_slice_bitmask();
    let mut bh = behaviour();
    bh.subscriptions.insert(bitmask.clone());
    bh.join_composite(&bitmask, &slices);
    seed_subscription(&mut bh, PEER, &slices);
    bh.handle_rpc(PEER, &graft_rpc(&slices[0]), 0, 0);
    assert!(same(&bh, &bitmask));
    bh.handle_rpc(PEER, &prune_rpc(&slices[0]), 0, 0);
    assert!(!same(&bh, &bitmask), "should not still be same");
    assert!(broker(&bh, &bitmask), "should be broker");
    for s in &slices {
        assert!(
            in_mesh(&bh, s, PEER),
            "broker must remain in slice mesh after single-slice PRUNE"
        );
    }
}

#[test]
fn graft_of_peer_subscribed_to_some_slices_classified_as_broker() {
    let (bitmask, slices) = two_slice_bitmask();
    let mut bh = behaviour();
    bh.subscriptions.insert(bitmask.clone());
    bh.join_composite(&bitmask, &slices);
    seed_subscription(&mut bh, PEER, &[slices[0].clone()]);
    bh.handle_rpc(PEER, &graft_rpc(&slices[0]), 0, 0);
    assert!(!same(&bh, &bitmask));
    assert!(broker(&bh, &bitmask));
    for s in &slices {
        assert!(in_mesh(&bh, s, PEER));
    }
}

#[test]
fn graft_after_partial_prune_restores_same_when_fully_subscribed() {
    let (bitmask, slices) = two_slice_bitmask();
    let mut bh = behaviour();
    bh.subscriptions.insert(bitmask.clone());
    bh.join_composite(&bitmask, &slices);
    seed_subscription(&mut bh, PEER, &slices);
    bh.handle_rpc(PEER, &graft_rpc(&slices[0]), 0, 0);
    bh.handle_rpc(PEER, &prune_rpc(&slices[0]), 0, 0);
    assert!(broker(&bh, &bitmask));
    bh.handle_rpc(PEER, &graft_rpc(&slices[0]), 0, 0);
    assert!(same(&bh, &bitmask), "should promote to same");
    assert!(!broker(&bh, &bitmask), "should leave broker");
}

fn message(bitmask: &[u8], data: u8) -> WireMessage {
    WireMessage {
        from: vec![1],
        data: vec![data],
        seqno: vec![0; 8],
        bitmask: bitmask.to_vec(),
        signature: vec![],
        key: vec![],
    }
}

fn incoming(id: u8, verdict: Option<ValidationResult>) -> Incoming {
    Incoming { id: vec![id], verdict, message: message(&[1], id) }
}

fn drain(bh: &mut BlossomSubBehaviour) -> Vec<BlossomSubEvent> {
    let mut out = Vec::new();
    while let Some(e) = bh.next_event() {
        out.push(e);
    }
    out
}

fn delivered(events: &[BlossomSubEvent]) -> usize {
    events.iter().filter(|e| matches!(e, BlossomSubEvent::Message { .. })).count()
}

#[test]
fn a_message_is_taken_once() {
    let mut bh = behaviour();
    bh.subscribe(&vec![1], &vec![vec![1]]);
    drain(&mut bh);
    bh.handle_publishes(PEER, &vec![incoming(5, None), incoming(5, None)]);
    assert_eq!(delivered(&drain(&mut bh)), 1);
    bh.handle_publishes(8, &vec![incoming(5, None)]);
    assert_eq!(delivered(&drain(&mut bh)), 0);
}

#[test]
fn a_refused_message_is_charged() {
    let mut bh = behaviour();
    bh.subscribe(&vec![1], &vec![vec![1]]);
    drain(&mut bh);
    bh.handle_publishes(
        PEER,
        &vec![
            incoming(5, Some(ValidationResult::Reject)),
            incoming(6, Some(ValidationResult::Ignore)),
            incoming(7, Some(ValidationResult::Accept)),
        ],
    );
    assert_eq!(delivered(&drain(&mut bh)), 1);
    assert_eq!(bh.charges.len(), 1);
    assert!(matches!(&bh.charges[0], Charge::Invalid { peer_id: PEER, .. }));
}

#[test]
fn messages_are_forwarded_to_the_rest_of_the_mesh() {
    let mut bh = behaviour();
    bh.subscribe(&vec![1], &vec![vec![1]]);
    for p in [PEER, 8, 9] {
        bh.connection_established(p, p * 10);
        seed_subscription(&mut bh, p, &[vec![1]]);
        bh.handle_rpc(p, &graft_rpc(&[1]), 0, 0);
    }
    assert_eq!(bh.mesh_peers(&vec![1]), 3);
    assert_eq!(bh.mesh_peer_counts(), 3);
    assert_eq!(bh.num_connected(), 3);
    drain(&mut bh);
    bh.handle_publishes(PEER, &vec![incoming(5, None)]);
    let mut targets: Vec<u64> = drain(&mut bh)
        .iter()
        .filter_map(|e| match e {
            BlossomSubEvent::Send { peer_id, rpc: OutRpc::Publish(m), .. } if m[0].data == vec![5] => {
                Some(*peer_id)
            }
            _ => None,
        })
        .collect();
    targets.sort();
    assert_eq!(targets, vec![8, 9]);
}

#[test]
fn subscriptions_are_capped() {
    let mut bh = behaviour();
    let many: Vec<Vec<u8>> = (0..300u32).map(|i| i.to_be_bytes().to_vec()).collect();
    seed_subscription(&mut bh, PEER, &many);
    match bh.peer_subscriptions.get(&PEER) {
        Some(s) => assert_eq!(s.len(), MAX_SUBSCRIPTIONS_PER_PEER),
        None => panic!("the peer subscribed"),
    }
}

fn ihave(ids: &[u8]) -> Rpc {
    control(Control {
        ihave: vec![Ihave { bitmask: vec![1], ids: ids.iter().map(|i| vec![*i]).collect() }],
        ..no_control()
    })
}

#[test]
fn what_is_missing_is_asked_for_and_what_came_is_not() {
    let mut bh = behaviour();
    bh.subscribe(&vec![1], &vec![vec![1]]);
    bh.connection_established(PEER, 70);
    drain(&mut bh);
    bh.handle_publishes(PEER, &vec![incoming(5, None)]);
    drain(&mut bh);
    bh.handle_rpc(PEER, &ihave(&[5, 6]), 0, 100);
    let asked: Vec<Vec<Vec<u8>>> = drain(&mut bh)
        .into_iter()
        .filter_map(|e| match e {
            BlossomSubEvent::Send { rpc: OutRpc::Iwant(ids), .. } => Some(ids),
            _ => None,
        })
        .collect();
    assert_eq!(asked, vec![vec![vec![6]]]);
    assert!(bh.pending_iwants.contains_key(&vec![6]));
    for p in 20..40u64 {
        bh.handle_rpc(p, &ihave(&[6]), 0, 100);
    }
    match bh.pending_iwants.get(&vec![6]) {
        Some(p) => assert!(p.other_advertisers.len() <= MAX_OTHER_ADVERTISERS),
        None => panic!("the message is still missing"),
    }
    bh.handle_publishes(PEER, &vec![incoming(6, None)]);
    assert!(!bh.pending_iwants.contains_key(&vec![6]));
}

#[test]
fn a_late_answer_is_charged_and_another_peer_is_asked() {
    let mut bh = behaviour();
    bh.subscribe(&vec![1], &vec![vec![1]]);
    bh.connection_established(PEER, 70);
    bh.connection_established(8, 80);
    bh.handle_rpc(PEER, &ihave(&[6]), 0, 100);
    bh.handle_rpc(8, &ihave(&[6]), 0, 100);
    drain(&mut bh);
    bh.process_iwant_followups(100 + 3_000);
    match bh.pending_iwants.get(&vec![6]) {
        Some(p) => assert_eq!(p.asked, 8),
        None => panic!("another peer has it"),
    }
    assert!(bh.charges.iter().any(|c| matches!(c, Charge::Invalid { peer_id: PEER, .. })));
    bh.process_iwant_followups(100 + 6_000);
    assert!(!bh.pending_iwants.contains_key(&vec![6]));
}

#[test]
fn an_asked_for_message_is_sent_from_the_cache() {
    let mut bh = behaviour();
    bh.subscribe(&vec![1], &vec![vec![1]]);
    bh.connection_established(PEER, 70);
    bh.handle_publishes(9, &vec![incoming(5, None)]);
    drain(&mut bh);
    let iwant = control(Control { iwant: vec![vec![vec![5], vec![77]]], ..no_control() });
    bh.handle_rpc(PEER, &iwant, 0, 100);
    let sent: Vec<usize> = drain(&mut bh)
        .iter()
        .filter_map(|e| match e {
            BlossomSubEvent::Send { peer_id: PEER, rpc: OutRpc::Publish(m), .. } => Some(m.len()),
            _ => None,
        })
        .collect();
    assert_eq!(sent, vec![1]);
}

#[test]
fn a_graft_during_backoff_is_refused() {
    let mut bh = behaviour();
    bh.subscribe(&vec![1], &vec![vec![1]]);
    bh.connection_established(PEER, 70);
    seed_subscription(&mut bh, PEER, &[vec![1]]);
    bh.handle_rpc(PEER, &graft_rpc(&[1]), 0, 10);
    assert!(in_mesh(&bh, &vec![1], PEER));
    bh.handle_rpc(PEER, &prune_rpc(&[1]), 0, 20);
    assert!(!in_mesh(&bh, &vec![1], PEER));
    bh.send_prune(100, PEER, &vec![1]);
    bh.handle_rpc(PEER, &graft_rpc(&[1]), 0, 30_000);
    assert!(!in_mesh(&bh, &vec![1], PEER));
    assert!(bh.charges.iter().any(|c| matches!(c, Charge::Penalty { peer_id: PEER })));
    bh.handle_rpc(PEER, &graft_rpc(&[1]), 0, 89_999);
    assert!(!in_mesh(&bh, &vec![1], PEER));
    bh.handle_rpc(PEER, &graft_rpc(&[1]), 0, 149_999);
    assert!(in_mesh(&bh, &vec![1], PEER));
}

#[test]
fn a_peer_with_a_bad_score_is_not_grafted() {
    let mut bh = behaviour();
    bh.subscribe(&vec![1], &vec![vec![1]]);
    bh.handle_rpc(PEER, &graft_rpc(&[1]), -1, 10);
    assert!(!in_mesh(&bh, &vec![1], PEER));
    bh.handle_rpc(PEER, &graft_rpc(&[2]), 0, 10);
    assert!(!in_mesh(&bh, &vec![2], PEER));
}

fn scores(list: &[(u64, i64)]) -> Scores {
    let mut table = KeyMap::new();
    for (p, s) in list {
        table.insert(*p, *s);
    }
    Scores { table }
}

#[test]
fn a_heartbeat_fills_the_mesh_and_drops_bad_peers() {
    let mut bh = behaviour();
    bh.subscribe(&vec![1], &vec![vec![1]]);
    for p in 1..=10u64 {
        bh.connection_established(p, p * 10);
        seed_subscription(&mut bh, p, &[vec![1]]);
    }
    assert!(!bh.heartbeat_due(699));
    assert!(bh.heartbeat_due(700));
    bh.heartbeat(&scores(&[(1, -5)]), 700);
    bh.heartbeat_done(700);
    assert!(!bh.heartbeat_due(1_000));
    assert_eq!(bh.mesh_peers(&vec![1]), 8);
    assert!(!in_mesh(&bh, &vec![1], 1));
    bh.heartbeat(&scores(&[(2, -5)]), 1_400);
    assert!(!in_mesh(&bh, &vec![1], 2));
}

#[test]
fn a_full_mesh_is_cut_back() {
    let mut bh = behaviour();
    bh.subscribe(&vec![1], &vec![vec![1]]);
    for p in 1..=20u64 {
        bh.connection_established(p, p * 10);
        seed_subscription(&mut bh, p, &[vec![1]]);
    }
    for p in 1..=20u64 {
        let mut m = KeySet::new();
        for q in 1..=p {
            m.insert(q);
        }
        bh.mesh.insert(vec![1], m);
    }
    bh.heartbeat(&scores(&[]), 700);
    assert_eq!(bh.mesh_peers(&vec![1]), 8);
}

#[test]
fn a_closed_connection_leaves_the_meshes() {
    let mut bh = behaviour();
    bh.subscribe(&vec![1], &vec![vec![1]]);
    bh.connection_established(PEER, 70);
    bh.connection_established(PEER, 71);
    seed_subscription(&mut bh, PEER, &[vec![1]]);
    bh.handle_rpc(PEER, &graft_rpc(&[1]), 0, 10);
    bh.connection_closed(PEER, 70, 5_000);
    assert_eq!(bh.num_connected(), 1);
    assert!(in_mesh(&bh, &vec![1], PEER));
    bh.connection_closed(PEER, 71, 5_100);
    assert_eq!(bh.num_connected(), 0);
    assert!(!in_mesh(&bh, &vec![1], PEER));
}

#[test]
fn leaving_a_topic_tears_its_mesh_down() {
    let (bitmask, slices) = two_slice_bitmask();
    let mut bh = behaviour();
    bh.subscribe(&bitmask, &slices);
    assert!(bh.composites.contains_key(&bitmask));
    bh.unsubscribe(&bitmask);
    assert!(!bh.composites.contains_key(&bitmask));
    assert!(!bh.subscriptions.contains(&bitmask));
    assert!(bh.greeting.is_none());
    assert_eq!(bh.mesh_peers(&bitmask), 0);
}

#[test]
fn denied_peers_are_denied() {
    let mut bh = behaviour();
    assert!(!bh.denies(PEER));
    bh.blacklist_peer(PEER);
    assert!(bh.denies(PEER));
    bh.add_direct_peer(8);
    assert!(bh.direct_peers.contains(&8));
}

#[test]
fn publishing_counts_up_and_signs() {
    let mut bh = behaviour();
    bh.subscribe(&vec![1], &vec![vec![1]]);
    bh.set_signing_identity(vec![9, 9]);
    let draft = bh.unsigned_message(&vec![1], &vec![5]);
    assert_eq!(draft.from, vec![9, 9]);
    let first = bh.seqno_counter;
    assert!(bh.publish(&vec![1], &vec![5], &vec![50], &Some((vec![1], vec![2])), 3).is_ok());
    assert_eq!(bh.seqno_counter, first + 1);
    assert!(bh.seen_messages.contains(&vec![50]));
    assert!(signing_bytes(&[1, 2]).ends_with(&[1, 2]));
}

#[test]
fn a_cached_message_lasts_as_long_as_its_window() {
    let mut c = MessageCache::new(2, 1);
    c.put(vec![1], vec![9], vec![5], PEER);
    match c.get(&vec![1]) {
        Some((bitmask, data)) => {
            assert_eq!(bitmask, &[9]);
            assert_eq!(data, &[5]);
        }
        None => panic!("it was put there"),
    }
    assert_eq!(c.get_gossip_ids(&[9]), vec![vec![1]]);
    assert!(c.get_gossip_ids(&[8]).is_empty());
    c.shift();
    assert!(c.get_gossip_ids(&[9]).is_empty());
    assert!(c.get(&vec![1]).is_some());
    c.shift();
    assert!(c.get(&vec![1]).is_none());
    for i in 0..10u8 {
        c.put(vec![i], vec![9], vec![5], PEER);
        c.shift();
        assert!(c.windows.len() <= 2);
    }
}

fn router() -> BlossomSubRouter {
    let mut r = BlossomSubRouter::new(MeshParams { d: 3, d_lo: 2, d_hi: 4 }, 5, 3);
    for p in 1..=6u64 {
        r.peers.insert(p, "blossomsub".to_string());
        let mut subs = KeySet::new();
        subs.insert(vec![1]);
        r.peer_subscriptions.insert(p, subs);
    }
    r
}

#[test]
fn a_router_joins_with_as_many_peers_as_it_wants() {
    let mut r = router();
    let grafts = r.join(&vec![1], &vec![vec![1]], 0);
    assert_eq!(grafts.len(), 3);
    match r.mesh.get(&vec![1]) {
        Some(m) => assert_eq!(m.len(), 3),
        None => panic!("the topic was joined"),
    }
    let prunes = r.leave(&vec![1]);
    assert_eq!(prunes.len(), 3);
    assert!(!r.mesh.contains_key(&vec![1]));
}

#[test]
fn a_routers_heartbeat_keeps_the_mesh_in_bounds() {
    let mut r = router();
    r.join(&vec![1], &vec![vec![1]], 0);
    let mut all = KeySet::new();
    for p in 1..=6u64 {
        all.insert(p);
    }
    r.mesh.insert(vec![1], all);
    let a = r.heartbeat(0);
    assert!(!a.prunes.is_empty());
    match r.mesh.get(&vec![1]) {
        Some(m) => assert!(m.len() <= 4),
        None => panic!("the topic is still joined"),
    }
    let mut gone = KeySet::new();
    gone.insert(99);
    r.mesh.insert(vec![1], gone);
    r.heartbeat(0);
    match r.mesh.get(&vec![1]) {
        Some(m) => assert!(!m.contains(&99)),
        None => panic!("the topic is still joined"),
    }
}

#[test]
fn a_composite_prefers_peers_on_all_slices() {
    let (bitmask, slices) = two_slice_bitmask();
    let mut subs: PeerSubscriptions = KeyMap::new();
    for p in 1..=3u64 {
        let mut s = KeySet::new();
        s.insert(slices[0].clone());
        if p == 3 {
            s.insert(slices[1].clone());
        }
        subs.insert(p, s);
    }
    let backoffs: Backoffs = KeyMap::new();
    let c = build_composite(&subs, &backoffs, BackoffRule::Ignored, &bitmask, &slices, 2);
    assert_eq!(c.same.items, vec![3]);
    assert_eq!(c.broker.len(), 1);
    assert_eq!(c.total_peers(), 2);
}

#[test]
fn scores_are_sorted() {
    assert_eq!(sort_scores(&vec![3, -1, 2, -1]), vec![-1, -1, 2, 3]);
    assert!(sort_scores(&vec![]).is_empty());
}

#[test]
fn a_connected_peer_is_told_the_subscriptions() {
    let mut bh = behaviour();
    bh.subscribe(&vec![1], &vec![vec![1]]);
    bh.connection_established(PEER, 70);
    drain(&mut bh);
    bh.send_subscriptions_to_peer(PEER);
    match drain(&mut bh).first() {
        Some(BlossomSubEvent::Send { peer_id, rpc: OutRpc::Subscribe(s), .. }) => {
            assert_eq!(*peer_id, PEER);
            assert_eq!(*s, vec![vec![1]]);
        }
        _ => panic!("the peer is connected"),
    }
    bh.send_subscriptions_to_peer(99);
    assert!(drain(&mut bh).is_empty());
}

#[test]
fn leaving_a_composite_prunes_its_peers() {
    let (bitmask, slices) = two_slice_bitmask();
    let mut r = BlossomSubRouter::new(MeshParams { d: 3, d_lo: 2, d_hi: 4 }, 5, 3);
    for p in 1..=2u64 {
        r.peers.insert(p, "blossomsub".to_string());
        let mut subs = KeySet::new();
        subs.insert(slices[0].clone());
        if p == 1 {
            subs.insert(slices[1].clone());
        }
        r.peer_subscriptions.insert(p, subs);
    }
    let grafts = r.join(&bitmask, &slices, 0);
    assert_eq!(grafts, vec![(1, bitmask.clone()), (2, bitmask.clone())]);
    assert_eq!(r.leave(&bitmask), grafts);
    assert!(!r.composites.contains_key(&bitmask));
    assert!(r.leave(&bitmask).is_empty());
}

#[test]
fn a_direct_peer_stays_whatever_its_score() {
    let mut bh = behaviour();
    bh.add_direct_peer(PEER);
    bh.subscribe(&vec![1], &vec![vec![1]]);
    for p in 1..=10u64 {
        bh.connection_established(p, p * 10);
        seed_subscription(&mut bh, p, &[vec![1]]);
    }
    for beat in 1..=3u64 {
        bh.heartbeat(&scores(&[(PEER, -50), (2, -50)]), beat * 700);
        assert!(in_mesh(&bh, &vec![1], PEER));
        assert!(!in_mesh(&bh, &vec![1], 2));
    }
    let mut all = KeySet::new();
    for p in 1..=20u64 {
        all.insert(p);
    }
    bh.mesh.insert(vec![1], all);
    bh.heartbeat(&scores(&[(PEER, -50)]), 2_800);
    assert!(in_mesh(&bh, &vec![1], PEER));
    assert_eq!(bh.mesh_peers(&vec![1]), 8);
}

#[test]
fn joining_and_leaving_a_composite_restores_what_was_there() {
    let (bitmask, slices) = two_slice_bitmask();
    let other = vec![0x60];
    let mut bh = behaviour();
    seed_subscription(&mut bh, PEER, &[vec![0x40], vec![0x20]]);
    bh.join_composite(&other, &vec![vec![0x40], vec![0x20]]);
    assert!(in_mesh(&bh, &vec![0x40], PEER) && in_mesh(&bh, &vec![0x20], PEER));
    seed_subscription(&mut bh, 8, &slices);
    bh.join_composite(&bitmask, &slices);
    assert!(in_mesh(&bh, &vec![0x80], 8) && in_mesh(&bh, &vec![0x40], 8));
    bh.leave_composite(&bitmask);
    assert!(!bh.composites.contains_key(&bitmask));
    assert!(bh.composites.contains_key(&other));
    assert!(!bh.slice_to_composite.contains_key(&vec![0x80]));
    match bh.slice_to_composite.get(&vec![0x40]) {
        Some(l) => assert_eq!(l.items, vec![other.clone()]),
        None => panic!("the slice still has a composite"),
    }
    assert!(!bh.mesh.contains_key(&vec![0x80]));
    assert!(in_mesh(&bh, &vec![0x40], PEER) && !in_mesh(&bh, &vec![0x40], 8));
    assert!(in_mesh(&bh, &vec![0x20], PEER));
}

#[test]
fn a_graft_undoes_a_prune() {
    let (bitmask, slices) = two_slice_bitmask();
    let mut bh = behaviour();
    seed_subscription(&mut bh, PEER, &slices);
    bh.join_composite(&bitmask, &slices);
    assert!(same(&bh, &bitmask) && !broker(&bh, &bitmask));
    bh.handle_rpc(PEER, &prune_rpc(&slices[1]), 0, 0);
    assert!(!same(&bh, &bitmask) && broker(&bh, &bitmask));
    bh.handle_rpc(PEER, &graft_rpc(&slices[1]), 0, 0);
    assert!(same(&bh, &bitmask) && !broker(&bh, &bitmask));
}

#[test]
fn a_message_outlasts_all_but_the_last_shift_of_its_history() {
    for history in 1..=6usize {
        let mut c = MessageCache::new(history, 1);
        c.put(vec![1], vec![9], vec![5], PEER);
        for i in 1..history {
            c.put(vec![2], vec![9], vec![6], PEER);
            c.shift();
            c.put(vec![3, i as u8], vec![9], vec![7], PEER);
            assert!(c.get(&vec![1]).is_some());
        }
        c.shift();
        assert!(c.get(&vec![1]).is_none());
        c.put(vec![4], vec![9], vec![8], PEER);
        c.shift();
        assert!(c.get(&vec![1]).is_none());
    }
}

#[test]
fn a_better_peer_is_taken_in_unless_its_score_is_negative() {
    let mut bh = behaviour();
    bh.add_direct_peer(1);
    bh.subscribe(&vec![1], &vec![vec![1]]);
    bh.connection_established(1, 10);
    seed_subscription(&mut bh, 1, &[vec![1]]);
    bh.connection_established(2, 20);
    seed_subscription(&mut bh, 2, &[vec![1]]);
    for beat in 1..=60u64 {
        bh.heartbeat(&scores(&[(1, -50), (2, -10)]), beat * 700);
    }
    // The median is that of the direct peer alone.
    assert!(in_mesh(&bh, &vec![1], 1));
    assert!(!in_mesh(&bh, &vec![1], 2));

    let mut bh = behaviour();
    bh.subscribe(&vec![1], &vec![vec![1]]);
    for p in 1..=8u64 {
        bh.connection_established(p, p * 10);
        seed_subscription(&mut bh, p, &[vec![1]]);
    }
    for beat in 1..=59u64 {
        bh.heartbeat(&scores(&[]), beat * 700);
    }
    bh.connection_established(9, 90);
    seed_subscription(&mut bh, 9, &[vec![1]]);
    assert_eq!(bh.mesh_peers(&vec![1]), 8);
    bh.heartbeat(&scores(&[(9, 1)]), 60 * 700);
    assert!(in_mesh(&bh, &vec![1], 9));
}

#[test]
fn the_index_stays_the_reverse_of_the_composites() {
    let (bitmask, slices) = two_slice_bitmask();
    let other = vec![0x60];
    let mut bh = behaviour();
    seed_subscription(&mut bh, PEER, &slices);
    bh.join_composite(&bitmask, &slices);
    bh.join_composite(&other, &vec![vec![0x40], vec![0x20]]);
    bh.handle_rpc(PEER, &graft_rpc(&[0x40]), 0, 0);
    bh.handle_rpc(PEER, &prune_rpc(&[0x40]), 0, 0);
    let named = |bh: &BlossomSubBehaviour, slice: u8| match bh.slice_to_composite.get(&vec![slice]) {
        Some(l) => l.items.clone(),
        None => vec![],
    };
    assert_eq!(named(&bh, 0x80), vec![bitmask.clone()]);
    assert_eq!(named(&bh, 0x40), vec![bitmask.clone(), other.clone()]);
    assert_eq!(named(&bh, 0x20), vec![other.clone()]);
    for key in [&bitmask, &other] {
        match bh.composites.get(key) {
            Some(c) => assert!(!(c.same.contains(&PEER) && c.broker.contains(&PEER))),
            None => panic!("both are joined"),
        }
    }
    bh.leave_composite(&other);
    assert_eq!(named(&bh, 0x40), vec![bitmask.clone()]);
    assert!(named(&bh, 0x20).is_empty());
}

#[test]
fn a_heartbeat_leaves_the_composites_alone() {
    let (bitmask, slices) = two_slice_bitmask();
    let mut bh = behaviour();
    bh.connection_established(PEER, 70);
    seed_subscription(&mut bh, PEER, &slices);
    bh.subscribe(&bitmask, &slices);
    assert!(same(&bh, &bitmask));
    for beat in 1..=3u64 {
        bh.heartbeat(&scores(&[(PEER, -5)]), beat * 700);
        assert!(same(&bh, &bitmask) && !broker(&bh, &bitmask));
        assert!(bh.slice_to_composite.contains_key(&slices[0]));
        assert!(bh.subscriptions.contains(&bitmask));
        assert_eq!(bh.num_connected(), 1);
    }
}

#[test]
fn a_target_next_to_its_bounds_is_allowed() {
    // The lower bound is one above the target, and the upper bound one below it.
    let tight = BlossomsubParams { d: 4, d_lo: 5, d_hi: 3, d_score: 0, ..params() };
    let mut bh = BlossomSubBehaviour::with_params(tight, 0, 0);
    bh.subscribe(&vec![1], &vec![vec![1]]);
    for p in 1..=9u64 {
        bh.connection_established(p, p * 10);
        seed_subscription(&mut bh, p, &[vec![1]]);
    }
    bh.heartbeat(&scores(&[]), 700);
    assert_eq!(bh.mesh_peers(&vec![1]), 4);
    bh.heartbeat(&scores(&[]), 1_400);
    assert_eq!(bh.mesh_peers(&vec![1]), 4);
}
