use quil_node::error::QuilError;
use quil_node::transport::{
    combine_publish_outcome, count_accepted, global_prover_bitmask, latest_global_frame_header,
    stream_address, ProdProverMessageTransport, SubmitOutcome,
};

fn transport(seed: bool, gossip: bool) -> ProdProverMessageTransport {
    ProdProverMessageTransport {
        ed448_seed: if seed { Some(vec![7; 57]) } else { None },
        publish_to_blossomsub: gossip,
    }
}

fn three() -> Vec<String> {
    vec![
        "1.2.3.4:8336".to_string(),
        "5.6.7.8:8336".to_string(),
        "9.10.11.12:8336".to_string(),
    ]
}

fn submit<F: Fn(&str) -> bool>(t: &ProdProverMessageTransport, pool: &Vec<String>, takes: F) -> (usize, usize) {
    let plan = t.plan_publish(pool);
    let mut calls = 0;
    let mut outcomes = Vec::new();
    for addr in plan.archives {
        calls += 1;
        if takes(&addr) {
            outcomes.push(SubmitOutcome::Accepted(addr));
        } else {
            outcomes.push(SubmitOutcome::Failed(addr, "simulated reject".to_string()));
        }
    }
    (calls, count_accepted(&outcomes))
}

#[test]
fn publish_prover_message_fans_out_to_all_archives() {
    let (calls, ok) = submit(&transport(true, false), &three(), |_| true);
    assert_eq!(ok, 3, "expected 3 successful submissions");
    assert_eq!(calls, 3, "expected 3 closure invocations (one per archive)");
}

#[test]
fn publish_prover_message_falls_back_when_one_archive_fails() {
    let (_, ok) = submit(&transport(true, false), &three(), |addr| !addr.starts_with("5."));
    assert_eq!(ok, 2, "expected 2 successful, 1 failure");
}

#[test]
fn publish_prover_message_all_archives_fail() {
    let (_, ok) = submit(&transport(true, false), &vec!["1.2.3.4:8336".to_string()], |_| false);
    assert_eq!(ok, 0, "expected 0 successful submissions");
}

#[test]
fn publish_prover_message_empty_archive_list() {
    let (_, ok) = submit(&transport(true, false), &vec![], |_| true);
    assert_eq!(ok, 0, "expected 0 successful submissions with empty list");
}

#[test]
fn archives_are_reached_on_their_stream_port() {
    assert_eq!(stream_address("1.2.3.4:8336"), "1.2.3.4:8340");
    assert_eq!(stream_address("1.2.3.4:8340"), "1.2.3.4:8340");
    assert_eq!(stream_address(":8336:8336:83"), ":8340:8340:83");
    assert_eq!(stream_address(""), "");
    let plan = transport(true, true).plan_publish(&three());
    assert_eq!(plan.archives, vec!["1.2.3.4:8340", "5.6.7.8:8340", "9.10.11.12:8340"]);
    assert!(plan.gossip);
}

#[test]
fn without_an_identity_no_archive_is_asked() {
    let plan = transport(false, false).plan_publish(&three());
    assert!(plan.archives.is_empty());
    assert!(!plan.gossip);
    assert_eq!(transport(false, false).header_sources(&three()), Vec::<String>::new());
    assert_eq!(transport(true, false).header_sources(&vec![]), Vec::<String>::new());
    assert_eq!(transport(true, false).header_sources(&three()), three());
}

#[test]
fn publishing_fails_only_where_every_path_fails() {
    assert!(combine_publish_outcome(1, false).is_ok());
    assert!(combine_publish_outcome(0, true).is_ok());
    match combine_publish_outcome(0, false) {
        Err(QuilError::P2p(m)) => assert_eq!(
            m,
            "publish_prover_bundle: all paths failed (no archive accepted, BlossomSub publish failed)"
        ),
        _ => panic!("no path is left"),
    }
}

#[test]
fn one_archive_is_enough() {
    let t = transport(true, true);
    let lost = vec![
        SubmitOutcome::Lost,
        SubmitOutcome::Failed("a".to_string(), "b".to_string()),
        SubmitOutcome::Accepted("c".to_string()),
    ];
    assert!(t.finish_publish(&lost, Some(false)).is_ok());
    let none = vec![SubmitOutcome::Lost];
    assert!(t.finish_publish(&none, Some(false)).is_err());
    assert!(t.finish_publish(&none, Some(true)).is_ok());
    assert!(t.finish_publish(&none, None).is_ok());
}

#[test]
fn the_archives_header_comes_first() {
    assert_eq!(latest_global_frame_header(vec![Some(9u64)], Err("gone".to_string())).unwrap(), 9);
    assert_eq!(latest_global_frame_header(vec![], Ok(Some(4u64))).unwrap(), 4);
    // The first archive cannot be reached, and the second answers.
    assert_eq!(latest_global_frame_header(vec![None, Some(7u64), Some(8)], Ok(Some(4))).unwrap(), 7);
    assert_eq!(latest_global_frame_header(vec![None, None], Ok(Some(4u64))).unwrap(), 4);
    match latest_global_frame_header::<u64>(vec![None], Ok(None)) {
        Err(QuilError::Internal(m)) => assert_eq!(m, "local frame missing header"),
        _ => panic!("there is no header"),
    }
    match latest_global_frame_header::<u64>(vec![None], Err("empty store".to_string())) {
        Err(QuilError::Internal(m)) => assert_eq!(m, "no local frame: empty store"),
        _ => panic!("there is no frame"),
    }
}

#[test]
fn prover_messages_have_a_fixed_topic() {
    assert_eq!(global_prover_bitmask(), vec![0, 0, 0]);
}
