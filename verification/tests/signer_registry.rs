use quil_node::signer_registry::{CanonicalKeyRegistry, SignerRegistry};

#[test]
fn update_and_lookup() {
    let mut reg = SignerRegistry::new();
    let entry = CanonicalKeyRegistry {
        ed448_pubkey: vec![0x11; 57],
        bls_pubkey: vec![0x22; 585],
        identity_to_prover_sig: vec![0x33; 114],
        prover_to_identity_sig: vec![0x44; 74],
        keys_by_purpose: Vec::new(),
        last_updated_ms: 1,
    };
    reg.update(entry);
    let pk = reg.bls_pubkey_for_identity(&[0x11; 57]).unwrap();
    assert_eq!(pk, vec![0x22; 585]);
    let id = reg.identity_for_prover(&[0x22; 585]).unwrap();
    assert_eq!(id, vec![0x11; 57]);
}

#[test]
fn newer_timestamp_wins() {
    let mut reg = SignerRegistry::new();
    let old = CanonicalKeyRegistry {
        ed448_pubkey: vec![0x11; 57],
        bls_pubkey: vec![0xAA; 585],
        last_updated_ms: 10,
        ..Default::default()
    };
    let new = CanonicalKeyRegistry {
        ed448_pubkey: vec![0x11; 57],
        bls_pubkey: vec![0xBB; 585],
        last_updated_ms: 20,
        ..Default::default()
    };
    reg.update(old);
    reg.update(new);
    let pk = reg.bls_pubkey_for_identity(&[0x11; 57]).unwrap();
    assert_eq!(pk, vec![0xBB; 585], "newer ts should win");
}

#[test]
fn older_timestamp_ignored() {
    let mut reg = SignerRegistry::new();
    let new = CanonicalKeyRegistry {
        ed448_pubkey: vec![0x11; 57],
        bls_pubkey: vec![0xBB; 585],
        last_updated_ms: 20,
        ..Default::default()
    };
    let old = CanonicalKeyRegistry {
        ed448_pubkey: vec![0x11; 57],
        bls_pubkey: vec![0xAA; 585],
        last_updated_ms: 10,
        ..Default::default()
    };
    reg.update(new);
    reg.update(old);
    let pk = reg.bls_pubkey_for_identity(&[0x11; 57]).unwrap();
    assert_eq!(pk, vec![0xBB; 585], "older ts replay should be ignored");
}

fn announcement(identity: u8, prover: u8, ms: u64) -> CanonicalKeyRegistry {
    CanonicalKeyRegistry {
        ed448_pubkey: vec![identity; 57],
        bls_pubkey: vec![prover; 585],
        last_updated_ms: ms,
        ..Default::default()
    }
}

#[test]
fn a_registry_without_entries_knows_nobody() {
    let reg = SignerRegistry::new();
    assert!(reg.is_empty());
    assert_eq!(reg.len(), 0);
    assert_eq!(reg.bls_pubkey_for_identity(&[1; 57]), None);
    assert_eq!(reg.identity_for_prover(&[1; 585]), None);
    assert!(reg.get_by_identity(&[1; 57]).is_none());
}

#[test]
fn an_announcement_without_a_key_is_dropped() {
    let mut reg = SignerRegistry::new();
    reg.update(CanonicalKeyRegistry { bls_pubkey: vec![1; 585], last_updated_ms: 5, ..Default::default() });
    reg.update(CanonicalKeyRegistry { ed448_pubkey: vec![1; 57], last_updated_ms: 5, ..Default::default() });
    assert!(reg.is_empty());
}

#[test]
fn bindings_never_go_back() {
    let mut reg = SignerRegistry::new();
    for ms in [5u64, 9, 3, 9, 8] {
        reg.update(announcement(1, ms as u8, ms));
    }
    assert_eq!(reg.get_by_identity(&[1; 57]).unwrap().last_updated_ms, 9);
    assert_eq!(reg.bls_pubkey_for_identity(&[1; 57]), Some(vec![9; 585]));
    assert_eq!(reg.len(), 1);
}

#[test]
fn entries_stand_under_their_own_key() {
    let mut reg = SignerRegistry::new();
    reg.update(announcement(1, 10, 1));
    reg.update(announcement(2, 20, 1));
    assert_eq!(reg.len(), 2);
    assert_eq!(reg.get_by_identity(&[2; 57]).unwrap().ed448_pubkey, vec![2; 57]);
    assert_eq!(reg.identity_for_prover(&[10; 585]), Some(vec![1; 57]));
    assert_eq!(reg.identity_for_prover(&[20; 585]), Some(vec![2; 57]));
}

#[test]
fn an_outdated_announcement_leaves_the_provers_alone() {
    let mut reg = SignerRegistry::new();
    reg.update(announcement(1, 10, 20));
    reg.update(announcement(1, 11, 10));
    assert_eq!(reg.identity_for_prover(&[11; 585]), None);
    assert_eq!(reg.identity_for_prover(&[10; 585]), Some(vec![1; 57]));
    assert_eq!(reg.bls_pubkey_for_identity(&[1; 57]), Some(vec![10; 585]));
}

#[test]
fn a_newer_announcement_binds_its_prover_key() {
    let mut reg = SignerRegistry::new();
    reg.update(announcement(1, 10, 1));
    reg.update(announcement(1, 11, 2));
    assert_eq!(reg.identity_for_prover(&[11; 585]), Some(vec![1; 57]));
    assert_eq!(reg.bls_pubkey_for_identity(&[1; 57]), Some(vec![11; 585]));
}

#[test]
fn an_announcement_just_as_old_binds_a_new_prover_key_only() {
    let mut reg = SignerRegistry::new();
    reg.update(announcement(1, 10, 20));
    reg.update(announcement(1, 12, 20));
    assert_eq!(reg.bls_pubkey_for_identity(&[1; 57]), Some(vec![10; 585]));
    assert_eq!(reg.identity_for_prover(&[12; 585]), Some(vec![1; 57]));
    assert_eq!(reg.len(), 1);
    // The prover's key is bound already by something just as recent.
    reg.update(announcement(2, 10, 20));
    assert_eq!(reg.identity_for_prover(&[10; 585]), Some(vec![1; 57]));
    assert_eq!(reg.bls_pubkey_for_identity(&[2; 57]), Some(vec![10; 585]));
}
