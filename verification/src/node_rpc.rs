//! What a node answers to the requests of its peers and users.

use vstd::prelude::*;
use vstd::string::*;

use crate::bytes::{append_bytes, copy_bytes, zero_seq, zeros};
use crate::codec::{
    can_check_ed448, ed448_checkable, ed448_outcome, ed448_sign, ed448_signature, ed448_verify,
    shortest_signed, signed_bytes_be, signed_value, Ed448Check, Ed448View,
};
use crate::text::{concat2, concat3, decimal, decimal_seq};

verus! {

/// The view of an answer whose failure is a text.
pub open spec fn answer_text(r: Result<(), String>) -> Result<(), Seq<char>> {
    match r {
        Ok(_) => Ok(()),
        Err(e) => Err(e@),
    }
}

/// May a peer's message go to the collector? It must come from a peer that has shown
/// who it is, and hold something.
pub fn check_submit(authenticated: bool, data: &[u8]) -> (r: Result<(), String>)
    ensures
        answer_text(r) == if !authenticated {
            Err::<(), Seq<char>>(
                "unauthenticated peer — submit requires a valid Ed448 client cert"@,
            )
        } else if data@.len() == 0 {
            Err("empty payload"@)
        } else {
            Ok(())
        },
{
    if !authenticated {
        return Err("unauthenticated peer — submit requires a valid Ed448 client cert".to_owned());
    }
    if data.len() == 0 {
        return Err("empty payload".to_owned());
    }
    Ok(())
}

/// May a user's message go to the collector? It must hold something.
pub fn check_user_submit(data: &[u8]) -> (r: Result<(), String>)
    ensures
        answer_text(r) == if data@.len() == 0 {
            Err::<(), Seq<char>>("empty message"@)
        } else {
            Ok(())
        },
{
    if data.len() == 0 {
        return Err("empty message".to_owned());
    }
    Ok(())
}

/// The answer to a message that went to the collector.
pub fn collector_answer(accepted: bool) -> (r: Result<(), String>)
    ensures
        answer_text(r) == if accepted {
            Ok::<(), Seq<char>>(())
        } else {
            Err("message collector rejected"@)
        },
{
    if accepted {
        Ok(())
    } else {
        Err("message collector rejected".to_owned())
    }
}

/// The bytes of the words `NODE_AUTHENTICATION`.
pub open spec fn authentication_prefix() -> Seq<u8> {
    seq![
        0x4eu8, 0x4f, 0x44, 0x45, 0x5f, 0x41, 0x55, 0x54, 0x48, 0x45, 0x4e, 0x54, 0x49, 0x43, 0x41,
        0x54, 0x49, 0x4f, 0x4e,
    ]
}

/// What the sender of a message signs: the words `NODE_AUTHENTICATION`, the domain and
/// the message.
pub open spec fn send_digest(domain: Seq<u8>, payload: Seq<u8>) -> Seq<u8> {
    authentication_prefix() + domain + payload
}

/// Builds what the sender of a message signs.
pub fn build_send_digest(domain: &[u8], payload: &[u8]) -> (r: Vec<u8>)
    ensures
        r@ == send_digest(domain@, payload@),
{
    let mut r: Vec<u8> = vec![
        0x4e, 0x4f, 0x44, 0x45, 0x5f, 0x41, 0x55, 0x54, 0x48, 0x45, 0x4e, 0x54, 0x49, 0x43, 0x41,
        0x54, 0x49, 0x4f, 0x4e,
    ];
    assert(r@ =~= authentication_prefix());
    append_bytes(&mut r, domain);
    append_bytes(&mut r, payload);
    r
}

/// Where a message is published.
#[derive(Clone, Copy, Debug, PartialEq, Eq, Structural)]
pub enum SendRoute {
    /// The topic for global provers.
    GlobalProver,
    /// The topic that the domain's bits choose.
    Domain,
}

/// Is the domain the global one, which has all its bits set?
pub open spec fn is_global_domain(domain: Seq<u8>) -> bool {
    forall|i: int| 0 <= i < domain.len() ==> #[trigger] domain[i] == 0xff
}

fn all_ones(domain: &[u8]) -> (r: bool)
    ensures
        r == is_global_domain(domain@),
{
    let mut i: usize = 0;
    while i < domain.len()
        invariant
            i <= domain@.len(),
            forall|j: int| 0 <= j < i ==> #[trigger] domain@[j] == 0xff,
        decreases domain@.len() - i,
    {
        if domain[i] != 0xff {
            assert(domain@[i as int] != 0xff);
            return false;
        }
        i += 1;
    }
    true
}

/// The view of a routing answer.
pub open spec fn route_text(r: Result<SendRoute, String>) -> Result<SendRoute, Seq<char>> {
    match r {
        Ok(v) => Ok(v),
        Err(e) => Err(e@),
    }
}

/// Where a message goes, once its signature was checked, or why it goes nowhere.
pub open spec fn routed(domain: Seq<u8>, check: Ed448View) -> Result<SendRoute, Seq<char>> {
    match check {
        Ed448View::BadKey(e) => Err("bad pubkey: "@ + e),
        Ed448View::Refused(e) => Err("authentication failed: "@ + e),
        Ed448View::Valid => if is_global_domain(domain) {
            Ok(SendRoute::GlobalProver)
        } else {
            Ok(SendRoute::Domain)
        },
    }
}

/// Where a message goes, once its signature was checked.
pub fn send_route(domain: &[u8], check: &Ed448Check) -> (r: Result<SendRoute, String>)
    ensures
        route_text(r) == routed(domain@, check@),
{
    match check {
        Ed448Check::BadKey(e) => Err(concat2("bad pubkey: ", e.as_str())),
        Ed448Check::Refused(e) => Err(concat2("authentication failed: ", e.as_str())),
        Ed448Check::Valid => if all_ones(domain) {
            Ok(SendRoute::GlobalProver)
        } else {
            Ok(SendRoute::Domain)
        },
    }
}

/// Where a message goes, or why it goes nowhere: its domain must have 32 bytes, it must
/// hold something, and its sender must have signed it with the node's key. A key or a
/// signature that cannot be checked counts as a signature that does not hold.
pub open spec fn send_outcome(
    key: Seq<u8>,
    domain: Seq<u8>,
    payload: Seq<u8>,
    authentication: Seq<u8>,
) -> Result<SendRoute, Seq<char>> {
    if domain.len() != 32 {
        Err("domain must be 32 bytes"@)
    } else if payload.len() == 0 {
        Err("empty payload"@)
    } else if !ed448_checkable(key, authentication) {
        Err("authentication failed: InvalidSignature"@)
    } else {
        routed(domain, ed448_outcome(key, send_digest(domain, payload), authentication))
    }
}

/// Checks a message that is to be sent, and says where it goes.
pub fn check_send(key: &[u8], domain: &[u8], payload: &[u8], authentication: &[u8]) -> (r: Result<
    SendRoute,
    String,
>)
    ensures
        route_text(r) == send_outcome(key@, domain@, payload@, authentication@),
        key@.len() != 57 || authentication@.len() < 114 ==> r is Err,
{
    if domain.len() != 32 {
        return Err("domain must be 32 bytes".to_owned());
    }
    if payload.len() == 0 {
        return Err("empty payload".to_owned());
    }
    if !can_check_ed448(key, authentication) {
        return Err("authentication failed: InvalidSignature".to_owned());
    }
    let digest = build_send_digest(domain, payload);
    let check = ed448_verify(key, digest.as_slice(), authentication);
    send_route(domain, &check)
}

/// A message goes out only if it was signed, together with its domain, with the node's
/// key.
pub proof fn law_only_signed_messages_go_out(
    key: Seq<u8>,
    domain: Seq<u8>,
    payload: Seq<u8>,
    authentication: Seq<u8>,
)
    requires
        send_outcome(key, domain, payload, authentication) is Ok,
    ensures
        ed448_outcome(key, send_digest(domain, payload), authentication) == Ed448View::Valid,
        domain.len() == 32,
        payload.len() > 0,
{
}

/// What is signed for one message and domain is not what is signed for another.
pub proof fn law_send_digest_binds(
    domain: Seq<u8>,
    payload: Seq<u8>,
    other_domain: Seq<u8>,
    other_payload: Seq<u8>,
)
    requires
        domain.len() == 32,
        other_domain.len() == 32,
        send_digest(domain, payload) == send_digest(other_domain, other_payload),
    ensures
        domain == other_domain,
        payload == other_payload,
{
    let a = send_digest(domain, payload);
    let b = send_digest(other_domain, other_payload);
    let n = authentication_prefix().len() as int;
    assert(a.subrange(n, n + 32) =~= domain);
    assert(b.subrange(n, n + 32) =~= other_domain);
    assert(a.skip(n + 32) =~= payload);
    assert(b.skip(n + 32) =~= other_payload);
}

/// The answer to a message that was published.
pub fn send_answer(published: &Result<(), String>) -> (r: Result<(), String>)
    ensures
        answer_text(r) == match *published {
            Ok(_) => Ok::<(), Seq<char>>(()),
            Err(e) => Err("p2p publish failed: "@ + e@),
        },
{
    match published {
        Ok(_) => Ok(()),
        Err(e) => Err(concat2("p2p publish failed: ", e.as_str())),
    }
}

/// The key that senders sign with, and where it comes from: the key store's, or else
/// the one of the node's seed. Without both nothing can be sent.
pub fn send_key(stored: Option<Vec<u8>>, derived: Option<Vec<u8>>) -> (r: (
    Option<Vec<u8>>,
    &'static str,
))
    ensures
        r.0 == match stored {
            Some(k) => Some(k),
            None => derived,
        },
        r.1@ == match (stored, derived) {
            (Some(_), _) => "keystore q-peer-key"@,
            (None, Some(_)) => "config.p2p.peer_priv_key (mtls_seed)"@,
            (None, None) => ""@,
        },
{
    match stored {
        Some(k) => (Some(k), "keystore q-peer-key"),
        None => match derived {
            Some(k) => (Some(k), "config.p2p.peer_priv_key (mtls_seed)"),
            None => (None, ""),
        },
    }
}

/// Signs a message for a worker with the node's seed. It fails exactly where the seed
/// does not have 57 bytes.
pub fn proxy_sign(seed: &[u8], message: &[u8]) -> (r: Result<Vec<u8>, String>)
    ensures
        match r {
            Ok(s) => seed@.len() == 57 && s@ == ed448_signature(seed@, message@),
            Err(_) => seed@.len() != 57,
        },
{
    ed448_sign(seed, message)
}

/// The seed of the listener for peers, without which it cannot start.
pub fn listener_seed(seed: Option<Vec<u8>>) -> (r: Result<Vec<u8>, String>)
    ensures
        match r {
            Ok(s) => seed == Some(s),
            Err(e) => seed is None && e@
                == "peer gRPC requires an Ed448 identity — set `p2p.peerPrivKey` to a 57-byte hex seed (or 114-byte seed+pubkey). Without it no peer can authenticate against this node."@,
        },
{
    match seed {
        Some(s) => Ok(s),
        None => Err(
            "peer gRPC requires an Ed448 identity — set `p2p.peerPrivKey` to a 57-byte hex seed (or 114-byte seed+pubkey). Without it no peer can authenticate against this node.".to_owned(),
        ),
    }
}

/// A worker that is bound to a filter before its join is published: it is given the
/// filter, and the frame from which the join's time runs.
pub struct PrePin {
    pub core_id: u32,
    pub filter: Vec<u8>,
    pub frame: u64,
}

/// Why a request to join is refused.
pub open spec fn join_refusal(frame: u64, filters: nat, workers: nat) -> Option<Seq<char>> {
    if frame == 0 {
        Some("no frames received yet"@)
    } else if filters == 0 {
        Some("filters must be non-empty"@)
    } else if workers != 0 && workers != filters {
        Some(
            "worker_ids length ("@ + decimal_seq(workers) + ") must match filters length ("@
                + decimal_seq(filters) + ")"@,
        )
    } else {
        None
    }
}

/// Does the list bind each worker to the filter in the same place?
pub open spec fn pins_match(
    pins: Seq<PrePin>,
    frame: u64,
    filters: Seq<Vec<u8>>,
    worker_ids: Seq<u32>,
) -> bool {
    &&& pins.len() == worker_ids.len()
    &&& forall|i: int|
        0 <= i < pins.len() ==> (#[trigger] pins[i]).core_id == worker_ids[i] && pins[i].filter@
            == filters[i]@ && pins[i].frame == frame
}

/// Decides on a request to join: which workers are bound to which filters before the
/// join is published. A request that names no workers binds none.
pub fn plan_request_join(frame: u64, filters: &Vec<Vec<u8>>, worker_ids: &Vec<u32>) -> (r: Result<
    Vec<PrePin>,
    String,
>)
    ensures
        match r {
            Ok(pins) => join_refusal(frame, filters@.len(), worker_ids@.len()) is None
                && pins_match(pins@, frame, filters@, worker_ids@),
            Err(e) => join_refusal(frame, filters@.len(), worker_ids@.len()) == Some(e@),
        },
{
    if frame == 0 {
        return Err("no frames received yet".to_owned());
    }
    if filters.len() == 0 {
        return Err("filters must be non-empty".to_owned());
    }
    if worker_ids.len() != 0 && worker_ids.len() != filters.len() {
        let workers = decimal(worker_ids.len() as u64);
        let expected = decimal(filters.len() as u64);
        let head = concat3("worker_ids length (", workers.as_str(), ") must match filters length (");
        return Err(concat3(head.as_str(), expected.as_str(), ")"));
    }
    let mut pins: Vec<PrePin> = Vec::new();
    let mut i: usize = 0;
    while i < worker_ids.len()
        invariant
            i <= worker_ids@.len(),
            worker_ids@.len() == 0 || worker_ids@.len() == filters@.len(),
            pins@.len() == i,
            forall|j: int|
                0 <= j < i ==> (#[trigger] pins@[j]).core_id == worker_ids@[j] && pins@[j].filter@
                    == filters@[j]@ && pins@[j].frame == frame,
        decreases worker_ids@.len() - i,
    {
        pins.push(
            PrePin { core_id: worker_ids[i], filter: copy_bytes(filters[i].as_slice()), frame },
        );
        i += 1;
    }
    Ok(pins)
}

/// What binding one worker came to: setting its filter, and then its frame, which is
/// tried only if the first succeeded.
pub struct PinReport {
    pub filter: Result<(), String>,
    pub frame: Result<(), String>,
}

/// Why a request to join fails over one worker.
pub open spec fn pin_refusal(core_id: u32, report: PinReport) -> Option<Seq<char>> {
    match report.filter {
        Err(e) => Some("pre-pin worker "@ + decimal_seq(core_id as nat) + (": "@ + e@)),
        Ok(_) => match report.frame {
            Err(e) => Some(
                "set_pending_filter_frame "@ + decimal_seq(core_id as nat) + (": "@ + e@),
            ),
            Ok(_) => None,
        },
    }
}

/// The answer over one worker that was bound. The first failure ends the request.
pub fn pin_answer(core_id: u32, report: &PinReport) -> (r: Result<(), String>)
    ensures
        match r {
            Ok(_) => pin_refusal(core_id, *report) is None,
            Err(e) => pin_refusal(core_id, *report) == Some(e@),
        },
{
    let core = decimal(core_id as u64);
    match &report.filter {
        Err(e) => {
            let tail = concat2(": ", e.as_str());
            Err(concat3("pre-pin worker ", core.as_str(), tail.as_str()))
        },
        Ok(_) => match &report.frame {
            Err(e) => {
                let tail = concat2(": ", e.as_str());
                Err(concat3("set_pending_filter_frame ", core.as_str(), tail.as_str()))
            },
            Ok(_) => Ok(()),
        },
    }
}

/// A worker as its manager knows it.
pub struct Worker {
    pub core_id: u32,
    pub filter: Vec<u8>,
    pub available_storage: u64,
    pub total_storage: u64,
    pub manually_managed: bool,
}

/// A worker as it is shown to users.
pub struct WorkerEntry {
    pub core_id: u32,
    pub filter: Vec<u8>,
    pub available_storage: u64,
    pub total_storage: u64,
    pub manually_managed: bool,
    /// Whether the worker has a filter.
    pub allocated: bool,
}

/// Does the entry show the worker?
pub open spec fn shows(e: WorkerEntry, w: Worker) -> bool {
    &&& e.core_id == w.core_id
    &&& e.filter@ == w.filter@
    &&& e.available_storage == w.available_storage
    &&& e.total_storage == w.total_storage
    &&& e.manually_managed == w.manually_managed
    &&& e.allocated == (w.filter@.len() > 0)
}

/// The workers as they are shown, in order.
pub fn worker_entries(workers: &Vec<Worker>) -> (r: Vec<WorkerEntry>)
    ensures
        r@.len() == workers@.len(),
        forall|i: int| 0 <= i < r@.len() ==> shows(#[trigger] r@[i], workers@[i]),
{
    let mut r: Vec<WorkerEntry> = Vec::new();
    let mut i: usize = 0;
    while i < workers.len()
        invariant
            i <= workers@.len(),
            r@.len() == i,
            forall|j: int| 0 <= j < i ==> shows(#[trigger] r@[j], workers@[j]),
        decreases workers@.len() - i,
    {
        let w = &workers[i];
        r.push(
            WorkerEntry {
                core_id: w.core_id,
                filter: copy_bytes(w.filter.as_slice()),
                available_storage: w.available_storage,
                total_storage: w.total_storage,
                manually_managed: w.manually_managed,
                allocated: w.filter.len() > 0,
            },
        );
        i += 1;
    }
    r
}

/// The root of a committed tree of a shard's data.
pub enum PhaseRoot {
    Branch { commitment: Vec<u8>, size: i128, leaf_count: u64 },
    Leaf { commitment: Vec<u8>, size: i128 },
}

/// What is told of one tree of a shard: its commitment, its size in two's complement,
/// and the number of its leaves.
pub struct PhaseSummary {
    pub commitment: Vec<u8>,
    pub size: Vec<u8>,
    pub leaf_count: u64,
}

/// Does the summary tell what the root says? Of a tree that is missing it tells 64
/// zero bytes, no size and no leaves.
pub open spec fn summarises(s: PhaseSummary, root: Option<PhaseRoot>) -> bool {
    match root {
        None => s.commitment@ == zero_seq(64) && s.size@.len() == 0 && s.leaf_count == 0,
        Some(PhaseRoot::Branch { commitment, size, leaf_count }) => s.commitment@ == commitment@
            && signed_value(s.size@) == size && shortest_signed(s.size@) && s.leaf_count
            == leaf_count,
        Some(PhaseRoot::Leaf { commitment, size }) => s.commitment@ == commitment@ && signed_value(
            s.size@,
        ) == size && shortest_signed(s.size@) && s.leaf_count == 1,
    }
}

/// Tells of one tree of a shard.
pub fn summarise_phase(root: &Option<PhaseRoot>) -> (r: PhaseSummary)
    ensures
        summarises(r, *root),
{
    match root {
        None => PhaseSummary { commitment: zeros(64), size: Vec::new(), leaf_count: 0 },
        Some(PhaseRoot::Branch { commitment, size, leaf_count }) => PhaseSummary {
            commitment: copy_bytes(commitment.as_slice()),
            size: signed_bytes_be(*size),
            leaf_count: *leaf_count,
        },
        Some(PhaseRoot::Leaf { commitment, size }) => PhaseSummary {
            commitment: copy_bytes(commitment.as_slice()),
            size: signed_bytes_be(*size),
            leaf_count: 1,
        },
    }
}

/// What the steps to a proof of traversal came to. Each is tried only if those before
/// it succeeded.
pub struct TraversalReport {
    /// The stored tree's bytes are there.
    pub stored: Result<bool, String>,
    /// The bytes hold a tree.
    pub decoded: Result<bool, String>,
    /// The proof over the keys, if any of them is in the tree.
    pub proof: Option<Vec<u8>>,
}

/// The proof of traversal, or why there is none.
pub open spec fn traversal_answer(keys: nat, report: TraversalReport) -> Result<Vec<u8>, Seq<char>> {
    if keys == 0 {
        Err("keys must be non-empty"@)
    } else {
        match (report.stored, report.decoded, report.proof) {
            (Err(e), _, _) => Err("load_tree_blob: "@ + e@),
            (Ok(false), _, _) => Err("tree not found for domain"@),
            (Ok(true), Err(e), _) => Err("deserialize: "@ + e@),
            (Ok(true), Ok(false), _) => Err("empty tree"@),
            (Ok(true), Ok(true), None) => Err("no keys matched in tree"@),
            (Ok(true), Ok(true), Some(p)) => Ok(p),
        }
    }
}

/// The proof of traversal, or why there is none.
pub fn traversal_proof(keys: &Vec<Vec<u8>>, report: TraversalReport) -> (r: Result<Vec<u8>, String>)
    ensures
        match r {
            Ok(p) => traversal_answer(keys@.len(), report) == Ok::<Vec<u8>, Seq<char>>(p),
            Err(e) => traversal_answer(keys@.len(), report) == Err::<Vec<u8>, Seq<char>>(e@),
        },
{
    if keys.len() == 0 {
        return Err("keys must be non-empty".to_owned());
    }
    match report.stored {
        Err(e) => Err(concat2("load_tree_blob: ", e.as_str())),
        Ok(false) => Err("tree not found for domain".to_owned()),
        Ok(true) => match report.decoded {
            Err(e) => Err(concat2("deserialize: ", e.as_str())),
            Ok(false) => Err("empty tree".to_owned()),
            Ok(true) => match report.proof {
                None => Err("no keys matched in tree".to_owned()),
                Some(p) => Ok(p),
            },
        },
    }
}

} // verus!
