//! Laws of what a node answers: to messages that are to be sent on, to requests to
//! join, and to questions about its workers, its trees and its tasks.

use vstd::prelude::*;

use crate::assoc::{
    lemma_value_dropped, lemma_with_value, lemma_without_item, value_of, with_value,
};
use crate::codec::{
    ed448_checkable, ed448_outcome, shortest_signed, signed_value, Ed448View,
};
use crate::error::ErrorView;
use crate::lifecycle::{after_event, reason_for, ReasonView, TaskEvent, TasksView};
use crate::node_rpc::{
    is_global_domain, join_refusal, pin_refusal, pins_match, routed, send_digest, send_outcome,
    shows, summarises, traversal_answer, PhaseRoot, PhaseSummary, PinReport, PrePin, SendRoute,
    TraversalReport, Worker, WorkerEntry,
};
use crate::schema::{close_behind, first_place, lemma_close_behind, without_service};
use crate::text::{decimal_seq, part_at};
use crate::transport::{
    accepted_count, chosen_header, first_header, publish_outcome, replaced_from,
    stream_address_of, stream_addresses_of, SubmitOutcome,
};

verus! {

/// What a sender signs is the words `NODE_AUTHENTICATION` in ASCII, then the domain,
/// then the message, and nothing else.
pub proof fn law_send_digest_in_order(domain: Seq<u8>, payload: Seq<u8>, i: int)
    ensures
        send_digest(domain, payload).len() == 19 + domain.len() + payload.len(),
        0 <= i < 19 ==> send_digest(domain, payload)[i] == "NODE_AUTHENTICATION"@[i] as u8,
        0 <= i < domain.len() ==> send_digest(domain, payload)[19 + i] == domain[i],
        0 <= i < payload.len() ==> send_digest(domain, payload)[19 + domain.len() + i]
            == payload[i],
{
    reveal_strlit("NODE_AUTHENTICATION");
}

/// A message whose signature holds is published on the topic for global provers
/// exactly where every byte of its domain is 255, and on the domain's own otherwise.
/// One whose signature does not hold is not published.
pub proof fn law_messages_are_routed(domain: Seq<u8>, e: Seq<char>)
    ensures
        routed(domain, Ed448View::Valid) is Ok,
        routed(domain, Ed448View::Valid)->Ok_0 is GlobalProver <==> (forall|i: int|
            0 <= i < domain.len() ==> #[trigger] domain[i] == 255),
        routed(domain, Ed448View::BadKey(e)) == Err::<SendRoute, Seq<char>>("bad pubkey: "@ + e),
        routed(domain, Ed448View::Refused(e)) == Err::<SendRoute, Seq<char>>(
            "authentication failed: "@ + e,
        ),
{
}

/// A message is sent exactly where its domain has 32 bytes, it holds something, and the
/// signature over both holds under the node's key.
pub proof fn law_who_may_send(
    key: Seq<u8>,
    domain: Seq<u8>,
    payload: Seq<u8>,
    authentication: Seq<u8>,
)
    ensures
        send_outcome(key, domain, payload, authentication) is Ok <==> domain.len() == 32
            && payload.len() != 0 && ed448_checkable(key, authentication)
            && ed448_outcome(key, send_digest(domain, payload), authentication)
            is Valid,
        send_outcome(key, domain, payload, authentication) is Ok ==> (send_outcome(
            key,
            domain,
            payload,
            authentication,
        )->Ok_0 is GlobalProver <==> domain =~= Seq::new(32, |i: int| 255u8)),
        domain.len() != 32 ==> send_outcome(key, domain, payload, authentication) == Err::<
            SendRoute,
            Seq<char>,
        >("domain must be 32 bytes"@),
        domain.len() == 32 && payload.len() == 0 ==> send_outcome(
            key,
            domain,
            payload,
            authentication,
        ) == Err::<SendRoute, Seq<char>>("empty payload"@),
{
    if domain.len() == 32 {
        assert(is_global_domain(domain) <==> domain =~= Seq::new(32, |i: int| 255u8)) by {
            if domain =~= Seq::new(32, |i: int| 255u8) {
                assert forall|i: int| 0 <= i < domain.len() implies #[trigger] domain[i]
                    == 0xff by {
                    assert(Seq::new(32, |j: int| 255u8)[i] == 255);
                }
            }
        }
    }
}

/// A request to join goes through exactly where a frame was seen, it names filters, and
/// it names no workers or as many as filters.
pub proof fn law_join_request_is_taken(frame: u64, filters: nat, workers: nat)
    ensures
        join_refusal(frame, filters, workers) is None <==> frame > 0 && filters > 0 && (workers == 0
            || workers == filters),
        frame == 0 ==> join_refusal(frame, filters, workers) == Some("no frames received yet"@),
        frame > 0 && filters == 0 ==> join_refusal(frame, filters, workers) == Some(
            "filters must be non-empty"@,
        ),
        frame > 0 && filters > 0 && workers > 0 && workers != filters ==> join_refusal(
            frame,
            filters,
            workers,
        ) == Some(
            "worker_ids length ("@ + decimal_seq(workers) + ") must match filters length ("@
                + decimal_seq(filters) + ")"@,
        ),
{
}

/// Every worker that a request names is bound, to the filter in the worker's place and
/// with the frame, and no other worker is.
pub proof fn law_workers_are_pinned(
    pins: Seq<PrePin>,
    frame: u64,
    filters: Seq<Vec<u8>>,
    workers: Seq<u32>,
    i: int,
)
    requires
        pins_match(pins, frame, filters, workers),
    ensures
        pins.len() == workers.len(),
        0 <= i < workers.len() ==> pins[i].core_id == workers[i] && pins[i].filter@ == filters[i]@
            && pins[i].frame == frame,
{
}

/// Binding a worker fails exactly where its filter or its frame could not be set, and
/// the reason names the worker and the step.
pub proof fn law_pin_failures(core: u32, e: String, f: String)
    ensures
        pin_refusal(core, PinReport { filter: Ok(()), frame: Ok(()) }) is None,
        forall|frame: Result<(), String>|
            #[trigger] pin_refusal(core, PinReport { filter: Err(e), frame }) == Some(
                "pre-pin worker "@ + decimal_seq(core as nat) + (": "@ + e@),
            ),
        pin_refusal(core, PinReport { filter: Ok(()), frame: Err(f) }) == Some(
            "set_pending_filter_frame "@ + decimal_seq(core as nat) + (": "@ + f@),
        ),
{
}

/// A worker that is shown has every figure of the one it stands for, and counts as
/// allocated exactly where that one has a filter.
pub proof fn law_workers_are_shown(e: WorkerEntry, w: Worker)
    requires
        shows(e, w),
    ensures
        e.core_id == w.core_id,
        e.filter@ == w.filter@,
        e.available_storage == w.available_storage,
        e.total_storage == w.total_storage,
        e.manually_managed == w.manually_managed,
        e.allocated <==> w.filter@.len() != 0,
{
}

/// What is told of a tree is its commitment and its size in the fewest bytes, and the
/// number of its leaves, which is one of a tree that is a leaf. Of a missing tree it is
/// 64 zero bytes and nothing else.
pub proof fn law_trees_are_summarised(
    s: PhaseSummary,
    commitment: Vec<u8>,
    size: i128,
    leaf_count: u64,
)
    ensures
        summarises(s, None) ==> s.commitment@ =~= Seq::new(64, |i: int| 0u8) && s.size@.len() == 0
            && s.leaf_count == 0,
        summarises(s, Some(PhaseRoot::Branch { commitment, size, leaf_count })) ==> s.commitment@
            == commitment@ && s.leaf_count == leaf_count && signed_value(s.size@)
            == size && shortest_signed(s.size@),
        summarises(s, Some(PhaseRoot::Leaf { commitment, size })) ==> s.commitment@ == commitment@
            && s.leaf_count == 1 && signed_value(s.size@) == size
            && shortest_signed(s.size@),
{
}

/// A proof of traversal comes back exactly where keys were asked for, the tree is there
/// and can be read, and one of the keys is in it; it is then the proof that was made.
/// Otherwise the first step that failed is named.
pub proof fn law_traversal_is_answered(keys: nat, r: TraversalReport)
    ensures
        traversal_answer(keys, r) is Ok <==> keys > 0 && r.stored == Ok::<bool, String>(true)
            && r.decoded == Ok::<bool, String>(true) && r.proof is Some,
        traversal_answer(keys, r) is Ok ==> r.proof == Some(traversal_answer(keys, r)->Ok_0),
        keys == 0 ==> traversal_answer(keys, r)->Err_0 == "keys must be non-empty"@,
        keys > 0 && r.stored is Err ==> traversal_answer(keys, r)->Err_0 == "load_tree_blob: "@
            + r.stored->Err_0@,
        keys > 0 && r.stored == Ok::<bool, String>(false) ==> traversal_answer(keys, r)->Err_0
            == "tree not found for domain"@,
        keys > 0 && r.stored == Ok::<bool, String>(true) && r.decoded is Err ==> traversal_answer(
            keys,
            r,
        )->Err_0 == "deserialize: "@ + r.decoded->Err_0@,
        keys > 0 && r.stored == Ok::<bool, String>(true) && r.decoded == Ok::<bool, String>(false)
            ==> traversal_answer(keys, r)->Err_0 == "empty tree"@,
        keys > 0 && r.stored == Ok::<bool, String>(true) && r.decoded == Ok::<bool, String>(true)
            && r.proof is None ==> traversal_answer(keys, r)->Err_0 == "no keys matched in tree"@,
{
}

/// A text in which the part does not occur stays as it is.
proof fn lemma_nothing_replaced(s: Seq<char>, i: int, from: Seq<char>, to: Seq<char>)
    requires
        0 <= i <= s.len(),
        forall|j: int| i <= j < s.len() ==> !(#[trigger] part_at(s, j, from)),
    ensures
        replaced_from(s, i, from, to) == s.skip(i),
    decreases s.len() - i,
{
    if i < s.len() {
        assert(!part_at(s, i, from));
        lemma_nothing_replaced(s, i + 1, from, to);
        assert(seq![s[i]] + s.skip(i + 1) =~= s.skip(i));
    } else {
        assert(s.skip(i) =~= Seq::<char>::empty());
    }
}

/// What stands before the first occurrence of the part stays as it is.
proof fn lemma_replaced_behind(s: Seq<char>, i: int, k: int, from: Seq<char>, to: Seq<char>)
    requires
        0 <= i <= k < s.len(),
        forall|j: int| i <= j < k ==> !(#[trigger] part_at(s, j, from)),
    ensures
        replaced_from(s, i, from, to) == s.subrange(i, k) + replaced_from(s, k, from, to),
    decreases k - i,
{
    if i < k {
        assert(!part_at(s, i, from));
        lemma_replaced_behind(s, i + 1, k, from, to);
        assert(seq![s[i]] + (s.subrange(i + 1, k) + replaced_from(s, k, from, to)) =~= s.subrange(
            i,
            k,
        ) + replaced_from(s, k, from, to));
    } else {
        assert(s.subrange(i, k) + replaced_from(s, k, from, to) =~= replaced_from(s, k, from, to));
    }
}

proof fn lemma_replaced_apart(s: Seq<char>, i: int, j: int, from: Seq<char>, to: Seq<char>)
    requires
        0 <= i,
        0 <= j,
        i + j <= s.len(),
        from.len() > 0,
    ensures
        replaced_from(s, i + j, from, to) == replaced_from(s.skip(i), j, from, to),
    decreases s.len() - i - j,
{
    let t = s.skip(i);
    if i + j < s.len() {
        assert(part_at(s, i + j, from) == part_at(t, j, from)) by {
            if i + j + from.len() <= s.len() {
                assert(s.subrange(i + j, i + j + from.len()) =~= t.subrange(j, j + from.len()));
            }
        }
        if part_at(s, i + j, from) {
            lemma_replaced_apart(s, i, j + from.len(), from, to);
        } else {
            lemma_replaced_apart(s, i, j + 1, from, to);
        }
    }
}

/// The address of the stream service is the announced one where that does not name the
/// gossip port. Where it does, the stream service's port takes the place of the first
/// mention; what stands before stays, and what stands behind is treated in the same way.
pub proof fn law_stream_service_of_a_host(addr: Seq<char>, host: Seq<char>, rest: Seq<char>)
    ensures
        (forall|j: int| 0 <= j < addr.len() ==> !(#[trigger] part_at(addr, j, ":8336"@)))
            ==> stream_address_of(addr) == addr,
        (forall|j: int|
            0 <= j < host.len() ==> !(#[trigger] part_at(host + ":8336"@ + rest, j, ":8336"@)))
            ==> stream_address_of(host + ":8336"@ + rest) == host + ":8340"@ + stream_address_of(
            rest,
        ),
{
    if forall|j: int| 0 <= j < addr.len() ==> !(#[trigger] part_at(addr, j, ":8336"@)) {
        lemma_nothing_replaced(addr, 0, ":8336"@, ":8340"@);
        assert(addr.skip(0) =~= addr);
    }
    let s = host + ":8336"@ + rest;
    if forall|j: int| 0 <= j < host.len() ==> !(#[trigger] part_at(s, j, ":8336"@)) {
        let k = host.len() as int;
        reveal_strlit(":8336");
        assert(":8336"@.len() == 5);
        lemma_replaced_behind(s, 0, k, ":8336"@, ":8340"@);
        assert(s.subrange(k, k + 5) =~= ":8336"@);
        assert(part_at(s, k, ":8336"@));
        lemma_replaced_apart(s, k + 5, 0, ":8336"@, ":8340"@);
        assert(s.skip(k + 5) =~= rest);
        assert(s.subrange(0, k) =~= host);
        assert(host + (":8340"@ + stream_address_of(rest)) =~= host + ":8340"@ + stream_address_of(
            rest,
        ));
    }
}

/// Every archive of a list gets its stream address, in the same place.
pub proof fn law_every_archive_is_reached(addrs: Seq<Seq<char>>, i: int)
    ensures
        stream_addresses_of(addrs).len() == addrs.len(),
        0 <= i < addrs.len() ==> stream_addresses_of(addrs)[i] == stream_address_of(addrs[i]),
{
}

/// Every submission that was taken counts once, and no other counts.
pub proof fn law_accepted_one_by_one(outcomes: Seq<SubmitOutcome>, at: String, why: String)
    ensures
        accepted_count(Seq::<SubmitOutcome>::empty()) == 0,
        accepted_count(outcomes.push(SubmitOutcome::Accepted(at))) == accepted_count(outcomes) + 1,
        accepted_count(outcomes.push(SubmitOutcome::Failed(at, why))) == accepted_count(outcomes),
        accepted_count(outcomes.push(SubmitOutcome::Lost)) == accepted_count(outcomes),
{
    assert(outcomes.push(SubmitOutcome::Accepted(at)).drop_last() =~= outcomes);
    assert(outcomes.push(SubmitOutcome::Failed(at, why)).drop_last() =~= outcomes);
    assert(outcomes.push(SubmitOutcome::Lost).drop_last() =~= outcomes);
}

/// Publishing fails exactly where no archive took the bundle and gossip failed.
pub proof fn law_publishing_fails(taken: nat, p2p_ok: bool)
    ensures
        publish_outcome(taken, p2p_ok) is Err <==> taken == 0 && !p2p_ok,
        publish_outcome(taken, p2p_ok) is Err ==> publish_outcome(taken, p2p_ok)->Err_0
            == ErrorView::P2p(
            "publish_prover_bundle: all paths failed (no archive accepted, BlossomSub publish failed)"@,
        ),
{
}

/// The header to go by is that of the first archive that gave one. Where none did, it
/// is the local frame's, and where that is missing too the reason says so.
pub proof fn law_header_to_go_by<H>(
    archives: Seq<Option<H>>,
    i: int,
    local: Result<Option<H>, Seq<char>>,
)
    ensures
        0 <= i < archives.len() && archives[i] is Some && (forall|j: int|
            0 <= j < i ==> #[trigger] archives[j] is None) ==> chosen_header(archives, local) == Ok::<
            H,
            ErrorView,
        >(archives[i]->Some_0),
        (forall|j: int| 0 <= j < archives.len() ==> #[trigger] archives[j] is None)
            ==> first_header(archives) is None && match local {
            Ok(Some(h)) => chosen_header(archives, local) == Ok::<H, ErrorView>(h),
            Ok(None) => chosen_header(archives, local) == Err::<H, ErrorView>(
                ErrorView::Internal("local frame missing header"@),
            ),
            Err(e) => chosen_header(archives, local) == Err::<H, ErrorView>(
                ErrorView::Internal("no local frame: "@ + e),
            ),
        },
    decreases archives.len(),
{
    if archives.len() > 0 && archives[0] is None {
        let rest = archives.drop_first();
        assert forall|j: int| 0 <= j < rest.len() implies #[trigger] rest[j] == archives[j
            + 1] by {}
        law_header_to_go_by(rest, i - 1, local);
        if 0 <= i < archives.len() && archives[i] is Some && (forall|j: int|
            0 <= j < i ==> #[trigger] archives[j] is None) {
            assert(i > 0);
            assert(rest[i - 1] == archives[i]);
            assert forall|j: int| 0 <= j < i - 1 implies #[trigger] rest[j] is None by {
                assert(archives[j + 1] is None);
            }
        }
        if forall|j: int| 0 <= j < archives.len() ==> #[trigger] archives[j] is None {
            assert forall|j: int| 0 <= j < rest.len() implies #[trigger] rest[j] is None by {
                assert(archives[j + 1] is None);
            }
        }
    }
}

/// The end of a task brings the node down under the name that the task was given,
/// unless it was a startup task; a failure or a loss always does, with its own text;
/// and so does the wish to stop.
pub proof fn law_reasons_to_stop(s: TasksView, id: u64, name: Seq<char>, e: String)
    ensures
        ({
            let task = TasksView { names: with_value(s.names, id, name), startup: s.startup };
            &&& reason_for(task, TaskEvent::Failed(id, e)) == Some(
                ReasonView::TaskError(name, e@),
            )
            &&& reason_for(task, TaskEvent::Lost(id, e)) == Some(ReasonView::JoinError(name, e@))
            &&& s.startup.contains(id) ==> reason_for(task, TaskEvent::Finished(id)) is None
            &&& !s.startup.contains(id) ==> reason_for(task, TaskEvent::Finished(id)) == Some(
                ReasonView::TaskExited(name),
            )
        }),
        reason_for(s, TaskEvent::CtrlC) == Some(ReasonView::CtrlC),
        value_of(s.names, id) is None ==> reason_for(s, TaskEvent::Failed(id, e)) == Some(
            ReasonView::TaskError(Seq::empty(), e@),
        ),
{
    lemma_with_value(s.names, id, name, id);
}

/// Once a task came to its end, in whatever way, nothing is known of it, and of every
/// other task all is known that was.
pub proof fn law_ended_tasks_are_forgotten(s: TasksView, id: u64, other: u64, e: String)
    ensures
        ({
            let after = after_event(s, TaskEvent::Finished(id));
            &&& after_event(s, TaskEvent::Failed(id, e)) == after
            &&& after_event(s, TaskEvent::Lost(id, e)) == after
            &&& after_event(s, TaskEvent::CtrlC) == s
            &&& value_of(after.names, id) is None
            &&& !after.startup.contains(id)
            &&& other != id ==> value_of(after.names, other) == value_of(s.names, other)
            &&& other != id ==> (after.startup.contains(other) <==> s.startup.contains(other))
        }),
{
    lemma_value_dropped(s.names, id, other);
    lemma_value_dropped(s.names, id, id);
    lemma_without_item(s.startup, id, other);
    lemma_without_item(s.startup, id, id);
}

/// The place that is found holds the part, and no earlier place does; none is found
/// exactly where the part stands nowhere.
pub proof fn law_first_place(s: Seq<char>, part: Seq<char>, i: int, j: int)
    requires
        0 <= i,
    ensures
        match first_place(s, part, i) {
            Some(p) => i <= p <= s.len() && part_at(s, p, part) && (i <= j < p ==> !part_at(
                s,
                j,
                part,
            )),
            None => i <= j <= s.len() ==> !part_at(s, j, part),
        },
    decreases s.len() - i + 1,
{
    if i <= s.len() && !part_at(s, i, part) {
        law_first_place(s, part, i + 1, j);
    }
}

/// How many braces are open behind a text when `depth` were open before it.
pub open spec fn open_braces(s: Seq<char>, depth: int) -> int
    decreases s.len(),
{
    if s.len() == 0 {
        depth
    } else {
        open_braces(s.drop_last(), depth) + if s.last() == '{' {
            1int
        } else if s.last() == '}' {
            -1int
        } else {
            0
        }
    }
}

proof fn lemma_open_braces(s: Seq<char>, i: int, e: int, depth: int)
    requires
        0 <= i < e <= s.len(),
    ensures
        open_braces(s.subrange(i, e), depth) == open_braces(
            s.subrange(i + 1, e),
            depth + if s[i] == '{' {
                1int
            } else if s[i] == '}' {
                -1int
            } else {
                0
            },
        ),
    decreases e - i,
{
    reveal_with_fuel(open_braces, 2);
    if e - i == 1 {
        assert(s.subrange(i, e).drop_last() =~= Seq::<char>::empty());
        assert(s.subrange(i + 1, e) =~= Seq::<char>::empty());
    } else {
        lemma_open_braces(s, i, e - 1, depth);
        assert(s.subrange(i, e).drop_last() =~= s.subrange(i, e - 1));
        assert(s.subrange(i + 1, e).drop_last() =~= s.subrange(i + 1, e - 1));
    }
}

/// A block ends behind the first brace that leaves none open.
pub proof fn law_block_ends(s: Seq<char>, i: int, depth: int, j: int)
    requires
        0 <= i <= s.len(),
        depth >= 1,
    ensures
        match close_behind(s, i, depth) {
            Some(e) => i < e <= s.len() && open_braces(s.subrange(i, e), depth) == 0 && (i <= j < e
                ==> open_braces(s.subrange(i, j), depth) > 0),
            None => i <= j <= s.len() ==> open_braces(s.subrange(i, j), depth) > 0,
        },
    decreases s.len() - i,
{
    assert(s.subrange(i, i) =~= Seq::<char>::empty());
    if i < s.len() {
        assert(s.subrange(i + 1, i + 1) =~= Seq::<char>::empty());
        if i < j <= s.len() {
            lemma_open_braces(s, i, j, depth);
        }
        lemma_open_braces(s, i, i + 1, depth);
        if s[i] == '{' {
            law_block_ends(s, i + 1, depth + 1, j);
            if let Some(e) = close_behind(s, i + 1, depth + 1) {
                lemma_open_braces(s, i, e, depth);
            }
        } else if s[i] == '}' {
            if depth > 1 {
                law_block_ends(s, i + 1, depth - 1, j);
                if let Some(e) = close_behind(s, i + 1, depth - 1) {
                    lemma_open_braces(s, i, e, depth);
                }
            }
        } else {
            law_block_ends(s, i + 1, depth, j);
            if let Some(e) = close_behind(s, i + 1, depth) {
                lemma_open_braces(s, i, e, depth);
            }
        }
    }
}

/// What stands before a block's first brace does not matter for where it ends.
pub proof fn law_block_begins(s: Seq<char>, i: int, k: int)
    requires
        0 <= i <= k < s.len(),
        s[k] == '{',
        forall|j: int| i <= j < k ==> #[trigger] s[j] != '{' && s[j] != '}',
    ensures
        close_behind(s, i, 0) == close_behind(s, k + 1, 1),
    decreases k - i,
{
    if i < k {
        assert(s[i] != '{' && s[i] != '}');
        law_block_begins(s, i + 1, k);
    }
}

/// Where the first block of the service is closed, it goes whole: the text is what
/// stands before it and what stands behind it. Where the service has no block the text
/// stays.
pub proof fn law_service_goes(s: Seq<char>, name: Seq<char>)
    ensures
        ({
            let begin = "service "@ + name + " {"@;
            match first_place(s, begin, 0) {
                None => without_service(s, name) == s,
                Some(p) => match close_behind(s, p, 0) {
                    None => without_service(s, name) == s,
                    Some(e) => without_service(s, name) == s.subrange(0, p) + s.subrange(
                        e,
                        s.len() as int,
                    ),
                },
            }
        }),
{
    let begin = "service "@ + name + " {"@;
    law_first_place(s, begin, 0, 0);
    if let Some(p) = first_place(s, begin, 0) {
        if let Some(e) = close_behind(s, p, 0) {
            lemma_close_behind(s, p, 0);
            assert(s.take(p) =~= s.subrange(0, p));
            assert(s.skip(e) =~= s.subrange(e, s.len() as int));
        }
    }
}

} // verus!
