//! What the hypergraph operations do: when each of them goes through, and what can be read
//! behind it.

use vstd::prelude::*;

use crate::assoc::value_of;
use crate::auth::{
    auth_outcome, hyperedge_id, signature_of, signed_bytes, tag_of, AuthCheck, OpForAuth, SignedView,
};
use crate::checks::first_err;
use crate::error::ErrorView;
use crate::hypergraph_engine::{
    after_ops, bundle_locks, op_effect, HypergraphExecutionEngine, HypergraphOp,
    HypergraphRequest, HypergraphTypes,
};
use crate::state::{law_read_after_write, lookup, Layer, Place};
use crate::token_engine::BlobLog;
use crate::token_laws::lemma_all_pass;

verus! {

/// The domain that an operation names.
pub open spec fn named_domain(op: HypergraphOp) -> Seq<u8> {
    match op {
        HypergraphOp::VertexAdd { op: v, tree } => v.domain@,
        HypergraphOp::VertexRemove(v) => v.domain@,
        HypergraphOp::HyperedgeAdd { op: h, commit } => h.domain@,
        HypergraphOp::HyperedgeRemove(h) => h.domain@,
    }
}

/// The message of an operation that its signature is made over, besides the domain and the
/// tag. That of a hyperedge is there only if its value has at least 65 bytes.
pub open spec fn own_message(op: HypergraphOp) -> Option<Seq<u8>> {
    let (ok, m) = match op {
        HypergraphOp::VertexAdd { op: v, tree } => (true, v.message),
        HypergraphOp::VertexRemove(v) => (true, v.message),
        HypergraphOp::HyperedgeAdd { op: h, commit } => (h.value@.len() >= 65, h.message),
        HypergraphOp::HyperedgeRemove(h) => (h.value@.len() >= 65, h.message),
    };
    match m {
        Ok(b) => if ok {
            Some(b@)
        } else {
            None
        },
        Err(_) => None,
    }
}

/// The signature of an operation.
pub open spec fn own_signature(op: HypergraphOp) -> Seq<u8> {
    match op {
        HypergraphOp::VertexAdd { op: v, tree } => v.signature@,
        HypergraphOp::VertexRemove(v) => v.signature@,
        HypergraphOp::HyperedgeAdd { op: h, commit } => h.signature@,
        HypergraphOp::HyperedgeRemove(h) => h.signature@,
    }
}

/// The tag of an operation, as text.
pub open spec fn own_tag(op: HypergraphOp) -> Seq<char> {
    match op {
        HypergraphOp::VertexAdd { op: v, tree } => "VERTEX_ADD"@,
        HypergraphOp::VertexRemove(v) => "VERTEX_REMOVE"@,
        HypergraphOp::HyperedgeAdd { op: h, commit } => "HYPEREDGE_ADD"@,
        HypergraphOp::HyperedgeRemove(h) => "HYPEREDGE_REMOVE"@,
    }
}

/// The bytes of a text of ASCII characters.
pub open spec fn ascii(s: Seq<char>) -> Seq<u8> {
    Seq::new(s.len(), |i: int| s[i] as u8)
}

proof fn lemma_tags(op: HypergraphOp)
    ensures
        tag_of(op.for_auth()) == ascii(own_tag(op)),
{
    reveal_strlit("VERTEX_ADD");
    reveal_strlit("VERTEX_REMOVE");
    reveal_strlit("HYPEREDGE_ADD");
    reveal_strlit("HYPEREDGE_REMOVE");
    assert(tag_of(op.for_auth()) =~= ascii(own_tag(op)));
}

/// Is the operation signed under the key: over its domain, the text of its tag and its
/// message?
pub open spec fn signed_under(op: HypergraphOp, key: Seq<u8>, valid: Seq<SignedView>) -> bool {
    own_message(op) matches Some(m) && valid.contains(
        SignedView {
            key,
            message: named_domain(op) + ascii(own_tag(op)) + m,
            signature: own_signature(op),
        },
    )
}

/// An operation goes through exactly where it can be read, is for the domain that it was
/// sent to, which is none of those that the node manages, and where, if the engine knows
/// write keys, it is signed under that of the domain. A hyperedge that is added must be
/// long enough and commit, and a vertex that is added must have a tree. What is refused
/// writes nothing.
pub proof fn law_hypergraph_op_goes_through(
    e: &HypergraphExecutionEngine,
    log: BlobLog,
    frame_number: u64,
    domain: Seq<u8>,
    r: HypergraphRequest,
)
    ensures
        ({
            let eff = op_effect(e, log, frame_number, domain, r);
            let op = r.validated->Ok_0;
            &&& eff.answer is Ok <==> {
                &&& r.validated is Ok
                &&& named_domain(op) == domain
                &&& domain != e.domains.global@
                &&& domain != e.domains.compute@
                &&& domain != e.domains.quil_token@
                &&& op matches HypergraphOp::HyperedgeAdd { op: h, commit } ==> h.value@.len() >= 65
                    && commit is Ok
                &&& op matches HypergraphOp::VertexAdd { op: v, tree } ==> tree is Ok
                &&& e.config_resolver matches Some(k) ==> (value_of(k.keys@, domain) matches Some(
                    key,
                ) && signed_under(op, key, r.valid@))
            }
            &&& eff.answer is Err ==> eff.log == log
        }),
{
    if r.validated is Ok {
        let op = r.validated->Ok_0;
        lemma_tags(op);
        assert(op.domain() == named_domain(op));
        assert(signature_of(op.for_auth()) == own_signature(op));
        assert(signed_bytes(op.for_auth()) is Ok <==> own_message(op) is Some);
        if signed_bytes(op.for_auth()) is Ok {
            assert(signed_bytes(op.for_auth())->Ok_0 == named_domain(op) + ascii(own_tag(op))
                + own_message(op)->Some_0);
        }
    }
}

/// The place that an operation writes to or deletes: the address of the vertex, or the
/// second half of the hyperedge's identifier, which stands behind the first byte of its
/// value; zeros where the value is too short.
pub open spec fn place_of(op: HypergraphOp) -> Place {
    let edge = |v: Vec<u8>|
        if v@.len() >= 65 {
            v@.subrange(33, 65)
        } else {
            Seq::new(32, |i: int| 0u8)
        };
    match op {
        HypergraphOp::VertexAdd { op: v, tree } => Place {
            domain: v.domain@,
            address: v.data_address@,
            layer: Layer::VertexAdds,
        },
        HypergraphOp::VertexRemove(v) => Place {
            domain: v.domain@,
            address: v.data_address@,
            layer: Layer::VertexRemoves,
        },
        HypergraphOp::HyperedgeAdd { op: h, commit } => Place {
            domain: h.domain@,
            address: edge(h.value),
            layer: Layer::HyperedgeAdds,
        },
        HypergraphOp::HyperedgeRemove(h) => Place {
            domain: h.domain@,
            address: edge(h.value),
            layer: Layer::HyperedgeRemoves,
        },
    }
}

/// An operation that went through is one change at its place: an added vertex's tree, or an
/// added hyperedge's value, can be read there; a removal deletes what is there. Nothing else
/// changes.
pub proof fn law_hypergraph_op_writes(
    e: &HypergraphExecutionEngine,
    log: BlobLog,
    frame_number: u64,
    domain: Seq<u8>,
    r: HypergraphRequest,
    place: Place,
)
    requires
        op_effect(e, log, frame_number, domain, r).answer is Ok,
    ensures
        ({
            let after = op_effect(e, log, frame_number, domain, r).log;
            let op = r.validated->Ok_0;
            &&& after.len() == log.len() + 1
            &&& log.is_prefix_of(after)
            &&& after.last().place == place_of(op)
            &&& after.last().frame_number == frame_number
            &&& lookup(after, place_of(op)) == match op {
                HypergraphOp::VertexAdd { op: v, tree } => Some(tree->Ok_0@),
                HypergraphOp::HyperedgeAdd { op: h, commit } => Some(h.value@),
                _ => None,
            }
            &&& place != place_of(op) ==> lookup(after, place) == lookup(log, place)
        }),
{
    let op = r.validated->Ok_0;
    let c = crate::hypergraph_engine::op_change(op, frame_number)->Ok_0;
    if let HypergraphOp::HyperedgeAdd { op: h, commit } = op {
        lemma_edge(h.value@);
    }
    if let HypergraphOp::HyperedgeRemove(h) = op {
        lemma_edge(h.value@);
    }
    assert(c.place == place_of(op));
    law_read_after_write(log, c, place);
    law_read_after_write(log, c, place_of(op));
}

proof fn lemma_edge(value: Seq<u8>)
    ensures
        crate::hypergraph_engine::hyperedge_address(value) == if value.len() >= 65 {
            value.subrange(33, 65)
        } else {
            Seq::new(32, |i: int| 0u8)
        },
{
    if value.len() >= 65 {
        assert(value.subrange(1, 65).subrange(32, 64) =~= value.subrange(33, 65));
    } else {
        assert(crate::bytes::zero_seq(32) =~= Seq::new(32, |i: int| 0u8));
    }
}

/// A bundle is processed request by request, whatever the place of a request in it: one more
/// hypergraph request leaves the log that it leaves alone on what those before it left.
/// Empty slots, and requests that are not the engine's, do nothing; so every request that is
/// for the routed domain and authorised has its change in the log.
pub proof fn law_hypergraph_bundle_one_by_one(
    e: &HypergraphExecutionEngine,
    log: BlobLog,
    frame_number: u64,
    domain: Seq<u8>,
    rs: Seq<Option<HypergraphRequest>>,
    r: HypergraphRequest,
)
    ensures
        ({
            let before = after_ops(e, log, frame_number, domain, rs);
            let after = after_ops(e, log, frame_number, domain, rs.push(Some(r)));
            &&& after_ops(e, log, frame_number, domain, Seq::empty()) == log
            &&& after_ops(e, log, frame_number, domain, rs.push(None)) == before
            &&& e.types.prefixes@.contains(r.inner_type_prefix) ==> after == op_effect(
                e,
                before,
                frame_number,
                domain,
                r,
            ).log
            &&& !e.types.prefixes@.contains(r.inner_type_prefix) ==> after == before
        }),
{
    assert(rs.push(Some(r)).drop_last() =~= rs);
    assert(rs.push(None).drop_last() =~= rs);
}

/// A bundle is valid exactly where each of its operations that is the engine's can be read
/// and is well formed.
pub proof fn law_hypergraph_bundle_valid(
    e: &HypergraphExecutionEngine,
    rs: Seq<Option<HypergraphRequest>>,
)
    ensures
        first_err(e.bundle_validation(rs)) is Ok <==> (forall|k: int|
            0 <= k < rs.len() ==> (#[trigger] rs[k] matches Some(r) ==> e.types.prefixes@.contains(
                r.inner_type_prefix,
            ) ==> r.validated is Ok)),
        forall|r: HypergraphRequest| #[trigger]
            e.slot_validation(Some(r)) is Ok <==> (e.types.prefixes@.contains(r.inner_type_prefix)
                ==> r.validated is Ok),
{
    let cs = e.bundle_validation(rs);
    let p = |k: int|
        rs[k] matches Some(r) ==> e.types.prefixes@.contains(r.inner_type_prefix)
            ==> r.validated is Ok;
    lemma_all_pass(cs, p);
    if first_err(cs) is Ok {
        assert forall|k: int| 0 <= k < rs.len() implies (#[trigger] rs[k] matches Some(r)
            ==> e.types.prefixes@.contains(r.inner_type_prefix) ==> r.validated is Ok) by {
            assert(p(k));
        }
    }
    if forall|k: int|
        0 <= k < rs.len() ==> (#[trigger] rs[k] matches Some(r) ==> e.types.prefixes@.contains(
            r.inner_type_prefix,
        ) ==> r.validated is Ok) {
        assert forall|k: int| 0 <= k < cs.len() implies #[trigger] p(k) by {
            assert(rs[k] matches Some(r) ==> e.types.prefixes@.contains(r.inner_type_prefix)
                ==> r.validated is Ok);
        }
    }
}

/// The addresses that a bundle locks are those of its operations, in order: one more
/// operation of the engine adds its own behind the others, and nothing if it does not
/// decode.
pub proof fn law_locks_add_up(
    t: &HypergraphTypes,
    rs: Seq<Option<HypergraphRequest>>,
    r: HypergraphRequest,
    i: int,
)
    requires
        bundle_locks(t, rs) is Ok,
    ensures
        ({
            let before = bundle_locks(t, rs)->Ok_0;
            let after = bundle_locks(t, rs.push(Some(r)));
            let ours = t.prefixes@.contains(r.inner_type_prefix);
            &&& bundle_locks(t, Seq::empty()) == Ok::<Seq<Seq<u8>>, ErrorView>(Seq::empty())
            &&& bundle_locks(t, rs.push(None)) == Ok::<Seq<Seq<u8>>, ErrorView>(before)
            &&& !ours || r.lock_writes is None ==> after == Ok::<Seq<Seq<u8>>, ErrorView>(before)
            &&& r.lock_writes matches Some(Err(x)) ==> ours ==> after == Err::<
                Seq<Seq<u8>>,
                ErrorView,
            >(x@)
            &&& r.lock_writes matches Some(Ok(w)) ==> ours ==> {
                &&& after is Ok
                &&& after->Ok_0.len() == before.len() + w@.len()
                &&& before.is_prefix_of(after->Ok_0)
                &&& 0 <= i < w@.len() ==> after->Ok_0[before.len() + i] == w@[i]@
            }
        }),
{
    assert(rs.push(Some(r)).drop_last() =~= rs);
    assert(rs.push(None).drop_last() =~= rs);
    let before = bundle_locks(t, rs)->Ok_0;
    assert(before + Seq::<Seq<u8>>::empty() =~= before);
}

/// The outcome of checking an operation: there is no resolver, or no key, or the signature
/// holds under the key or does not.
pub proof fn law_auth_outcomes(
    key: Option<Option<Seq<u8>>>,
    op: OpForAuth<'_>,
    valid: Seq<SignedView>,
)
    ensures
        ({
            let o = auth_outcome(key, op, valid);
            &&& key is None <==> o == Ok::<AuthCheck, ErrorView>(AuthCheck::NoResolver)
            &&& key == Some(None::<Seq<u8>>) <==> o == Ok::<AuthCheck, ErrorView>(
                AuthCheck::UnknownDomain,
            )
            &&& key matches Some(Some(k)) ==> signed_bytes(op) is Ok ==> (o == Ok::<
                AuthCheck,
                ErrorView,
            >(AuthCheck::Verified) <==> valid.contains(
                SignedView { key: k, message: signed_bytes(op)->Ok_0, signature: signature_of(op) },
            ))
        }),
{
}

/// The identifier of a hyperedge is the 64 bytes behind the first byte of its value; a
/// shorter value holds none.
pub proof fn law_hyperedge_identifier(value: Seq<u8>, i: int)
    ensures
        hyperedge_id(value) is Some <==> value.len() > 64,
        hyperedge_id(value) is Some ==> hyperedge_id(value)->Some_0.len() == 64 && (0 <= i < 64
            ==> hyperedge_id(value)->Some_0[i] == value[i + 1]),
{
}

} // verus!
