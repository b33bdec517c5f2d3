//! Who may write to a hypergraph.
//!
//! Each deployed hypergraph has a write key. An operation on the hypergraph must
//! be signed with it, over the domain, a tag of the operation, and its message.

use vstd::prelude::*;

use crate::assoc::{value_of, KeyMap};
use crate::bytes::{append_bytes, bytes_eq, copy_bytes, sub_bytes};
use crate::error::{invalid_argument, outcome, ErrorView, QuilError};

verus! {

/// How long the identifier of a hyperedge is.
pub const HYPEREDGE_ID_LEN: usize = 64;

/// How long the value of a hyperedge is at least: a marker byte and the identifier,
/// in front of the encoded tree.
pub const HYPEREDGE_MIN_VALUE_LEN: usize = 65;

/// Resolves the write key of a hypergraph by its domain. Where there is none, the
/// deployment is not known, and operations on it are refused.
pub trait HypergraphConfigResolver {
    fn write_public_key(&self, domain: &[u8]) -> Option<Vec<u8>>;
}

/// The outcome of checking an operation's signature.
#[derive(Clone, Copy, Debug, PartialEq, Eq, Structural)]
pub enum AuthCheck {
    /// The signature holds.
    Verified,
    /// There is no resolver; the caller decides.
    NoResolver,
    /// There is no write key for the domain.
    UnknownDomain,
    /// The signature does not hold.
    Invalid,
}

/// A vertex to be added. `message` is what building the message to be signed gives.
pub struct VertexAdd {
    pub domain: Vec<u8>,
    pub data_address: Vec<u8>,
    pub data: Vec<u8>,
    pub signature: Vec<u8>,
    pub message: Result<Vec<u8>, QuilError>,
}

/// A vertex to be removed.
pub struct VertexRemove {
    pub domain: Vec<u8>,
    pub data_address: Vec<u8>,
    pub signature: Vec<u8>,
    pub message: Result<Vec<u8>, QuilError>,
}

/// A hyperedge to be added.
pub struct HyperedgeAdd {
    pub domain: Vec<u8>,
    pub value: Vec<u8>,
    pub signature: Vec<u8>,
    pub message: Result<Vec<u8>, QuilError>,
}

/// A hyperedge to be removed.
pub struct HyperedgeRemove {
    pub domain: Vec<u8>,
    pub value: Vec<u8>,
    pub signature: Vec<u8>,
    pub message: Result<Vec<u8>, QuilError>,
}

/// An operation whose signature is to be checked.
pub enum OpForAuth<'a> {
    VertexAdd(&'a VertexAdd),
    VertexRemove(&'a VertexRemove),
    HyperedgeAdd { op: &'a HyperedgeAdd },
    HyperedgeRemove(&'a HyperedgeRemove),
}

/// The identifier in a hyperedge's value, behind its marker byte.
pub open spec fn hyperedge_id(value: Seq<u8>) -> Option<Seq<u8>> {
    if value.len() < HYPEREDGE_MIN_VALUE_LEN {
        None
    } else {
        Some(value.subrange(1, 1 + HYPEREDGE_ID_LEN as int))
    }
}

/// Takes the identifier out of a hyperedge's value.
pub fn extract_hyperedge_id(value: &Vec<u8>) -> (r: Option<Vec<u8>>)
    ensures
        match r {
            Some(id) => hyperedge_id(value@) == Some(id@) && id@.len() == HYPEREDGE_ID_LEN,
            None => hyperedge_id(value@) is None,
        },
{
    if value.len() < HYPEREDGE_MIN_VALUE_LEN {
        None
    } else {
        Some(sub_bytes(value.as_slice(), 1, 1 + HYPEREDGE_ID_LEN))
    }
}

/// The tag of an operation.
pub open spec fn tag_of(op: OpForAuth<'_>) -> Seq<u8> {
    match op {
        OpForAuth::VertexAdd(_) => seq![
            0x56u8, 0x45, 0x52, 0x54, 0x45, 0x58, 0x5f, 0x41, 0x44, 0x44,
        ],
        OpForAuth::VertexRemove(_) => seq![
            0x56u8, 0x45, 0x52, 0x54, 0x45, 0x58, 0x5f, 0x52, 0x45, 0x4d, 0x4f, 0x56, 0x45,
        ],
        OpForAuth::HyperedgeAdd { op } => seq![
            0x48u8, 0x59, 0x50, 0x45, 0x52, 0x45, 0x44, 0x47, 0x45, 0x5f, 0x41, 0x44, 0x44,
        ],
        OpForAuth::HyperedgeRemove(_) => seq![
            0x48u8, 0x59, 0x50, 0x45, 0x52, 0x45, 0x44, 0x47, 0x45, 0x5f, 0x52, 0x45, 0x4d, 0x4f,
            0x56, 0x45,
        ],
    }
}

/// The message of an operation, which must be long enough where it is a
/// hyperedge's.
pub open spec fn message_of(op: OpForAuth<'_>) -> Result<Seq<u8>, ErrorView> {
    let (long_enough, message, complaint) = match op {
        OpForAuth::VertexAdd(v) => (true, v.message, ""@),
        OpForAuth::VertexRemove(v) => (true, v.message, ""@),
        OpForAuth::HyperedgeAdd { op } => (
            op.value@.len() >= HYPEREDGE_MIN_VALUE_LEN,
            op.message,
            "hyperedge add auth: value too short"@,
        ),
        OpForAuth::HyperedgeRemove(h) => (
            h.value@.len() >= HYPEREDGE_MIN_VALUE_LEN,
            h.message,
            "hyperedge remove auth: value too short"@,
        ),
    };
    if !long_enough {
        Err(ErrorView::InvalidArgument(complaint))
    } else {
        match message {
            Ok(m) => Ok(m@),
            Err(e) => Err(e@),
        }
    }
}

/// The bytes that an operation's signature is over.
pub open spec fn signed_bytes(op: OpForAuth<'_>) -> Result<Seq<u8>, ErrorView> {
    match message_of(op) {
        Ok(m) => Ok(op.spec_domain() + tag_of(op) + m),
        Err(e) => Err(e),
    }
}

/// The signature of an operation.
pub open spec fn signature_of(op: OpForAuth<'_>) -> Seq<u8> {
    match op {
        OpForAuth::VertexAdd(v) => v.signature@,
        OpForAuth::VertexRemove(v) => v.signature@,
        OpForAuth::HyperedgeAdd { op } => op.signature@,
        OpForAuth::HyperedgeRemove(h) => h.signature@,
    }
}

/// A signature over a message, and the Ed448 key that it is checked under, without a
/// context.
pub struct SignedMessage {
    pub key: Vec<u8>,
    pub message: Vec<u8>,
    pub signature: Vec<u8>,
}

/// The mathematical value of a [`SignedMessage`].
#[verifier::ext_equal]
pub struct SignedView {
    pub key: Seq<u8>,
    pub message: Seq<u8>,
    pub signature: Seq<u8>,
}

impl View for SignedMessage {
    type V = SignedView;

    open spec fn view(&self) -> SignedView {
        SignedView { key: self.key@, message: self.message@, signature: self.signature@ }
    }
}

/// The signatures that were checked and hold. One that is not among them does not
/// count, under whatever key it may hold.
pub struct ValidSignatures {
    pub items: Vec<SignedMessage>,
}

impl View for ValidSignatures {
    type V = Seq<SignedView>;

    open spec fn view(&self) -> Seq<SignedView> {
        Seq::new(self.items@.len(), |i: int| self.items@[i]@)
    }
}

impl ValidSignatures {
    /// Does the signature hold over the message under the key?
    pub fn holds(&self, key: &[u8], message: &[u8], signature: &[u8]) -> (r: bool)
        ensures
            r == self@.contains(
                SignedView { key: key@, message: message@, signature: signature@ },
            ),
    {
        let ghost want = SignedView { key: key@, message: message@, signature: signature@ };
        let mut i: usize = 0;
        while i < self.items.len()
            invariant
                i <= self.items@.len(),
                want == (SignedView { key: key@, message: message@, signature: signature@ }),
                forall|j: int| 0 <= j < i ==> self@[j] != want,
            decreases self.items@.len() - i,
        {
            let s = &self.items[i];
            if bytes_eq(s.key.as_slice(), key) && bytes_eq(s.message.as_slice(), message)
                && bytes_eq(s.signature.as_slice(), signature) {
                assert(self@[i as int] == want);
                return true;
            }
            assert(self@[i as int] != want);
            i += 1;
        }
        false
    }
}

/// The view of a resolver's answer.
pub open spec fn key_view(key: Option<Vec<u8>>) -> Option<Seq<u8>> {
    match key {
        Some(k) => Some(k@),
        None => None,
    }
}

/// The outcome of checking an operation. `key` is the resolver's answer for the
/// operation's domain, if there is a resolver. Where there is a key, the signature must
/// hold under it over [`signed_bytes`].
pub open spec fn auth_outcome(
    key: Option<Option<Seq<u8>>>,
    op: OpForAuth<'_>,
    valid: Seq<SignedView>,
) -> Result<AuthCheck, ErrorView> {
    match key {
        None => Ok(AuthCheck::NoResolver),
        Some(None) => Ok(AuthCheck::UnknownDomain),
        Some(Some(k)) => match signed_bytes(op) {
            Err(e) => Err(e),
            Ok(b) => Ok(
                if valid.contains(
                    SignedView { key: k, message: b, signature: signature_of(op) },
                ) {
                    AuthCheck::Verified
                } else {
                    AuthCheck::Invalid
                },
            ),
        },
    }
}

/// Does the resolver give this answer for the domain?
pub open spec fn resolves<R: HypergraphConfigResolver>(
    resolver: &R,
    domain: Seq<u8>,
    key: Option<Vec<u8>>,
) -> bool {
    exists|d: &[u8]|
        d@ == domain && #[trigger] call_ensures(R::write_public_key, (resolver, d), key)
}

/// A resolver that knows the write keys of a list of domains.
pub struct WriteKeys {
    pub keys: KeyMap<Vec<u8>, Vec<u8>>,
}

impl HypergraphConfigResolver for WriteKeys {
    fn write_public_key(&self, domain: &[u8]) -> (r: Option<Vec<u8>>)
        ensures
            key_view(r) == value_of(self.keys@, domain@),
    {
        match self.keys.get(&copy_bytes(domain)) {
            Some(k) => Some(copy_bytes(k.as_slice())),
            None => None,
        }
    }
}

impl<'a> OpForAuth<'a> {
    /// The domain that the operation writes to.
    pub open spec fn spec_domain(&self) -> Seq<u8> {
        match self {
            OpForAuth::VertexAdd(v) => v.domain@,
            OpForAuth::VertexRemove(v) => v.domain@,
            OpForAuth::HyperedgeAdd { op } => op.domain@,
            OpForAuth::HyperedgeRemove(h) => h.domain@,
        }
    }

    /// The domain that the operation writes to.
    pub fn domain(&self) -> (r: &[u8])
        ensures
            r@ == self.spec_domain(),
    {
        match self {
            OpForAuth::VertexAdd(v) => v.domain.as_slice(),
            OpForAuth::VertexRemove(v) => v.domain.as_slice(),
            OpForAuth::HyperedgeAdd { op } => op.domain.as_slice(),
            OpForAuth::HyperedgeRemove(h) => h.domain.as_slice(),
        }
    }

    /// The operation's signature.
    pub fn signature(&self) -> (r: &[u8])
        ensures
            r@ == signature_of(*self),
    {
        match self {
            OpForAuth::VertexAdd(v) => v.signature.as_slice(),
            OpForAuth::VertexRemove(v) => v.signature.as_slice(),
            OpForAuth::HyperedgeAdd { op } => op.signature.as_slice(),
            OpForAuth::HyperedgeRemove(h) => h.signature.as_slice(),
        }
    }

    fn tag(&self) -> (r: Vec<u8>)
        ensures
            r@ == tag_of(*self),
    {
        let r: Vec<u8> = match self {
            OpForAuth::VertexAdd(_) => vec![
                0x56, 0x45, 0x52, 0x54, 0x45, 0x58, 0x5f, 0x41, 0x44, 0x44,
            ],
            OpForAuth::VertexRemove(_) => vec![
                0x56, 0x45, 0x52, 0x54, 0x45, 0x58, 0x5f, 0x52, 0x45, 0x4d, 0x4f, 0x56, 0x45,
            ],
            OpForAuth::HyperedgeAdd { op: _ } => vec![
                0x48, 0x59, 0x50, 0x45, 0x52, 0x45, 0x44, 0x47, 0x45, 0x5f, 0x41, 0x44, 0x44,
            ],
            OpForAuth::HyperedgeRemove(_) => vec![
                0x48, 0x59, 0x50, 0x45, 0x52, 0x45, 0x44, 0x47, 0x45, 0x5f, 0x52, 0x45, 0x4d, 0x4f,
                0x56, 0x45,
            ],
        };
        assert(r@ =~= tag_of(*self));
        r
    }

    /// The bytes that the operation's signature is over.
    pub fn signing_bytes(&self) -> (r: Result<Vec<u8>, QuilError>)
        ensures
            match r {
                Ok(b) => signed_bytes(*self) == Ok::<Seq<u8>, ErrorView>(b@),
                Err(e) => signed_bytes(*self) == Err::<Seq<u8>, ErrorView>(e@),
            },
    {
        let message = match self {
            OpForAuth::VertexAdd(v) => &v.message,
            OpForAuth::VertexRemove(v) => &v.message,
            OpForAuth::HyperedgeAdd { op } => {
                if op.value.len() < HYPEREDGE_MIN_VALUE_LEN {
                    return Err(invalid_argument("hyperedge add auth: value too short"));
                }
                &op.message
            },
            OpForAuth::HyperedgeRemove(h) => {
                if h.value.len() < HYPEREDGE_MIN_VALUE_LEN {
                    return Err(invalid_argument("hyperedge remove auth: value too short"));
                }
                &h.message
            },
        };
        match message {
            Err(e) => Err(e.duplicate()),
            Ok(m) => {
                let mut b = copy_bytes(self.domain());
                append_bytes(&mut b, self.tag().as_slice());
                append_bytes(&mut b, m.as_slice());
                Ok(b)
            },
        }
    }
}

/// The outcome of checking an operation, for a known answer of the resolver.
pub fn check_op_signature(
    key: &Option<Option<Vec<u8>>>,
    op: &OpForAuth<'_>,
    valid: &ValidSignatures,
) -> (r: Result<AuthCheck, QuilError>)
    ensures
        outcome(r) == auth_outcome(
            match *key {
                Some(k) => Some(key_view(k)),
                None => None,
            },
            *op,
            valid@,
        ),
{
    match key {
        None => Ok(AuthCheck::NoResolver),
        Some(None) => Ok(AuthCheck::UnknownDomain),
        Some(Some(k)) => match op.signing_bytes() {
            Err(e) => Err(e),
            Ok(b) => if valid.holds(k.as_slice(), b.as_slice(), op.signature()) {
                Ok(AuthCheck::Verified)
            } else {
                Ok(AuthCheck::Invalid)
            },
        },
    }
}

/// What is to be checked before an operation can be verified: its signature, under the
/// key that the resolver gives for its domain. There is nothing where the domain has no
/// key.
pub fn signature_to_check<R: HypergraphConfigResolver>(resolver: &R, op: &OpForAuth<'_>) -> (r: Result<
    Option<SignedMessage>,
    QuilError,
>)
    ensures
        exists|key: Option<Vec<u8>>| #[trigger]
            resolves(resolver, op.spec_domain(), key) && match (key, signed_bytes(*op)) {
                (None, _) => r matches Ok(None),
                (Some(_), Err(e)) => r matches Err(x) && x@ == e,
                (Some(k), Ok(b)) => r matches Ok(Some(m)) && m@ == (SignedView {
                    key: k@,
                    message: b,
                    signature: signature_of(*op),
                }),
            },
{
    let domain = op.domain();
    let key = resolver.write_public_key(domain);
    assert(resolves(resolver, op.spec_domain(), key)) by {
        assert(call_ensures(R::write_public_key, (resolver, domain), key));
    }
    let ghost answered = key;
    let r = match key {
        None => Ok(None),
        Some(k) => match op.signing_bytes() {
            Err(e) => Err(e),
            Ok(b) => Ok(
                Some(SignedMessage { key: k, message: b, signature: copy_bytes(op.signature()) }),
            ),
        },
    };
    assert(resolves(resolver, op.spec_domain(), answered));
    r
}

/// Checks an operation's signature, among those that hold, under the key that the
/// resolver gives for the operation's domain.
pub fn verify_op_signature<R: HypergraphConfigResolver>(
    resolver: Option<&R>,
    op: &OpForAuth<'_>,
    valid: &ValidSignatures,
) -> (r: Result<AuthCheck, QuilError>)
    ensures
        resolver is None ==> outcome(r) == Ok::<AuthCheck, ErrorView>(AuthCheck::NoResolver),
        resolver is Some ==> exists|key: Option<Vec<u8>>| #[trigger]
            resolves(resolver->Some_0, op.spec_domain(), key) && outcome(r) == auth_outcome(
                Some(key_view(key)),
                *op,
                valid@,
            ),
{
    match resolver {
        None => Ok(AuthCheck::NoResolver),
        Some(res) => {
            let domain = op.domain();
            let key = res.write_public_key(domain);
            assert(resolves(res, op.spec_domain(), key)) by {
                assert(call_ensures(R::write_public_key, (res, domain), key));
            }
            check_op_signature(&Some(key), op, valid)
        },
    }
}

/// A signature for one hypergraph is not one for another: over domains of one
/// length, what is signed differs where the domains differ.
pub proof fn law_signed_bytes_bind_domain(a: OpForAuth<'_>, b: OpForAuth<'_>)
    requires
        signed_bytes(a) is Ok,
        signed_bytes(a) == signed_bytes(b),
        a.spec_domain().len() == b.spec_domain().len(),
    ensures
        a.spec_domain() == b.spec_domain(),
{
    let (x, y) = (signed_bytes(a)->Ok_0, signed_bytes(b)->Ok_0);
    let n = a.spec_domain().len() as int;
    assert(x.take(n) =~= a.spec_domain());
    assert(y.take(n) =~= b.spec_domain());
}

} // verus!
