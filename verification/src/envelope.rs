//! The envelopes in which messages reach an execution engine.

use vstd::prelude::*;

use crate::bytes::{be_nat, read_be_u32};
use crate::error::QuilError;

verus! {

/// The type tags of the two envelopes.
#[derive(Clone, Copy, Debug)]
pub struct EnvelopeTypes {
    pub bundle: u32,
    pub request: u32,
}

/// What a message's first bytes say of it.
#[derive(Clone, Copy, Debug, PartialEq, Eq, Structural)]
pub enum EnvelopeKind {
    /// Too short to hold a type tag.
    Short,
    Bundle,
    Request,
    Unsupported,
}

/// The kind of a message: its type tag is the big-endian number in its first
/// four bytes.
pub open spec fn envelope_kind_of(message: Seq<u8>, types: EnvelopeTypes) -> EnvelopeKind {
    if message.len() < 4 {
        EnvelopeKind::Short
    } else if be_nat(message.subrange(0, 4)) == types.bundle as nat {
        EnvelopeKind::Bundle
    } else if be_nat(message.subrange(0, 4)) == types.request as nat {
        EnvelopeKind::Request
    } else {
        EnvelopeKind::Unsupported
    }
}

/// Reads a message's kind.
pub fn envelope_kind(message: &[u8], types: &EnvelopeTypes) -> (r: EnvelopeKind)
    ensures
        r == envelope_kind_of(message@, *types),
{
    if message.len() < 4 {
        return EnvelopeKind::Short;
    }
    let tag: u32 = read_be_u32(message);
    if tag == types.bundle {
        EnvelopeKind::Bundle
    } else if tag == types.request {
        EnvelopeKind::Request
    } else {
        EnvelopeKind::Unsupported
    }
}

/// What the envelope decoders make of a message's bytes: read as a bundle, whose
/// slots may be empty, and read as a single request. Only the reading that the
/// message's type tag names is looked at.
pub struct Envelope<R> {
    pub bundle: Result<Vec<Option<R>>, QuilError>,
    pub request: Result<R, QuilError>,
}

} // verus!
