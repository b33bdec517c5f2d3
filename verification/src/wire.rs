//! What the gossip router receives and sends.

use vstd::prelude::*;

use crate::bytes::{copy_bytes, views};

verus! {

/// The result of validating a message.
#[derive(Clone, Copy, Debug, PartialEq, Eq, Structural)]
pub enum ValidationResult {
    /// The message is valid: accept and forward it.
    Accept,
    /// The message is invalid: reject it and charge the sender.
    Reject,
    /// The message is neither forwarded nor charged for.
    Ignore,
}

/// A change of a peer's subscriptions.
pub struct SubOpts {
    pub subscribe: bool,
    pub bitmask: Vec<u8>,
}

/// A message on the wire.
pub struct WireMessage {
    pub from: Vec<u8>,
    pub data: Vec<u8>,
    pub seqno: Vec<u8>,
    pub bitmask: Vec<u8>,
    pub signature: Vec<u8>,
    pub key: Vec<u8>,
}

/// The mathematical value of a [`WireMessage`].
pub struct WireView {
    pub from: Seq<u8>,
    pub data: Seq<u8>,
    pub seqno: Seq<u8>,
    pub bitmask: Seq<u8>,
    pub signature: Seq<u8>,
    pub key: Seq<u8>,
}

impl View for WireMessage {
    type V = WireView;

    open spec fn view(&self) -> WireView {
        WireView {
            from: self.from@,
            data: self.data@,
            seqno: self.seqno@,
            bitmask: self.bitmask@,
            signature: self.signature@,
            key: self.key@,
        }
    }
}

impl WireMessage {
    /// The same message once more.
    pub fn dup(&self) -> (r: Self)
        ensures
            r@ == self@,
    {
        WireMessage {
            from: copy_bytes(self.from.as_slice()),
            data: copy_bytes(self.data.as_slice()),
            seqno: copy_bytes(self.seqno.as_slice()),
            bitmask: copy_bytes(self.bitmask.as_slice()),
            signature: copy_bytes(self.signature.as_slice()),
            key: copy_bytes(self.key.as_slice()),
        }
    }
}

/// A message that came in, with its identifier, and with what the validator
/// registered for its bitmask says of it, if there is one.
pub struct Incoming {
    pub id: Vec<u8>,
    pub verdict: Option<ValidationResult>,
    pub message: WireMessage,
}

/// An announcement of messages.
pub struct Ihave {
    pub bitmask: Vec<u8>,
    pub ids: Vec<Vec<u8>>,
}

/// The control part of a packet: bitmasks to graft and to prune, messages that
/// the sender has, and messages that it wants.
pub struct Control {
    pub graft: Vec<Vec<u8>>,
    pub prune: Vec<Vec<u8>>,
    pub ihave: Vec<Ihave>,
    pub iwant: Vec<Vec<Vec<u8>>>,
}

/// A packet from a peer.
pub struct Rpc {
    pub subscriptions: Vec<SubOpts>,
    pub publish: Vec<Incoming>,
    pub control: Option<Control>,
}

/// A packet to a peer.
pub enum OutRpc {
    Subscribe(Vec<Vec<u8>>),
    Publish(Vec<WireMessage>),
    Iwant(Vec<Vec<u8>>),
    Ihave { bitmask: Vec<u8>, ids: Vec<Vec<u8>> },
    Graft(Vec<u8>),
    Prune { bitmask: Vec<u8>, backoff: u64 },
}

/// The mathematical value of an [`OutRpc`].
pub enum OutView {
    Subscribe(Seq<Seq<u8>>),
    Publish(Seq<WireView>),
    Iwant(Seq<Seq<u8>>),
    Ihave { bitmask: Seq<u8>, ids: Seq<Seq<u8>> },
    Graft(Seq<u8>),
    Prune { bitmask: Seq<u8>, backoff: u64 },
}

/// The views of a list of messages.
pub open spec fn wire_views(v: Seq<WireMessage>) -> Seq<WireView> {
    Seq::new(v.len(), |i: int| v[i]@)
}

impl View for OutRpc {
    type V = OutView;

    open spec fn view(&self) -> OutView {
        match self {
            OutRpc::Subscribe(bs) => OutView::Subscribe(views(bs@)),
            OutRpc::Publish(ms) => OutView::Publish(wire_views(ms@)),
            OutRpc::Iwant(ids) => OutView::Iwant(views(ids@)),
            OutRpc::Ihave { bitmask, ids } => OutView::Ihave {
                bitmask: bitmask@,
                ids: views(ids@),
            },
            OutRpc::Graft(b) => OutView::Graft(b@),
            OutRpc::Prune { bitmask, backoff } => OutView::Prune {
                bitmask: bitmask@,
                backoff: *backoff,
            },
        }
    }
}

/// What the router has to say: to the node around it, or to a peer. A packet goes
/// over the named connection, or over any where none is named.
pub enum BlossomSubEvent {
    Message { propagation_source: u64, message_id: Vec<u8>, message: WireMessage },
    Subscribed { peer_id: u64, bitmask: Vec<u8> },
    Unsubscribed { peer_id: u64, bitmask: Vec<u8> },
    /// More peers are needed for the subscriptions.
    NeedPeers { subscriptions: Vec<Vec<u8>>, connected: usize },
    Send { peer_id: u64, connection: Option<u64>, rpc: OutRpc },
}

/// The mathematical value of a [`BlossomSubEvent`].
pub enum EventView {
    Message { propagation_source: u64, message_id: Seq<u8>, message: WireView },
    Subscribed { peer_id: u64, bitmask: Seq<u8> },
    Unsubscribed { peer_id: u64, bitmask: Seq<u8> },
    NeedPeers { subscriptions: Seq<Seq<u8>>, connected: nat },
    Send { peer_id: u64, connection: Option<u64>, rpc: OutView },
}

impl View for BlossomSubEvent {
    type V = EventView;

    open spec fn view(&self) -> EventView {
        match self {
            BlossomSubEvent::Message { propagation_source, message_id, message } =>
                EventView::Message {
                propagation_source: *propagation_source,
                message_id: message_id@,
                message: message@,
            },
            BlossomSubEvent::Subscribed { peer_id, bitmask } => EventView::Subscribed {
                peer_id: *peer_id,
                bitmask: bitmask@,
            },
            BlossomSubEvent::Unsubscribed { peer_id, bitmask } => EventView::Unsubscribed {
                peer_id: *peer_id,
                bitmask: bitmask@,
            },
            BlossomSubEvent::NeedPeers { subscriptions, connected } => EventView::NeedPeers {
                subscriptions: views(subscriptions@),
                connected: *connected as nat,
            },
            BlossomSubEvent::Send { peer_id, connection, rpc } => EventView::Send {
                peer_id: *peer_id,
                connection: *connection,
                rpc: rpc@,
            },
        }
    }
}

/// The views of a list of events.
pub open spec fn event_views(v: Seq<BlossomSubEvent>) -> Seq<EventView> {
    Seq::new(v.len(), |i: int| v[i]@)
}

/// Something held against a peer.
pub enum Charge {
    /// A behavioural penalty of one point.
    Penalty { peer_id: u64 },
    /// An invalid message on a bitmask.
    Invalid { peer_id: u64, bitmask: Vec<u8> },
}

/// The mathematical value of a [`Charge`].
pub enum ChargeView {
    Penalty { peer_id: u64 },
    Invalid { peer_id: u64, bitmask: Seq<u8> },
}

impl View for Charge {
    type V = ChargeView;

    open spec fn view(&self) -> ChargeView {
        match self {
            Charge::Penalty { peer_id } => ChargeView::Penalty { peer_id: *peer_id },
            Charge::Invalid { peer_id, bitmask } => ChargeView::Invalid {
                peer_id: *peer_id,
                bitmask: bitmask@,
            },
        }
    }
}

/// The views of a list of charges.
pub open spec fn charge_views(v: Seq<Charge>) -> Seq<ChargeView> {
    Seq::new(v.len(), |i: int| v[i]@)
}

} // verus!
