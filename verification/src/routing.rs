//! Which execution engine a client's request is for.

use vstd::prelude::*;

use crate::checks::{answer, Answer};
use crate::domains::EngineType;
use crate::error::{ErrorView, QuilError};
use crate::text::{concat2, concat3};

verus! {

/// The kinds of request that clients send.
#[derive(Clone, Copy, Debug, PartialEq, Eq, Structural)]
pub enum RequestVariant {
    Join,
    Leave,
    Pause,
    Resume,
    Confirm,
    Reject,
    Kick,
    Update,
    Shard,
    SeniorityMerge,
    TokenDeploy,
    TokenUpdate,
    Transaction,
    PendingTransaction,
    MintTransaction,
    ComputeDeploy,
    ComputeUpdate,
    CodeDeploy,
    CodeExecute,
    CodeFinalize,
    HypergraphDeploy,
    HypergraphUpdate,
    VertexAdd,
    VertexRemove,
    HyperedgeAdd,
    HyperedgeRemove,
    /// Any other kind.
    Other,
}

/// The engine that a kind of request is for.
pub open spec fn engine_for(v: RequestVariant) -> Option<EngineType> {
    match v {
        RequestVariant::Join | RequestVariant::Leave | RequestVariant::Pause
        | RequestVariant::Resume | RequestVariant::Confirm | RequestVariant::Reject
        | RequestVariant::Kick | RequestVariant::Update | RequestVariant::Shard
        | RequestVariant::SeniorityMerge => Some(EngineType::Global),
        RequestVariant::TokenDeploy | RequestVariant::TokenUpdate | RequestVariant::Transaction
        | RequestVariant::PendingTransaction | RequestVariant::MintTransaction => Some(
            EngineType::Token,
        ),
        RequestVariant::ComputeDeploy | RequestVariant::ComputeUpdate
        | RequestVariant::CodeDeploy | RequestVariant::CodeExecute
        | RequestVariant::CodeFinalize => Some(EngineType::Compute),
        RequestVariant::HypergraphDeploy | RequestVariant::HypergraphUpdate
        | RequestVariant::VertexAdd | RequestVariant::VertexRemove
        | RequestVariant::HyperedgeAdd | RequestVariant::HyperedgeRemove => Some(
            EngineType::Hypergraph,
        ),
        RequestVariant::Other => None,
    }
}

/// Does an engine take a request? One that says nothing is taken by none.
pub fn accepts(engine: EngineType, v: Option<RequestVariant>) -> (r: bool)
    ensures
        r == (v is Some && engine_for(v->Some_0) == Some(engine)),
{
    match v {
        None => false,
        Some(v) => match v {
            RequestVariant::Join
            | RequestVariant::Leave
            | RequestVariant::Pause
            | RequestVariant::Resume
            | RequestVariant::Confirm
            | RequestVariant::Reject
            | RequestVariant::Kick
            | RequestVariant::Update
            | RequestVariant::Shard
            | RequestVariant::SeniorityMerge => engine == EngineType::Global,
            RequestVariant::TokenDeploy
            | RequestVariant::TokenUpdate
            | RequestVariant::Transaction
            | RequestVariant::PendingTransaction
            | RequestVariant::MintTransaction => engine == EngineType::Token,
            RequestVariant::ComputeDeploy
            | RequestVariant::ComputeUpdate
            | RequestVariant::CodeDeploy
            | RequestVariant::CodeExecute
            | RequestVariant::CodeFinalize => engine == EngineType::Compute,
            RequestVariant::HypergraphDeploy
            | RequestVariant::HypergraphUpdate
            | RequestVariant::VertexAdd
            | RequestVariant::VertexRemove
            | RequestVariant::HyperedgeAdd
            | RequestVariant::HyperedgeRemove => engine == EngineType::Hypergraph,
            RequestVariant::Other => false,
        },
    }
}

/// Checks a client's request for an engine. `decoded` is the kind of request that
/// was read, if any, or the text of the failure to read one.
pub fn check_request_for_engine(engine: EngineType, decoded: &Result<Option<RequestVariant>, String>) -> (a:
    Answer)
    ensures
        answer(a) == match *decoded {
            Err(e) => Err(
                ErrorView::InvalidArgument(
                    engine.name() + " prove: decode MessageRequest proto failed: "@ + e@,
                ),
            ),
            Ok(v) => if v is Some && engine_for(v->Some_0) == Some(engine) {
                Ok(())
            } else {
                Err(
                    ErrorView::InvalidArgument(
                        engine.name() + " prove: oneof variant does not route to this engine"@,
                    ),
                )
            },
        },
{
    match decoded {
        Err(e) => Err(
            QuilError::InvalidArgument(
                concat3(
                    engine.as_str(),
                    " prove: decode MessageRequest proto failed: ",
                    e.as_str(),
                ),
            ),
        ),
        Ok(v) => if accepts(engine, *v) {
            Ok(())
        } else {
            Err(
                QuilError::InvalidArgument(
                    concat2(
                        engine.as_str(),
                        " prove: oneof variant does not route to this engine",
                    ),
                ),
            )
        },
    }
}

} // verus!
