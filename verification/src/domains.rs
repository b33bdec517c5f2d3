//! The well-known domains and the names of the execution engines.

use vstd::prelude::*;

verus! {

/// The addresses of the domains that the node itself manages.
pub struct SystemDomains {
    pub global: Vec<u8>,
    pub compute: Vec<u8>,
    pub quil_token: Vec<u8>,
}

impl SystemDomains {
    /// Is the address one of the managed domains?
    pub open spec fn holds(&self, address: Seq<u8>) -> bool {
        address == self.global@ || address == self.compute@ || address == self.quil_token@
    }
}

/// The kind of an execution engine.
#[derive(Clone, Copy, Debug, PartialEq, Eq, Structural)]
pub enum EngineType {
    Global,
    Token,
    Compute,
    Hypergraph,
}

impl EngineType {
    /// The engine's name.
    pub open spec fn name(self) -> Seq<char> {
        match self {
            EngineType::Global => "global"@,
            EngineType::Token => "token"@,
            EngineType::Compute => "compute"@,
            EngineType::Hypergraph => "hypergraph"@,
        }
    }

    /// The engine's name.
    pub fn as_str(&self) -> (r: &str)
        ensures
            r@ == self.name(),
    {
        match self {
            EngineType::Global => "global",
            EngineType::Token => "token",
            EngineType::Compute => "compute",
            EngineType::Hypergraph => "hypergraph",
        }
    }
}

/// Whether an engine runs for the global chain or for an application shard.
#[derive(Clone, Copy, Debug, PartialEq, Eq, Structural)]
pub enum ExecutionMode {
    Global,
    Application,
}

/// No two kinds of engine share a name.
pub proof fn law_engine_names_distinct(a: EngineType, b: EngineType)
    ensures
        a.name() == b.name() ==> a == b,
{
    reveal_strlit("global");
    reveal_strlit("token");
    reveal_strlit("compute");
    reveal_strlit("hypergraph");
    if a.name() == b.name() {
        assert(a.name().len() == b.name().len());
        assert(a.name()[0] == b.name()[0]);
    }
}

} // verus!
