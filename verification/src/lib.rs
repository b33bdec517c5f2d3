//! The verified core of a Quilibrium node.

pub mod address_laws;
pub mod assoc;
pub mod auth;
pub mod beat_laws;
pub mod behaviour;
pub mod blossomsub;
pub mod bytes;
pub mod checks;
pub mod codec;
pub mod composite_laws;
pub mod compute_engine;
pub mod compute_laws;
pub mod control;
pub mod domains;
pub mod envelope;
pub mod error;
pub mod execution_laws;
pub mod followups;
pub mod global_engine;
pub mod global_execution;
pub mod global_intrinsic;
pub mod global_join;
pub mod global_laws;
pub mod global_steps;
pub mod gossip;
pub mod gossip_laws;
pub mod heartbeat;
pub mod hypergraph_engine;
pub mod hypergraph_laws;
pub mod join_laws;
pub mod lifecycle;
pub mod membership;
pub mod membership_laws;
pub mod message_cache;
pub mod multiaddr;
pub mod node_laws;
pub mod node_plan;
pub mod node_rpc;
pub mod node_sync;
pub mod order_laws;
pub mod packet_laws;
pub mod peer_id;
pub mod records;
pub mod refusal_laws;
pub mod rounds;
pub mod router_laws;
pub mod routing;
pub mod rpc_laws;
pub mod schema;
pub mod shard_info;
pub mod signer_registry;
pub mod sorting;
pub mod state;
pub mod step_laws;
pub mod supervisor;
pub mod text;
pub mod token_engine;
pub mod token_laws;
pub mod token_ops;
pub mod transport;
pub mod upkeep;
pub mod view_laws;
pub mod wire;
