//! Node configuration and its validation.
use vstd::prelude::*;

use crate::types::Address;

verus! {

/// Default chain ID of the main network.
pub const DEFAULT_CHAIN_ID: u64 = 11567;

/// Node configuration.
#[derive(Debug, Clone)]
pub struct NodeConfig {
    /// Data directory for blockchain storage.
    pub data_dir: String,
    /// P2P port.
    pub port: u16,
    /// JSON-RPC port.
    pub rpc_port: u16,
    /// Address receiving block rewards.
    pub miner_address: Address,
    pub evm_enabled: bool,
    /// Maximum peers to connect to.
    pub max_peers: u32,
    /// Initial peers to connect to.
    pub bootstrap_peers: Vec<String>,
    /// Address advertised in the P2P handshake, if set.
    pub advertise_addr: Option<String>,
    /// Log level (trace, debug, info, warn, error).
    pub log_level: String,
    pub metrics_enabled: bool,
    pub metrics_port: u16,
    /// RPC requests per second.
    pub rpc_rate_limit: u32,
    pub max_tx_pool_size: usize,
    pub chain_id: u64,
    /// Enables the experimental gRPC v2 server.
    pub enable_grpc_v2: bool,
    pub grpc_port: u16,
}

impl Default for NodeConfig {
    fn default() -> (c: Self)
        ensures
            c.data_dir@ == "data"@,
            c.port == 8080,
            c.rpc_port == 8545,
            forall|i: int| 0 <= i < 20 ==> #[trigger] c.miner_address.0@[i] == 1u8,
            c.evm_enabled,
            c.max_peers == 50,
            c.bootstrap_peers@.len() == 0,
            c.advertise_addr is None,
            c.log_level@ == "info"@,
            !c.metrics_enabled,
            c.metrics_port == 9090,
            c.rpc_rate_limit == 100,
            c.max_tx_pool_size == 10_000,
            c.chain_id == DEFAULT_CHAIN_ID,
            !c.enable_grpc_v2,
            c.grpc_port == 8546,
    {
        NodeConfig {
            data_dir: String::from_str("data"),
            port: 8080,
            rpc_port: 8545,
            miner_address: Address([1u8; 20]),
            evm_enabled: true,
            max_peers: 50,
            bootstrap_peers: Vec::new(),
            advertise_addr: None,
            log_level: String::from_str("info"),
            metrics_enabled: false,
            metrics_port: 9090,
            rpc_rate_limit: 100,
            max_tx_pool_size: 10_000,
            chain_id: DEFAULT_CHAIN_ID,
            enable_grpc_v2: false,
            grpc_port: 8546,
        }
    }
}

/// The first rule the configuration breaks, as the message reporting it.
pub open spec fn config_error(c: NodeConfig) -> Option<Seq<char>> {
    if c.port == 0 {
        Some("P2P port cannot be 0"@)
    } else if c.rpc_port == 0 {
        Some("RPC port cannot be 0"@)
    } else if c.port == c.rpc_port {
        Some("P2P port and RPC port must be different"@)
    } else if c.grpc_port == 0 {
        Some("gRPC port cannot be 0"@)
    } else if c.grpc_port == c.port {
        Some("gRPC port and P2P port must be different"@)
    } else if c.grpc_port == c.rpc_port {
        Some("gRPC port and RPC port must be different"@)
    } else if c.max_peers == 0 {
        Some("Max peers must be greater than 0"@)
    } else if c.max_tx_pool_size == 0 {
        Some("Max transaction pool size must be greater than 0"@)
    } else if c.chain_id == 0 {
        Some("Chain ID must be greater than 0"@)
    } else {
        None
    }
}

impl NodeConfig {
    /// Checks ports (non-zero, pairwise distinct), peer and pool limits and
    /// the chain ID; reports the first violation.
    pub fn validate(&self) -> (r: Result<(), String>)
        ensures
            config_error(*self) is None ==> r is Ok,
            config_error(*self) matches Some(m) ==> (r matches Err(e) && e@ == m),
    {
        if self.port == 0 {
            return Err(String::from_str("P2P port cannot be 0"));
        }
        if self.rpc_port == 0 {
            return Err(String::from_str("RPC port cannot be 0"));
        }
        if self.port == self.rpc_port {
            return Err(String::from_str("P2P port and RPC port must be different"));
        }
        if self.grpc_port == 0 {
            return Err(String::from_str("gRPC port cannot be 0"));
        }
        if self.grpc_port == self.port {
            return Err(String::from_str("gRPC port and P2P port must be different"));
        }
        if self.grpc_port == self.rpc_port {
            return Err(String::from_str("gRPC port and RPC port must be different"));
        }
        if self.max_peers == 0 {
            return Err(String::from_str("Max peers must be greater than 0"));
        }
        if self.max_tx_pool_size == 0 {
            return Err(String::from_str("Max transaction pool size must be greater than 0"));
        }
        if self.chain_id == 0 {
            return Err(String::from_str("Chain ID must be greater than 0"));
        }
        Ok(())
    }
}

} // verus!
