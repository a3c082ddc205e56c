use irondag::config::NodeConfig;

#[test]
fn default_config_is_valid() {
    let c = NodeConfig::default();
    assert_eq!(c.data_dir, "data");
    assert_eq!(c.port, 8080);
    assert_eq!(c.rpc_port, 8545);
    assert_eq!(c.grpc_port, 8546);
    assert_eq!(c.chain_id, 11567);
    assert_eq!(c.log_level, "info");
    assert!(c.validate().is_ok());
}

#[test]
fn each_rule_reports_its_message() {
    let mut c = NodeConfig::default();
    c.port = 0;
    assert_eq!(c.validate().unwrap_err(), "P2P port cannot be 0");
    let mut c = NodeConfig::default();
    c.rpc_port = 0;
    assert_eq!(c.validate().unwrap_err(), "RPC port cannot be 0");
    let mut c = NodeConfig::default();
    c.rpc_port = c.port;
    assert_eq!(c.validate().unwrap_err(), "P2P port and RPC port must be different");
    let mut c = NodeConfig::default();
    c.grpc_port = 0;
    assert_eq!(c.validate().unwrap_err(), "gRPC port cannot be 0");
    let mut c = NodeConfig::default();
    c.grpc_port = c.port;
    assert_eq!(c.validate().unwrap_err(), "gRPC port and P2P port must be different");
    let mut c = NodeConfig::default();
    c.grpc_port = c.rpc_port;
    assert_eq!(c.validate().unwrap_err(), "gRPC port and RPC port must be different");
    let mut c = NodeConfig::default();
    c.max_peers = 0;
    assert_eq!(c.validate().unwrap_err(), "Max peers must be greater than 0");
    let mut c = NodeConfig::default();
    c.max_tx_pool_size = 0;
    assert_eq!(c.validate().unwrap_err(), "Max transaction pool size must be greater than 0");
    let mut c = NodeConfig::default();
    c.chain_id = 0;
    assert_eq!(c.validate().unwrap_err(), "Chain ID must be greater than 0");
}
