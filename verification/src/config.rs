//! Runtime settings of all services.
use vstd::prelude::*;
use vstd::string::StringExecFns;

verus! {

/// Top-level settings consumed by services.
#[derive(Debug)]
pub struct Settings {
    pub redis_addr: String,
    pub execution_plane: ExecutionPlane,
    pub settlement_plane: SettlementPlane,
    pub verifier: Verifier,
    pub gateway: Gateway,
}

/// TCP/HTTP endpoints and logging for the ingress plane.
#[derive(Debug)]
pub struct ExecutionPlane {
    pub tcp_listen_addr: String,
    pub http_listen_addr: String,
    pub execution_log_path: String,
}

/// Checkpointing cadence and DA endpoint for the settlement plane.
#[derive(Debug)]
pub struct SettlementPlane {
    pub checkpoint_interval_seconds: u64,
    pub eigenda_proxy_url: String,
    pub checkpoint_file_path: String,
}

/// Verifier settings for reading checkpoints and logs.
#[derive(Debug)]
pub struct Verifier {
    pub checkpoint_file_path: String,
    pub execution_log_path: String,
}

/// Market data gateway settings.
#[derive(Debug)]
pub struct Gateway {
    pub http_listen_addr: String,
}

impl Settings {
    /// The settings that hold where neither a file nor the environment says
    /// otherwise.
    pub fn defaults() -> (r: Settings)
        ensures
            r.redis_addr@ == "redis://10.10.0.2:6379/"@,
            r.execution_plane.tcp_listen_addr@ == "0.0.0.0:8080"@,
            r.execution_plane.http_listen_addr@ == "0.0.0.0:9090"@,
            r.execution_plane.execution_log_path@ == "execution.log"@,
            r.settlement_plane.checkpoint_interval_seconds == 5,
            r.settlement_plane.eigenda_proxy_url@
                == "http://10.10.0.3:3100/put?commitment_mode=standard"@,
            r.settlement_plane.checkpoint_file_path@ == "checkpoint.json"@,
            r.verifier.checkpoint_file_path@ == "checkpoint.json"@,
            r.verifier.execution_log_path@ == "execution.log"@,
            r.gateway.http_listen_addr@ == "127.0.0.1:9100"@,
    {
        Settings {
            redis_addr: String::from_str("redis://10.10.0.2:6379/"),
            execution_plane: ExecutionPlane {
                tcp_listen_addr: String::from_str("0.0.0.0:8080"),
                http_listen_addr: String::from_str("0.0.0.0:9090"),
                execution_log_path: String::from_str("execution.log"),
            },
            settlement_plane: SettlementPlane {
                checkpoint_interval_seconds: 5,
                eigenda_proxy_url: String::from_str(
                    "http://10.10.0.3:3100/put?commitment_mode=standard",
                ),
                checkpoint_file_path: String::from_str("checkpoint.json"),
            },
            verifier: Verifier {
                checkpoint_file_path: String::from_str("checkpoint.json"),
                execution_log_path: String::from_str("execution.log"),
            },
            gateway: Gateway { http_listen_addr: String::from_str("127.0.0.1:9100") },
        }
    }
}

} // verus!
