use vstd::prelude::*;

verus! {

/// The process configuration the engine consumes, resolved once before
/// `connect` is called: backend tuning knobs, TLS material paths, the pool
/// size, and the meta-key shard count.
pub struct BackendOptions {
    pub timeout_ms: u64,
    pub allow_batch: bool,
    pub completion_queue_size: u64,
    pub grpc_keepalive_time_ms: u64,
    pub grpc_keepalive_timeout_ms: u64,
    pub overload_threshold: u64,
    pub max_batch_size: u64,
    pub max_inflight_requests: u64,
    pub max_batch_wait_time_ms: u64,
    pub ca_path: String,
    pub cert_path: String,
    pub key_path: String,
    pub conn_concurrency: usize,
    pub meta_key_number: u16,
}

impl BackendOptions {
    /// TLS is configured exactly when any of the CA, certificate or key
    /// paths is non-empty.
    pub open spec fn spec_use_tls(&self) -> bool {
        self.ca_path@.len() > 0 || self.cert_path@.len() > 0 || self.key_path@.len() > 0
    }
}

/// The resolved plan of one connect call: what the session-creating caller
/// must do, decided from the configuration alone.
#[derive(Clone, Copy, Debug, PartialEq, Eq, Structural)]
pub struct ConnectPlan {
    pub use_tls: bool,
    pub sessions_to_create: usize,
    pub timeout_ms: u64,
}

/// Plans the transactional connect: `conn_concurrency` independent
/// sessions, TLS only if any TLS path is set, and the configured timeout on
/// every backend call.
pub fn plan_txn_connect(opts: &BackendOptions) -> (r: ConnectPlan)
    ensures
        r.use_tls == opts.spec_use_tls(),
        r.sessions_to_create == opts.conn_concurrency,
        r.timeout_ms == opts.timeout_ms,
{
    let use_tls = !opts.ca_path.as_str().is_empty() || !opts.cert_path.as_str().is_empty()
        || !opts.key_path.as_str().is_empty();
    ConnectPlan { use_tls, sessions_to_create: opts.conn_concurrency, timeout_ms: opts.timeout_ms }
}

/// Plans the raw connect: the one raw session, with the same TLS decision
/// and timeout.
pub fn plan_raw_connect(opts: &BackendOptions) -> (r: ConnectPlan)
    ensures
        r.use_tls == opts.spec_use_tls(),
        r.sessions_to_create == 1,
        r.timeout_ms == opts.timeout_ms,
{
    let use_tls = !opts.ca_path.as_str().is_empty() || !opts.cert_path.as_str().is_empty()
        || !opts.key_path.as_str().is_empty();
    ConnectPlan { use_tls, sessions_to_create: 1, timeout_ms: opts.timeout_ms }
}

} // verus!
