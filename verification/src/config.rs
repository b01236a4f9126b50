//! Server configuration and its defaults.

use vstd::prelude::*;
use crate::queue::QueueConfig;
use crate::text::{concat, decimal_text, owned, u64_text};
use crate::types::{EvictionPolicy, KVConfig};

verus! {

/// Listening address.
#[derive(Debug, Clone)]
pub struct Server {
    pub host: String,
    pub port: u16,
    pub websocket_enabled: bool,
}

/// Key-value store settings.
#[derive(Debug, Clone)]
pub struct KVStoreConfig {
    pub max_memory_mb: usize,
    pub eviction_policy: EvictionPolicy,
    pub ttl_cleanup_interval_ms: u64,
    pub allow_flush_commands: bool,
}

/// Queue settings.
#[derive(Debug, Clone)]
pub struct QueueSystemConfig {
    pub enabled: bool,
    pub max_depth: usize,
    pub ack_deadline_secs: u64,
    pub default_max_retries: u32,
    pub default_priority: u8,
}

/// Rate limiting.
#[derive(Debug, Clone)]
pub struct RateLimitConfig {
    pub enabled: bool,
    pub requests_per_second: u64,
    pub burst_size: u64,
}

/// Logging.
#[derive(Debug, Clone)]
pub struct LoggingConfig {
    pub level: String,
    pub format: String,
}

/// The protocols served.
#[derive(Debug, Clone)]
pub struct ProtocolsConfig {
    pub streamable_http: StreamableHttpConfig,
    pub rest: RestConfig,
}

/// The streamable HTTP endpoint.
#[derive(Debug, Clone)]
pub struct StreamableHttpConfig {
    pub enabled: bool,
    pub path: String,
}

/// The REST endpoints.
#[derive(Debug, Clone)]
pub struct RestConfig {
    pub enabled: bool,
    pub prefix: String,
}

/// Which tool families the MCP interface offers.
#[derive(Debug, Clone, Copy)]
pub struct McpConfig {
    pub enable_kv_tools: bool,
    pub enable_hash_tools: bool,
    pub enable_list_tools: bool,
    pub enable_set_tools: bool,
    pub enable_queue_tools: bool,
    pub enable_sortedset_tools: bool,
    pub enable_transaction_tools: bool,
}

impl Default for McpConfig {
    fn default() -> (r: Self)
        ensures
            r.enable_kv_tools && r.enable_queue_tools,
            !r.enable_hash_tools && !r.enable_list_tools && !r.enable_set_tools,
            !r.enable_sortedset_tools && !r.enable_transaction_tools,
    {
        McpConfig {
            enable_kv_tools: true,
            enable_hash_tools: false,
            enable_list_tools: false,
            enable_set_tools: false,
            enable_queue_tools: true,
            enable_sortedset_tools: false,
            enable_transaction_tools: false,
        }
    }
}

/// The root user.
#[derive(Debug, Clone)]
pub struct RootUserConfig {
    pub username: String,
    pub password: String,
    pub enabled: bool,
}

impl Default for RootUserConfig {
    fn default() -> (r: Self)
        ensures
            r.username@ == "root"@,
            r.password@ == "root"@,
            r.enabled,
    {
        RootUserConfig { username: owned("root"), password: owned("root"), enabled: true }
    }
}

/// Authentication.
#[derive(Debug, Clone)]
pub struct AuthConfig {
    pub enabled: bool,
    pub require_auth: bool,
    pub root: RootUserConfig,
    /// Time to live of temporary API keys, in seconds.
    pub default_key_ttl: u64,
}

impl Default for AuthConfig {
    fn default() -> (r: Self)
        ensures
            !r.enabled && !r.require_auth,
            r.root.username@ == "root"@ && r.root.password@ == "root"@ && r.root.enabled,
            r.default_key_ttl == 3600,
    {
        AuthConfig { enabled: false, require_auth: false, root: RootUserConfig::default(), default_key_ttl: 3600 }
    }
}

/// The default of the switches that default to on.
pub fn default_true() -> (r: bool)
    ensures
        r,
{
    true
}

/// The default time to live of temporary API keys: one hour.
pub fn default_key_ttl() -> (r: u64)
    ensures
        r == 3600,
{
    3600
}

/// The default root user name.
pub fn default_root_username() -> (r: String)
    ensures
        r@ == "root"@,
{
    owned("root")
}

/// The default root password.
pub fn default_root_password() -> (r: String)
    ensures
        r@ == "root"@,
{
    owned("root")
}

/// The whole server configuration.
#[derive(Debug, Clone)]
pub struct ServerConfig {
    pub server: Server,
    pub kv_store: KVStoreConfig,
    pub queue: QueueSystemConfig,
    pub logging: LoggingConfig,
    pub protocols: ProtocolsConfig,
    pub rate_limit: RateLimitConfig,
    pub mcp: McpConfig,
    pub auth: AuthConfig,
}

impl Default for ServerConfig {
    fn default() -> (r: Self)
        ensures
            r.server.host@ == "0.0.0.0"@,
            r.server.port == 15500,
            !r.server.websocket_enabled,
            r.kv_store.max_memory_mb == 4096,
            r.kv_store.eviction_policy == EvictionPolicy::Lru,
            r.kv_store.ttl_cleanup_interval_ms == 100,
            !r.kv_store.allow_flush_commands,
            r.queue.enabled,
            r.queue.max_depth == 100000,
            r.queue.ack_deadline_secs == 30,
            r.queue.default_max_retries == 3,
            r.queue.default_priority == 5,
            r.logging.level@ == "info"@,
            r.logging.format@ == "json"@,
            r.protocols.streamable_http.enabled,
            r.protocols.streamable_http.path@ == "/api/v1/command"@,
            r.protocols.rest.enabled,
            r.protocols.rest.prefix@ == "/kv"@,
            !r.rate_limit.enabled,
            r.rate_limit.requests_per_second == 1000,
            r.rate_limit.burst_size == 100,
            r.mcp.enable_kv_tools && r.mcp.enable_queue_tools,
            !r.mcp.enable_hash_tools && !r.mcp.enable_list_tools && !r.mcp.enable_set_tools,
            !r.mcp.enable_sortedset_tools && !r.mcp.enable_transaction_tools,
            !r.auth.enabled && !r.auth.require_auth,
            r.auth.root.username@ == "root"@ && r.auth.root.password@ == "root"@ && r.auth.root.enabled,
            r.auth.default_key_ttl == 3600,
    {
        ServerConfig {
            server: Server { host: owned("0.0.0.0"), port: 15500, websocket_enabled: false },
            kv_store: KVStoreConfig {
                max_memory_mb: 4096,
                eviction_policy: EvictionPolicy::Lru,
                ttl_cleanup_interval_ms: 100,
                allow_flush_commands: false,
            },
            queue: QueueSystemConfig {
                enabled: true,
                max_depth: 100000,
                ack_deadline_secs: 30,
                default_max_retries: 3,
                default_priority: 5,
            },
            logging: LoggingConfig { level: owned("info"), format: owned("json") },
            protocols: ProtocolsConfig {
                streamable_http: StreamableHttpConfig { enabled: true, path: owned("/api/v1/command") },
                rest: RestConfig { enabled: true, prefix: owned("/kv") },
            },
            rate_limit: RateLimitConfig { enabled: false, requests_per_second: 1000, burst_size: 100 },
            mcp: McpConfig::default(),
            auth: AuthConfig::default(),
        }
    }
}

impl ServerConfig {
    /// The key-value store settings.
    pub fn to_kv_config(&self) -> (r: KVConfig)
        ensures
            r.max_memory_mb == self.kv_store.max_memory_mb,
            r.eviction_policy == self.kv_store.eviction_policy,
            r.ttl_cleanup_interval_ms == self.kv_store.ttl_cleanup_interval_ms,
            r.allow_flush_commands == self.kv_store.allow_flush_commands,
            r.max_value_size_bytes is None,
            r.eviction_sample_size == 5,
    {
        KVConfig {
            max_memory_mb: self.kv_store.max_memory_mb,
            eviction_policy: self.kv_store.eviction_policy,
            ttl_cleanup_interval_ms: self.kv_store.ttl_cleanup_interval_ms,
            allow_flush_commands: self.kv_store.allow_flush_commands,
            max_value_size_bytes: None,
            eviction_sample_size: 5,
        }
    }

    /// The queue settings.
    pub fn to_queue_config(&self) -> (r: QueueConfig)
        ensures
            r.max_depth == self.queue.max_depth,
            r.ack_deadline_secs == self.queue.ack_deadline_secs,
            r.default_max_retries == self.queue.default_max_retries,
            r.default_priority == self.queue.default_priority,
    {
        QueueConfig {
            max_depth: self.queue.max_depth,
            ack_deadline_secs: self.queue.ack_deadline_secs,
            default_max_retries: self.queue.default_max_retries,
            default_priority: self.queue.default_priority,
        }
    }

    /// `host:port`.
    pub fn server_addr(&self) -> (r: String)
        ensures
            r@ == self.server.host@ + ":"@ + decimal_text(self.server.port as int),
    {
        let head = concat(self.server.host.as_str(), ":");
        let port = u64_text(self.server.port as u64);
        concat(head.as_str(), port.as_str())
    }
}

} // verus!
