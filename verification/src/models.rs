//! The configuration of an application.

use vstd::prelude::*;

verus! {

/// How the gRPC server is reached.
#[derive(Debug, PartialEq, Eq)]
pub struct GrpcApiOptions {
    pub port: u32,
    pub host: String,
    pub cors: bool,
    pub web: bool,
}

/// How the REST server is reached.
#[derive(Debug, PartialEq, Eq)]
pub struct RestApiOptions {
    pub port: u32,
    pub host: String,
    pub cors: bool,
}

/// How the callers of the API prove who they are.
#[derive(Debug, PartialEq, Eq)]
pub enum ApiSecurity {
    Jwt(String),
}

/// The servers of the API.
#[derive(Debug, PartialEq, Eq)]
pub struct ApiConfig {
    pub api_security: Option<ApiSecurity>,
    pub rest: Option<RestApiOptions>,
    pub grpc: Option<GrpcApiOptions>,
    pub app_grpc: Option<GrpcApiOptions>,
}

/// Switches of the servers.
#[derive(Clone, Copy, Debug, PartialEq, Eq, Structural)]
pub struct Flags {
    pub dynamic: bool,
    pub grpc_web: bool,
    pub push_events: bool,
    pub authenticate_server_reflection: bool,
}

/// The recognized options of an application. An option that is not set has
/// its default.
#[derive(Debug, PartialEq, Eq)]
pub struct Config {
    pub app_name: String,
    /// The root of the persisted state.
    pub home_dir: String,
    pub api: Option<ApiConfig>,
    pub flags: Option<Flags>,
    /// The size of the memory map of the cache store, in bytes.
    pub cache_max_map_size: Option<u64>,
    /// The size of the memory map of the pipeline stores, in bytes.
    pub app_max_map_size: Option<u64>,
    /// The capacity of the channel of each edge.
    pub app_buffer_size: Option<u32>,
    /// The operations of a source before a commit is forced.
    pub commit_size: Option<u32>,
    /// The longest time between two commits, in milliseconds.
    pub commit_timeout: Option<u64>,
}

pub open spec fn spec_default_commit_size() -> u32 {
    10000
}

pub open spec fn spec_default_commit_timeout() -> u64 {
    5000
}

pub open spec fn spec_default_app_buffer_size() -> u32 {
    20000
}

pub open spec fn spec_default_map_size() -> u64 {
    0x100_0000_0000
}

#[verifier::when_used_as_spec(spec_default_commit_size)]
pub fn default_commit_size() -> (r: u32)
    ensures
        r == spec_default_commit_size(),
{
    10000
}

#[verifier::when_used_as_spec(spec_default_commit_timeout)]
pub fn default_commit_timeout() -> (r: u64)
    ensures
        r == spec_default_commit_timeout(),
{
    5000
}

#[verifier::when_used_as_spec(spec_default_app_buffer_size)]
pub fn default_app_buffer_size() -> (r: u32)
    ensures
        r == spec_default_app_buffer_size(),
{
    20000
}

/// One tebibyte.
#[verifier::when_used_as_spec(spec_default_map_size)]
pub fn default_app_max_map_size() -> (r: u64)
    ensures
        r == spec_default_map_size(),
{
    0x100_0000_0000
}

/// One tebibyte.
#[verifier::when_used_as_spec(spec_default_map_size)]
pub fn default_cache_max_map_size() -> (r: u64)
    ensures
        r == spec_default_map_size(),
{
    0x100_0000_0000
}

impl Default for GrpcApiOptions {
    fn default() -> (r: Self)
        ensures
            r.port == 50051,
            r.host@ == "0.0.0.0"@,
            r.cors,
            r.web,
    {
        GrpcApiOptions { port: 50051, host: "0.0.0.0".to_owned(), cors: true, web: true }
    }
}

impl Default for RestApiOptions {
    fn default() -> (r: Self)
        ensures
            r.port == 8080,
            r.host@ == "0.0.0.0"@,
            r.cors,
    {
        RestApiOptions { port: 8080, host: "0.0.0.0".to_owned(), cors: true }
    }
}

impl Default for ApiConfig {
    fn default() -> (r: Self)
        ensures
            r.api_security.is_none(),
            r.rest.is_none(),
            r.grpc.is_none(),
            r.app_grpc.is_none(),
    {
        ApiConfig { api_security: None, rest: None, grpc: None, app_grpc: None }
    }
}

} // verus!
