//! What the parts of an application read from its configuration.

use vstd::prelude::*;
use vstd::string::StringExecFns;
use crate::field::text_bytes;
use crate::models::{
    default_app_buffer_size, default_app_max_map_size, default_cache_max_map_size,
    default_commit_size, default_commit_timeout, ApiConfig, ApiSecurity, Config, Flags,
    GrpcApiOptions, RestApiOptions,
};

verus! {

/// The options of the executor of a pipeline.
#[derive(Clone, Copy, Debug, PartialEq, Eq, Structural)]
pub struct ExecutorOptions {
    pub commit_sz: u32,
    pub channel_buffer_sz: usize,
    /// In milliseconds.
    pub commit_time_threshold: u64,
    pub max_map_size: usize,
}

/// The options of the cache.
#[derive(Debug, PartialEq, Eq)]
pub struct CacheManagerOptions {
    pub max_db_size: u32,
    pub max_readers: u32,
    pub max_size: usize,
    pub path: Option<String>,
}

impl Default for CacheManagerOptions {
    fn default() -> (r: Self)
        ensures
            r.max_db_size == 1000,
            r.max_readers == 1000,
            r.max_size == 0x4000_0000,
            r.path.is_none(),
    {
        CacheManagerOptions {
            max_db_size: 1000,
            max_readers: 1000,
            max_size: 0x4000_0000,
            path: None,
        }
    }
}

/// The path of `child` under the directory `base`: a separator stands
/// between them unless `base` is empty or ends with one.
pub open spec fn joined(base: Seq<char>, child: Seq<char>) -> Seq<char> {
    if base.len() == 0 || text_bytes(base).last() == 0x2f {
        base + child
    } else {
        base + "/"@ + child
    }
}

/// A size in bytes as the machine can hold it: the largest size that it
/// holds where the number is larger.
pub open spec fn size_of(v: u64) -> usize {
    if v > usize::MAX {
        usize::MAX
    } else {
        v as usize
    }
}

/// The path of `child` under the directory `base`.
pub fn join_path(base: &str, child: &str) -> (r: String)
    ensures
        r@ == joined(base@, child@),
{
    let bytes = base.as_bytes();
    let mut r = String::from_str(base);
    proof {
        vstd::utf8::encode_utf8_decode_utf8(base@);
        if bytes@.len() == 0 {
            assert(vstd::utf8::decode_utf8(bytes@) =~= Seq::<char>::empty()) by {
                reveal_with_fuel(vstd::utf8::decode_utf8, 1);
            }
        }
    }
    if bytes.len() > 0 && bytes[bytes.len() - 1] != 0x2f {
        r.append("/");
    }
    r.append(child);
    proof {
        assert(base@ + Seq::<char>::empty() =~= base@);
    }
    r
}

fn to_size(v: u64) -> (r: usize)
    ensures
        r == size_of(v),
{
    if v > usize::MAX as u64 {
        usize::MAX
    } else {
        v as usize
    }
}

pub fn get_pipeline_dir(config: &Config) -> (r: String)
    ensures
        r@ == joined(config.home_dir@, "pipeline"@),
{
    join_path(config.home_dir.as_str(), "pipeline")
}

pub fn get_app_grpc_config(config: Config) -> (r: GrpcApiOptions)
    ensures
        match config.api {
            Some(ApiConfig { app_grpc: Some(o), .. }) => r == o,
            _ => r.port == 50051 && r.host@ == "0.0.0.0"@ && r.cors && r.web,
        },
{
    match config.api {
        Some(api) => match api.app_grpc {
            Some(o) => o,
            None => GrpcApiOptions::default(),
        },
        None => GrpcApiOptions::default(),
    }
}

pub fn get_cache_dir(config: &Config) -> (r: String)
    ensures
        r@ == joined(config.home_dir@, "cache"@),
{
    join_path(config.home_dir.as_str(), "cache")
}

pub fn get_cache_max_map_size(config: &Config) -> (r: u64)
    ensures
        r == config.cache_max_map_size.unwrap_or(default_cache_max_map_size()),
{
    match config.cache_max_map_size {
        Some(v) => v,
        None => default_cache_max_map_size(),
    }
}

pub fn get_app_max_map_size(config: &Config) -> (r: u64)
    ensures
        r == config.app_max_map_size.unwrap_or(default_app_max_map_size()),
{
    match config.app_max_map_size {
        Some(v) => v,
        None => default_app_max_map_size(),
    }
}

/// The longest time between two commits, in milliseconds.
pub fn get_commit_time_threshold(config: &Config) -> (r: u64)
    ensures
        r == config.commit_timeout.unwrap_or(default_commit_timeout()),
{
    if let Some(commit_time_threshold) = config.commit_timeout {
        commit_time_threshold
    } else {
        default_commit_timeout()
    }
}

pub fn get_buffer_size(config: &Config) -> (r: u32)
    ensures
        r == config.app_buffer_size.unwrap_or(default_app_buffer_size()),
{
    match config.app_buffer_size {
        Some(v) => v,
        None => default_app_buffer_size(),
    }
}

pub fn get_commit_size(config: &Config) -> (r: u32)
    ensures
        r == config.commit_size.unwrap_or(default_commit_size()),
{
    match config.commit_size {
        Some(v) => v,
        None => default_commit_size(),
    }
}

pub fn get_api_dir(config: &Config) -> (r: String)
    ensures
        r@ == joined(config.home_dir@, "api"@),
{
    join_path(config.home_dir.as_str(), "api")
}

pub fn get_grpc_config(config: Config) -> (r: GrpcApiOptions)
    ensures
        match config.api {
            Some(ApiConfig { grpc: Some(o), .. }) => r == o,
            _ => r.port == 50051 && r.host@ == "0.0.0.0"@ && r.cors && r.web,
        },
{
    match config.api {
        Some(api) => match api.grpc {
            Some(o) => o,
            None => GrpcApiOptions::default(),
        },
        None => GrpcApiOptions::default(),
    }
}

pub fn get_api_config(config: Config) -> (r: ApiConfig)
    ensures
        match config.api {
            Some(api) => r == api,
            None => r.api_security.is_none() && r.rest.is_none() && r.grpc.is_none()
                && r.app_grpc.is_none(),
        },
{
    match config.api {
        Some(api) => api,
        None => ApiConfig::default(),
    }
}

pub fn get_rest_config(config: Config) -> (r: RestApiOptions)
    ensures
        match config.api {
            Some(ApiConfig { rest: Some(o), .. }) => r == o,
            _ => r.port == 8080 && r.host@ == "0.0.0.0"@ && r.cors,
        },
{
    match config.api {
        Some(api) => match api.rest {
            Some(o) => o,
            None => RestApiOptions::default(),
        },
        None => RestApiOptions::default(),
    }
}

pub fn get_api_security_config(config: Config) -> (r: Option<ApiSecurity>)
    ensures
        r == (match config.api {
            Some(api) => api.api_security,
            None => None,
        }),
{
    get_api_config(config).api_security
}

pub fn get_flags(config: Config) -> (r: Option<Flags>)
    ensures
        r == config.flags,
{
    config.flags
}

pub fn get_repl_history_path(config: &Config) -> (r: String)
    ensures
        r@ == joined(config.home_dir@, "history.txt"@),
{
    join_path(config.home_dir.as_str(), "history.txt")
}

pub fn get_sql_history_path(config: &Config) -> (r: String)
    ensures
        r@ == joined(config.home_dir@, "sql_history.txt"@),
{
    join_path(config.home_dir.as_str(), "sql_history.txt")
}

pub fn get_executor_options(config: &Config) -> (r: ExecutorOptions)
    ensures
        r == (ExecutorOptions {
            commit_sz: config.commit_size.unwrap_or(default_commit_size()),
            channel_buffer_sz: config.app_buffer_size.unwrap_or(default_app_buffer_size()) as usize,
            commit_time_threshold: config.commit_timeout.unwrap_or(default_commit_timeout()),
            max_map_size: size_of(config.app_max_map_size.unwrap_or(default_app_max_map_size())),
        }),
{
    ExecutorOptions {
        commit_sz: get_commit_size(config),
        channel_buffer_sz: get_buffer_size(config) as usize,
        commit_time_threshold: get_commit_time_threshold(config),
        max_map_size: to_size(get_app_max_map_size(config)),
    }
}

pub fn get_cache_manager_options(config: &Config) -> (r: CacheManagerOptions)
    ensures
        r.path matches Some(p) && p@ == joined(config.home_dir@, "cache"@),
        r.max_size == size_of(config.cache_max_map_size.unwrap_or(default_cache_max_map_size())),
        r.max_db_size == 1000,
        r.max_readers == 1000,
{
    let defaults = CacheManagerOptions::default();
    CacheManagerOptions {
        path: Some(get_cache_dir(config)),
        max_size: to_size(get_cache_max_map_size(config)),
        max_db_size: defaults.max_db_size,
        max_readers: defaults.max_readers,
    }
}

} // verus!
