//! The configuration snapshot that the host hands to the core: how large
//! its pools are, and which extension artifacts to load at startup.
use vstd::prelude::*;

verus! {

#[derive(Debug, Clone, Copy)]
pub struct GeneralConfig {
    pub thread_pool_size: usize,
    pub max_connections: usize,
}

/// Paths of the module artifacts to load at startup, in load order.
#[derive(Debug)]
pub struct ModulesConfig {
    pub load_paths: Vec<String>,
}

/// Paths of the plugin artifacts to load at startup, in load order.
#[derive(Debug)]
pub struct PluginsConfig {
    pub load_paths: Vec<String>,
}

} // verus!
