//! The CLI's configuration (`config.toml`) and how the listen port is
//! chosen.
use vstd::prelude::*;
use crate::ext_api::manifest::{parse_u32, parse_u32_decimal};
use crate::text::copy_str;

verus! {

/// The whole configuration.
#[derive(Debug)]
pub struct AppConfig {
    pub identity: IdentityConfig,
    pub network: NetworkConfig,
    /// Relay connection settings; none in pure peer-to-peer mode.
    pub relay: Option<RelayConfig>,
    pub storage: StorageConfig,
}

/// The local identity.
#[derive(Debug)]
pub struct IdentityConfig {
    /// Path of the Ed25519 key file.
    pub keyfile: String,
    /// Entity id such as `@alice:relay.example.com`.
    pub entity_id: String,
}

/// Peer networking.
#[derive(Debug)]
pub struct NetworkConfig {
    /// The peer listen port.
    pub listen_port: u16,
    /// Whether multicast scouting finds peers on the LAN.
    pub scouting: bool,
}

/// The port peers listen on unless configured otherwise.
pub fn default_listen_port() -> (p: u16)
    ensures
        p == 7447,
{
    7447
}

impl Default for NetworkConfig {
    /// Port 7447 with scouting on.
    fn default() -> (c: NetworkConfig)
        ensures
            c.listen_port == 7447,
            c.scouting,
    {
        NetworkConfig { listen_port: default_listen_port(), scouting: true }
    }
}

/// A relay to connect to.
#[derive(Debug)]
pub struct RelayConfig {
    /// Relay endpoint such as `tls/relay.example.com:7448`.
    pub endpoint: String,
    /// CA certificate path for a self-signed relay; empty for a public one.
    pub ca_cert: String,
}

/// Local storage.
#[derive(Debug)]
pub struct StorageConfig {
    /// The data directory.
    pub data_dir: String,
}

/// The port used when neither the environment, the command line nor the
/// configuration gives one.
pub const FALLBACK_PORT: u16 = 8847;

/// The listen port: `env_port` (the `EZAGENT_PORT` variable) when it parses
/// as a port, else `cli_port`, else the configured port, else 8847.
pub fn resolve_port(env_port: Option<&str>, cli_port: Option<u16>, config: &Option<AppConfig>) -> (p: u16)
    ensures
        p == (match env_port {
            Some(v) if parse_u32(v@) matches Ok(n) && n <= 65535 => parse_u32(v@)->Ok_0 as u16,
            _ => match cli_port {
                Some(c) => c,
                None => match config {
                    Some(cfg) => cfg.network.listen_port,
                    None => FALLBACK_PORT,
                },
            },
        }),
{
    if let Some(v) = env_port {
        if let Ok(n) = parse_u32_decimal(v) {
            if n <= 65535 {
                return n as u16;
            }
        }
    }
    if let Some(c) = cli_port {
        return c;
    }
    match config {
        Some(cfg) => cfg.network.listen_port,
        None => FALLBACK_PORT,
    }
}

/// The 32 key bytes of an identity key file, or the error that the file
/// does not hold exactly 32 bytes.
pub fn keypair_from_bytes(bytes: &[u8]) -> (r: Result<[u8; 32], String>)
    ensures
        match r {
            Ok(key) => bytes@.len() == 32 && key@ == bytes@,
            Err(msg) => bytes@.len() != 32 && msg@ == "identity.key must be exactly 32 bytes"@,
        },
{
    if bytes.len() != 32 {
        return Err(copy_str("identity.key must be exactly 32 bytes"));
    }
    let mut key = [0u8; 32];
    let mut i: usize = 0;
    while i < 32
        invariant
            bytes@.len() == 32,
            i <= 32,
            forall|j: int| 0 <= j < i ==> key@[j] == bytes@[j],
        decreases 32 - i,
    {
        key[i] = bytes[i];
        i = i + 1;
    }
    proof { assert(key@ =~= bytes@); }
    Ok(key)
}

} // verus!
