//! The configuration of the server.
//!
//! Reading a configuration source is not done here: whoever reads one hands
//! in the settings that it holds, and gets the configuration.

use vstd::prelude::*;

verus! {

/// Where the server listens.
#[derive(Debug, PartialEq, Eq)]
pub struct ServerConfig {
    /// The address to bind.
    pub address: String,
    /// The port to bind.
    pub port: u16,
}

/// The configuration of the server.
#[derive(Debug, PartialEq, Eq)]
pub struct AppConfig {
    /// Where the server listens.
    pub server: ServerConfig,
    /// The directory of the snapshot.
    pub dir: String,
    /// The file name of the snapshot.
    pub dbfilename: String,
}

/// The settings that a configuration source holds: each of them, or not.
#[derive(Debug, PartialEq, Eq)]
pub struct Settings {
    /// The address to bind.
    pub address: Option<String>,
    /// The port to bind.
    pub port: Option<u16>,
    /// The directory of the snapshot.
    pub dir: Option<String>,
    /// The file name of the snapshot.
    pub dbfilename: Option<String>,
}

/// Why some settings are no configuration.
#[derive(Debug, Clone, Copy, PartialEq, Eq, Structural)]
pub enum ConfigError {
    /// The address to bind is not set.
    MissingAddress,
    /// The port to bind is not set.
    MissingPort,
}

/// The directory of the snapshot where none is set: `data`.
pub open spec fn default_dir() -> Seq<char> {
    "data"@
}

/// The file name of the snapshot where none is set: `dump.db`.
pub open spec fn default_dbfilename() -> Seq<char> {
    "dump.db"@
}

/// The setting `found`, or `otherwise` where it is not set.
pub open spec fn or_default(found: Option<String>, otherwise: Seq<char>) -> Seq<char> {
    match found {
        Some(text) => text@,
        None => otherwise,
    }
}

/// The configuration that the settings `found` make.
///
/// The address and the port must be set, and the address is looked for
/// first. The directory and the file name have defaults.
pub fn load_config(found: Settings) -> (result: Result<AppConfig, ConfigError>)
    ensures
        match (found.address, found.port) {
            (None, _) => result matches Err(e) && e == ConfigError::MissingAddress,
            (Some(_), None) => result matches Err(e) && e == ConfigError::MissingPort,
            (Some(address), Some(port)) => result matches Ok(config) && config.server.address@
                == address@ && config.server.port == port && config.dir@ == or_default(
                found.dir,
                default_dir(),
            ) && config.dbfilename@ == or_default(found.dbfilename, default_dbfilename()),
        },
{
    let address = match found.address {
        Some(address) => address,
        None => {
            return Err(ConfigError::MissingAddress);
        },
    };
    let port = match found.port {
        Some(port) => port,
        None => {
            return Err(ConfigError::MissingPort);
        },
    };
    let dir = match found.dir {
        Some(dir) => dir,
        None => "data".to_owned(),
    };
    let dbfilename = match found.dbfilename {
        Some(dbfilename) => dbfilename,
        None => "dump.db".to_owned(),
    };
    Ok(AppConfig { server: ServerConfig { address, port }, dir, dbfilename })
}

} // verus!
