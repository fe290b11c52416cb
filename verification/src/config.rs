//! The run configuration.
//!
//! The configuration file itself is read and decoded by the caller;
//! the library receives the one resolved value it defines: the path of
//! the world file.

use vstd::prelude::*;

verus! {

/// The configuration of a run: where the world file lives.
pub struct Config {
    /// Path of the JSON world file, absolute or relative to the
    /// process working directory.
    pub locations_file: String,
}

impl Config {
    /// The default path of the configuration file itself.
    pub fn config_file_default() -> (r: &'static str)
        ensures
            r@ == "./data/norp.config.toml"@,
    {
        "./data/norp.config.toml"
    }

    /// Builds a configuration from the resolved world-file path.
    pub fn new(locations_file: String) -> (c: Config)
        ensures
            c.locations_file@ == locations_file@,
    {
        Config { locations_file }
    }
}

} // verus!
