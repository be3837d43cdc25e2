//! Configuration loaded from `bear-formatter.toml`.

use std::path::PathBuf;
use vstd::prelude::*;

verus! {

#[verifier::external_type_specification]
#[verifier::external_body]
pub struct ExPathBuf(PathBuf);

/// User configuration.
pub struct Config {
    /// Override the Bear database path (e.g. to format a copy).
    pub database: Option<PathBuf>,
}

impl Default for Config {
    fn default() -> (config: Self)
        ensures
            config.database is None,
    {
        Config { database: None }
    }
}

} // verus!
