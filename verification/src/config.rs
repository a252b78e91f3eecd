//! Configuration file locations inside an already-discovered configuration
//! directory. Finding and creating that directory is input/output and lives
//! outside this library.

use vstd::prelude::*;
use vstd::string::StringExecFns;

verus! {

/// The configuration file inside the configuration directory.
pub fn get_config_path(config_dir: &str) -> (r: String)
    ensures
        r@ == config_dir@ + "/config.toml"@,
{
    let mut p = config_dir.to_owned();
    p.append("/config.toml");
    p
}

/// The model list file inside the configuration directory.
pub fn get_models_path(config_dir: &str) -> (r: String)
    ensures
        r@ == config_dir@ + "/models.json"@,
{
    let mut p = config_dir.to_owned();
    p.append("/models.json");
    p
}

} // verus!
