//! The program configuration.
use vstd::prelude::*;

verus! {

/// The default Docker repository.
pub const REPO_DEFAULT: &'static str = "toast";

/// The configuration used when there is no configuration file.
pub const EMPTY_CONFIG: &'static str = "{}";

/// The default Docker CLI binary.
pub const DOCKER_CLI_DEFAULT: &'static str = "docker";

/// A program configuration.
#[derive(Debug, PartialEq, Eq)]
pub struct Config {
    pub docker_cli: String,
    pub docker_repo: String,
    pub read_local_cache: bool,
    pub write_local_cache: bool,
    pub read_remote_cache: bool,
    pub write_remote_cache: bool,
}

/// The Docker CLI binary used unless the configuration names another.
pub fn default_docker_cli() -> (s: String)
    ensures
        s@ == "docker"@,
{
    proof { reveal_strlit("docker"); }
    String::from_str("docker")
}

/// The Docker repository used unless the configuration names another.
pub fn default_docker_repo() -> (s: String)
    ensures
        s@ == "toast"@,
{
    proof { reveal_strlit("toast"); }
    String::from_str("toast")
}

/// Reading the local cache is enabled unless the configuration says otherwise.
pub fn default_read_local_cache() -> (b: bool)
    ensures
        b,
{
    true
}

/// Writing the local cache is enabled unless the configuration says otherwise.
pub fn default_write_local_cache() -> (b: bool)
    ensures
        b,
{
    true
}

/// Reading the remote cache is disabled unless the configuration says otherwise.
pub fn default_read_remote_cache() -> (b: bool)
    ensures
        !b,
{
    false
}

/// Writing the remote cache is disabled unless the configuration says otherwise.
pub fn default_write_remote_cache() -> (b: bool)
    ensures
        !b,
{
    false
}

} // verus!
