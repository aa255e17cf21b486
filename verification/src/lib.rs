//! Artifact cleaner: locates build/cache artifact directories beneath a root
//! and removes them, guided by profile-based sets of directory names.
//!
//! The traversal and deletion engine lives in [`cleaning`]; this module holds
//! the configuration values that feed it: which directory basenames count as
//! artifacts and which must never be descended into, grouped by language
//! profile.

use vstd::prelude::*;

pub mod cleaning;

verus! {

/// Configuration for a language-specific profile.
pub struct ProfileConfig {
    /// List of language-dependent directories to remove
    pub artifact_names: Vec<String>,
    /// List of language-dependent directories to ignore
    pub ignore: Vec<String>,
}

/// Configuration for artifact cleaning.
pub struct Config {
    /// Language specific configuration for the python profile
    pub py: ProfileConfig,
    /// Language specific configuration for the rust profile
    pub rust: ProfileConfig,
    /// A default style profile that does nothing and is intended for custom
    /// usage by the user
    pub user: ProfileConfig,
    /// List of language-independent directories to ignore
    pub ignore: Vec<String>,
}

/// The profile a cleaning run works under.
#[derive(Clone, Copy, PartialEq, Eq, Structural, Debug)]
pub enum Profile {
    Py,
    Rust,
    User,
}

/// The built-in default configuration: the python profile removes the usual
/// python cache directories, the rust profile removes `target`, the user
/// profile starts empty, and version-control bookkeeping directories are
/// ignored everywhere.
pub open spec fn is_default_config(r: Config) -> bool {
    &&& r.py.artifact_names@.len() == 3
    &&& r.py.artifact_names@[0]@ == "__pycache__"@
    &&& r.py.artifact_names@[1]@ == ".mypy_cache"@
    &&& r.py.artifact_names@[2]@ == ".ruff_cache"@
    &&& r.py.ignore@.len() == 0
    &&& r.rust.artifact_names@.len() == 1
    &&& r.rust.artifact_names@[0]@ == "target"@
    &&& r.rust.ignore@.len() == 0
    &&& r.user.artifact_names@.len() == 0
    &&& r.user.ignore@.len() == 0
    &&& r.ignore@.len() == 2
    &&& r.ignore@[0]@ == ".git"@
    &&& r.ignore@[1]@ == ".github"@
}

impl Config {
    /// Creates a new Config instance with default values.
    pub fn new() -> (r: Config)
        ensures
            is_default_config(r),
    {
        let mut py_artifacts: Vec<String> = Vec::new();
        py_artifacts.push(String::from_str("__pycache__"));
        py_artifacts.push(String::from_str(".mypy_cache"));
        py_artifacts.push(String::from_str(".ruff_cache"));
        let mut rust_artifacts: Vec<String> = Vec::new();
        rust_artifacts.push(String::from_str("target"));
        let mut ignore: Vec<String> = Vec::new();
        ignore.push(String::from_str(".git"));
        ignore.push(String::from_str(".github"));
        Config {
            py: ProfileConfig { artifact_names: py_artifacts, ignore: Vec::new() },
            rust: ProfileConfig { artifact_names: rust_artifacts, ignore: Vec::new() },
            user: ProfileConfig { artifact_names: Vec::new(), ignore: Vec::new() },
            ignore,
        }
    }

    /// The profile configuration that `profile` selects.
    pub fn profile(&self, profile: Profile) -> (r: &ProfileConfig)
        ensures
            profile == Profile::Py ==> *r == self.py,
            profile == Profile::Rust ==> *r == self.rust,
            profile == Profile::User ==> *r == self.user,
    {
        match profile {
            Profile::Py => &self.py,
            Profile::Rust => &self.rust,
            Profile::User => &self.user,
        }
    }
}

impl Default for Config {
    /// The default configuration is the one `Config::new` builds.
    fn default() -> (r: Config)
        ensures
            is_default_config(r),
    {
        Config::new()
    }
}

/// The ignore list a cleaning run hands the traversal: the global entries
/// followed by the profile's own.
pub fn merge_name_sets(global: &Vec<String>, profile: &Vec<String>) -> (r: Vec<String>)
    ensures
        r@ == global@ + profile@,
{
    let mut r: Vec<String> = Vec::new();
    for i in 0..global.len()
        invariant
            r@ =~= global@.subrange(0, i as int),
    {
        r.push(global[i].clone());
        proof {
            assert(r@ =~= global@.subrange(0, i + 1));
        }
    }
    proof {
        assert(r@ =~= global@);
    }
    for i in 0..profile.len()
        invariant
            r@ =~= global@ + profile@.subrange(0, i as int),
    {
        r.push(profile[i].clone());
        proof {
            assert(r@ =~= global@ + profile@.subrange(0, i + 1));
        }
    }
    proof {
        assert(r@ =~= global@ + profile@);
    }
    r
}

} // verus!
