//! The coordinator's configuration, as parsed from its configuration file.
use vstd::prelude::*;

verus! {

/// Logging configuration.
pub struct LogConfig {
    /// Path of the log file.
    pub path: String,
    /// Owner of the log file.
    pub user: String,
    /// Group of the log file.
    pub group: String,
    /// Permissions of the log file, in octal.
    pub mode: String,
}

impl Default for LogConfig {
    fn default() -> (r: Self)
        ensures
            r.path@ == "/var/log/placer.log"@,
            r.user@ == "root"@,
            r.group@ == "root"@,
            r.mode@ == "0600"@,
    {
        LogConfig {
            path: "/var/log/placer.log".to_owned(),
            user: "root".to_owned(),
            group: "root".to_owned(),
            mode: "0600".to_owned(),
        }
    }
}

/// Pack cache configuration.
pub struct CacheConfig {
    /// Path of the cache directory.
    pub path: String,
    /// Owner of cached files.
    pub user: String,
    /// Group of cached files.
    pub group: String,
    /// Permissions of cached files, in octal.
    pub mode: String,
}

impl Default for CacheConfig {
    fn default() -> (r: Self)
        ensures
            r.path@ == "/var/cache/placer"@,
            r.user@ == "root"@,
            r.group@ == "root"@,
            r.mode@ == "0600"@,
    {
        CacheConfig {
            path: "/var/cache/placer".to_owned(),
            user: "root".to_owned(),
            group: "root".to_owned(),
            mode: "0600".to_owned(),
        }
    }
}

/// Quarantine configuration: where replaced files are kept.
pub struct QuarantineConfig {
    /// Path of the quarantine directory.
    pub path: String,
    /// Owner of quarantined files.
    pub user: String,
    /// Group of quarantined files.
    pub group: String,
    /// Permissions of quarantined files, in octal.
    pub mode: String,
}

impl Default for QuarantineConfig {
    fn default() -> (r: Self)
        ensures
            r.path@ == "/var/preserve/placer"@,
            r.user@ == "nobody"@,
            r.group@ == "nobody"@,
            r.mode@ == "0000"@,
    {
        QuarantineConfig {
            path: "/var/preserve/placer".to_owned(),
            user: "nobody".to_owned(),
            group: "nobody".to_owned(),
            mode: "0000".to_owned(),
        }
    }
}

/// A hook's configuration.
pub struct HookConfig {
    /// User to run the hook as.
    pub user: String,
    /// Group to run the hook as.
    pub group: String,
    /// Arguments of the hook.
    pub args: Option<Vec<String>>,
}

/// A target file's configuration.
pub struct FileConfig {
    /// Pack the file belongs to.
    pub pack: String,
    /// Owner of the file.
    pub user: String,
    /// Group of the file.
    pub group: String,
    /// Permissions of the file, in octal.
    pub mode: String,
    /// Hooks run before placing, by command path.
    pub before_hooks: Option<Vec<(String, HookConfig)>>,
    /// Hooks run after placing, by command path.
    pub after_hooks: Option<Vec<(String, HookConfig)>>,
}

/// A source's configuration.
pub struct SourceConfig {
    /// User to run the fetcher as.
    pub user: String,
    /// Group to run the fetcher as.
    pub group: String,
    /// Pack names and the resource to fetch each from.
    pub packs: Vec<(String, String)>,
}

/// The coordinator's configuration.
pub struct Config {
    /// Path of the keyring file.
    pub keyrings: String,
    /// Sources, by name.
    pub sources: Vec<(String, SourceConfig)>,
    /// Logging.
    pub log: LogConfig,
    /// Pack cache.
    pub cache: CacheConfig,
    /// Quarantine.
    pub quarantine: QuarantineConfig,
    /// Files to place, by path.
    pub files: Vec<(String, FileConfig)>,
}

} // verus!
