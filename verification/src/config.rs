//! Engine and client configuration: the backing file location (normalized to
//! the engine's file extension), the runtime mode (disk-backed or
//! memory-only), logging preferences, and the optional default time-to-live
//! applied to writes that do not specify one.
//!
//! Durations and times are in milliseconds.

use vstd::prelude::*;

verus! {

/// The kind of runtime the engine uses: `Disk` both caches in memory and
/// writes a durable log, `Memory` only caches.
#[derive(Debug, Clone, Copy, PartialEq, Eq, Structural)]
pub enum RuntTimeType {
    Memory,
    Disk,
}

/// Specifies the type of runtime to use for the engine.
#[derive(Debug, Clone, Copy, PartialEq, Eq, Structural)]
pub struct RunTime {
    /// The type of runtime to use for the engine.
    pub _type: RuntTimeType,
}

impl RunTime {
    pub fn new(_type: RuntTimeType) -> (r: RunTime)
        ensures
            r._type == _type,
    {
        RunTime { _type }
    }

    /// Get the type of runtime.
    pub fn get_type(&self) -> (r: &RuntTimeType)
        ensures
            *r == self._type,
    {
        &self._type
    }
}

impl Default for RunTime {
    fn default() -> (r: Self)
        ensures
            r._type == RuntTimeType::Disk,
    {
        RunTime { _type: RuntTimeType::Disk }
    }
}

/// A logging verbosity level; presentation-only, outside the engine's
/// contracts.  The application maps it onto its logging backend.
#[derive(Debug, Clone, Copy, PartialEq, Eq, Structural)]
pub enum LogLevel {
    Off,
    Error,
    Warn,
    Info,
    Debug,
    Trace,
}

/// Whether there is a dot anywhere in the path.
pub open spec fn spec_has_dot(s: Seq<char>) -> bool {
    spec_last_dot(s) >= 0
}

/// The index of the last dot in the path, or -1 if there is none.
pub open spec fn spec_last_dot(s: Seq<char>) -> int
    decreases s.len(),
{
    if s.len() == 0 {
        -1
    } else if s.last() == '.' {
        s.len() - 1
    } else {
        spec_last_dot(s.drop_last())
    }
}

proof fn lemma_last_dot(s: Seq<char>)
    ensures
        -1 <= spec_last_dot(s) < s.len(),
        spec_last_dot(s) >= 0 ==> s[spec_last_dot(s)] == '.',
        forall|j: int| spec_last_dot(s) < j < s.len() ==> s[j] != '.',
    decreases s.len(),
{
    if s.len() == 0 {
    } else if s.last() == '.' {
    } else {
        let front = s.drop_last();
        lemma_last_dot(front);
        if spec_last_dot(s) >= 0 {
            assert(front[spec_last_dot(s)] == s[spec_last_dot(s)]);
        }
        assert forall|j: int| spec_last_dot(s) < j < s.len() implies s[j] != '.' by {
            if j < s.len() - 1 {
                assert(front[j] != '.');
                assert(front[j] == s[j]);
            }
        }
    }
}

proof fn lemma_last_dot_at(s: Seq<char>, i: int)
    requires
        0 <= i < s.len(),
        s[i] == '.',
        forall|j: int| i < j < s.len() ==> s[j] != '.',
    ensures
        spec_last_dot(s) == i,
    decreases s.len(),
{
    if i == s.len() - 1 {
    } else {
        lemma_last_dot_at(s.drop_last(), i);
    }
}

/// Whether the path ends with the given suffix.
pub open spec fn spec_ends_with(s: Seq<char>, suffix: Seq<char>) -> bool {
    s.len() >= suffix.len() && s.subrange(s.len() - suffix.len(), s.len() as int) == suffix
}

/// The normalized form of a database file path: a path ending in a
/// directory separator gets the default file name appended; a path with no
/// extension gets the engine's extension appended; any other extension is
/// replaced by the engine's.
pub open spec fn spec_normalized_path(s: Seq<char>) -> Seq<char> {
    if s.len() > 0 && s.last() == '/' {
        s + "db.qkv"@
    } else if !spec_has_dot(s) {
        s + ".qkv"@
    } else if spec_ends_with(s, ".qkv"@) {
        s
    } else {
        s.subrange(0, spec_last_dot(s)) + ".qkv"@
    }
}

/// Makes sure the database path is valid: normalizes it to the engine's
/// file extension, appending the default file name to directory paths.
pub fn validate_database_file_path(input: &str) -> (r: String)
    ensures
        r@ == spec_normalized_path(input@),
{
    proof {
        reveal_strlit("db.qkv");
        reveal_strlit(".qkv");
        lemma_last_dot(input@);
    }
    let n = input.unicode_len();
    if n > 0 && input.get_char(n - 1) == '/' {
        let mut r = input.to_owned();
        r.append("db.qkv");
        return r;
    }
    // find the last dot, scanning from the end
    let mut j: usize = n;
    while j > 0 && input.get_char(j - 1) != '.'
        invariant
            j <= n,
            n == input@.len(),
            forall|t: int| j <= t < n ==> input@[t] != '.',
        decreases j,
    {
        j -= 1;
    }
    if j == 0 {
        // no extension: add the engine's
        proof {
            if spec_has_dot(input@) {
                assert(input@[spec_last_dot(input@)] == '.');
            }
        }
        let mut r = input.to_owned();
        r.append(".qkv");
        return r;
    }
    let dot = j - 1;
    proof {
        lemma_last_dot_at(input@, dot as int);
    }
    if n >= 4 && input.get_char(n - 4) == '.' && input.get_char(n - 3) == 'q' && input.get_char(
        n - 2,
    ) == 'k' && input.get_char(n - 1) == 'v' {
        // already has the engine's extension
        proof {
            reveal_strlit(".qkv");
            assert(input@.subrange(n - 4, n as int) =~= ".qkv"@);
        }
        return input.to_owned();
    }
    // replace the current extension with the engine's
    proof {
        reveal_strlit(".qkv");
        if spec_ends_with(input@, ".qkv"@) {
            let sub = input@.subrange(n - 4, n as int);
            assert(sub[0] == input@[n - 4] && sub[1] == input@[n - 3] && sub[2] == input@[n - 2]
                && sub[3] == input@[n - 1]);
            assert(sub[0] == '.' && sub[1] == 'q' && sub[2] == 'k' && sub[3] == 'v');
            assert(false);
        }
    }
    let prefix = input.substring_char(0, dot);
    let mut r = prefix.to_owned();
    r.append(".qkv");
    r
}

/// The configuration for the engine.
#[derive(Debug, Clone)]
pub struct DatabaseConfiguration {
    /// The path to the database file.
    ///
    /// Default: "db.qkv"
    pub path: Option<String>,
    /// The type of runtime to use for the engine.
    ///
    /// Default: RuntTimeType::Disk
    pub runtime: Option<RunTime>,
    /// If the engine should log to stdout.
    ///
    /// Default: true
    pub log: Option<bool>,
    /// The log level to use.
    ///
    /// Default: LogLevel::Info
    pub log_level: Option<LogLevel>,
    /// The default time-to-live, in milliseconds, for entries written
    /// without an explicit one.
    ///
    /// Default: None
    pub default_ttl: Option<u64>,
}

impl DatabaseConfiguration {
    /// Builds a configuration, normalizing the backing file path.  Creating
    /// the file's parent directories is the application's concern when it
    /// opens the file.
    pub fn new(
        path: Option<String>,
        runtime: Option<RunTime>,
        log: Option<bool>,
        log_level: Option<LogLevel>,
        default_ttl: Option<u64>,
    ) -> (r: DatabaseConfiguration)
        ensures
            r.path is Some,
            r.path->0@ == spec_normalized_path(
                match path {
                    Some(p) => p@,
                    None => "db.qkv"@,
                },
            ),
            r.runtime == runtime,
            r.log == log,
            r.log_level == log_level,
            r.default_ttl == default_ttl,
    {
        let vp = match path {
            Some(p) => validate_database_file_path(p.as_str()),
            None => validate_database_file_path("db.qkv"),
        };
        DatabaseConfiguration { path: Some(vp), runtime, log, log_level, default_ttl }
    }
}

impl Default for DatabaseConfiguration {
    fn default() -> (r: Self)
        ensures
            r.path is Some && r.path->0@ == "db.qkv"@,
            r.runtime is Some && r.runtime->0._type == RuntTimeType::Disk,
            r.log == Some(true),
            r.log_level is None,
            r.default_ttl is None,
    {
        DatabaseConfiguration {
            path: Some("db.qkv".to_owned()),
            runtime: Some(RunTime::new(RuntTimeType::Disk)),
            log: Some(true),
            log_level: None,
            default_ttl: None,
        }
    }
}

/// The configuration clients hand to the engine.
#[derive(Debug, Clone)]
pub struct ClientConfig {
    /// The path to the database file.
    ///
    /// Default: "db.qkv"
    pub path: Option<String>,
    /// If the engine should log to stdout.
    ///
    /// Default: true
    pub log: Option<bool>,
    /// The log level to use.
    ///
    /// Default: LogLevel::Info
    pub log_level: Option<LogLevel>,
    /// The default time-to-live, in milliseconds, for entries in the
    /// database.
    ///
    /// If enabled, all entries will have a ttl by default.  If `None`, a
    /// ttl must be set explicitly per entry.
    ///
    /// Default: None
    pub default_ttl: Option<u64>,
}

impl ClientConfig {
    pub fn new(path: String, log: Option<bool>, log_level: Option<LogLevel>) -> (r: ClientConfig)
        ensures
            r.path == Some(path),
            r.log == log,
            r.log_level == log_level,
            r.default_ttl is None,
    {
        ClientConfig { path: Some(path), log, log_level, default_ttl: None }
    }
}

impl Default for ClientConfig {
    fn default() -> (r: Self)
        ensures
            r.path is Some && r.path->0@ == "db.qkv"@,
            r.log == Some(true),
            r.log_level == Some(LogLevel::Info),
            r.default_ttl is None,
    {
        ClientConfig {
            path: Some("db.qkv".to_owned()),
            log: Some(true),
            log_level: Some(LogLevel::Info),
            default_ttl: None,
        }
    }
}

/// A minimal configuration: only the backing file and an optional size cap.
#[derive(Debug, Clone)]
pub struct QuickKVConfig {
    pub db_file: Option<String>,
    pub max_db_size: Option<u64>,
}

impl Default for QuickKVConfig {
    fn default() -> (r: Self)
        ensures
            r.db_file is Some && r.db_file->0@ == "db.qkv"@,
            r.max_db_size is None,
    {
        QuickKVConfig { db_file: Some("db.qkv".to_owned()), max_db_size: None }
    }
}

} // verus!
