//! Configuration.
//!
//! Every setting comes from an environment variable and has a default, which
//! also stands in for a value that cannot be read.

use crate::text::{chars_of, i64_of, parse_i64, parse_unsigned, unsigned_up_to};
use vstd::prelude::*;
use vstd::string::*;

verus! {

/// The values of the environment variables that configure the system; `None`
/// where a variable is not set.
#[derive(Debug)]
pub struct ConfigVars {
    /// `MEMORY_L0_MAX_ENTRIES`
    pub l0_max_entries: Option<String>,
    /// `MEMORY_L1_PATH`
    pub l1_path: Option<String>,
    /// `MEMORY_L1_MAX_ENTRIES`
    pub l1_max_entries: Option<String>,
    /// `MEMORY_L1_MAX_AGE_SECS`
    pub l1_max_age_secs: Option<String>,
    /// `MEMORY_L1_GC_INTERVAL_SECS`
    pub l1_gc_interval_secs: Option<String>,
    /// `MEMORY_L2_MAX_ENTRIES`
    pub l2_max_entries: Option<String>,
    /// `MEMORY_L2_PENDING_BATCH`
    pub l2_pending_batch: Option<String>,
    /// `MEMORY_L2_SYNC_INTERVAL_SECS`
    pub l2_sync_interval_secs: Option<String>,
    /// `MEMORY_L2_EMBED_BATCH_SIZE`
    pub l2_embed_batch_size: Option<String>,
    /// `MEMORY_L2_VECTOR_PERSIST_PATH`
    pub l2_vector_persist_path: Option<String>,
    /// `MEMORY_L3_ARCHIVE_DIR`
    pub l3_archive_dir: Option<String>,
    /// `MEMORY_L3_ARCHIVE_AFTER_DAYS`
    pub l3_archive_after_days: Option<String>,
    /// `MEMORY_L3_GC_INTERVAL_SECS`
    pub l3_gc_interval_secs: Option<String>,
    /// `MEMORY_API_KEY`
    pub api_key: Option<String>,
    /// `MEMORY_LISTEN`
    pub listen: Option<String>,
    /// `GEMINI_EMBEDDINGS_TOKEN`
    pub gemini_key: Option<String>,
    /// `WORKSPACE`
    pub workspace: Option<String>,
}

/// Configuration of the memory system.
#[derive(Debug)]
pub struct Config {
    pub l0_capacity: usize,
    pub l1_path: String,
    pub l1_max_entries: usize,
    pub l1_ttl_secs: i64,
    pub l1_gc_interval_secs: u64,
    pub l2_max_entries: usize,
    pub l2_pending_batch: usize,
    pub l2_sync_interval_secs: u64,
    pub l2_embed_batch_size: usize,
    pub l2_vector_persist_path: String,
    pub l3_archive_dir: String,
    pub l3_archive_after_days: i64,
    pub l3_gc_interval_secs: u64,
    pub api_key: Option<String>,
    pub listen: String,
    pub gemini_key: Option<String>,
    pub workspace_path: String,
}

/// The number in a variable, or the default where the variable is not set or
/// holds no number of the type with the given maximum.
pub open spec fn number_or(var: Option<String>, default: nat, max: nat) -> nat {
    match var {
        Some(s) => match unsigned_up_to(s@, max) {
            Some(n) => n,
            None => default,
        },
        None => default,
    }
}

/// The signed number in a variable, or the default.
pub open spec fn signed_or(var: Option<String>, default: int) -> int {
    match var {
        Some(s) => match i64_of(s@) {
            Some(n) => n,
            None => default,
        },
        None => default,
    }
}

/// The text of a variable, or the default where it is not set.
pub open spec fn text_or(var: Option<String>, default: Seq<char>) -> Seq<char> {
    match var {
        Some(s) => s@,
        None => default,
    }
}

/// The text of a variable that may stay unset.
pub open spec fn optional_text(var: Option<String>) -> Option<Seq<char>> {
    match var {
        Some(s) => Some(s@),
        None => None,
    }
}

fn read_u64(var: &Option<String>, default: u64) -> (r: u64)
    ensures
        r == number_or(*var, default as nat, u64::MAX as nat),
{
    match var {
        Some(s) => {
            let chars = chars_of(s.as_str());
            match parse_unsigned(chars.as_slice(), u64::MAX) {
                Some(n) => n,
                None => default,
            }
        },
        None => default,
    }
}

pub(crate) fn read_usize(var: &Option<String>, default: usize) -> (r: usize)
    ensures
        r == number_or(*var, default as nat, usize::MAX as nat),
{
    match var {
        Some(s) => {
            let chars = chars_of(s.as_str());
            match parse_unsigned(chars.as_slice(), usize::MAX as u64) {
                Some(n) => n as usize,
                None => default,
            }
        },
        None => default,
    }
}

fn read_i64(var: &Option<String>, default: i64) -> (r: i64)
    ensures
        r == signed_or(*var, default as int),
{
    match var {
        Some(s) => {
            let chars = chars_of(s.as_str());
            match parse_i64(chars.as_slice()) {
                Some(n) => n,
                None => default,
            }
        },
        None => default,
    }
}

fn read_text(var: &Option<String>, default: &str) -> (r: String)
    ensures
        r@ == text_or(*var, default@),
{
    match var {
        Some(s) => s.clone(),
        None => default.to_owned(),
    }
}

pub(crate) fn copy_optional(var: &Option<String>) -> (r: Option<String>)
    ensures
        optional_text(r) == optional_text(*var),
{
    match var {
        Some(s) => Some(s.clone()),
        None => None,
    }
}

/// Whether `c` is the configuration that the variables describe.
pub open spec fn configured_by(c: Config, vars: ConfigVars) -> bool {
    let size = usize::MAX as nat;
    let wide = u64::MAX as nat;
    &&& c.l0_capacity == number_or(vars.l0_max_entries, 10_000, size)
    &&& c.l1_path@ == text_or(vars.l1_path, "/tmp/memory_v2_l1"@)
    &&& c.l1_max_entries == number_or(vars.l1_max_entries, 50_000, size)
    &&& c.l1_ttl_secs == signed_or(vars.l1_max_age_secs, 604_800)
    &&& c.l1_gc_interval_secs == number_or(vars.l1_gc_interval_secs, 3600, wide)
    &&& c.l2_max_entries == number_or(vars.l2_max_entries, 100_000, size)
    &&& c.l2_pending_batch == number_or(vars.l2_pending_batch, 500, size)
    &&& c.l2_sync_interval_secs == number_or(vars.l2_sync_interval_secs, 300, wide)
    &&& c.l2_embed_batch_size == number_or(vars.l2_embed_batch_size, 50, size)
    &&& c.l2_vector_persist_path@ == text_or(
        vars.l2_vector_persist_path,
        "/tmp/memory_v2_l2_vectors.json"@,
    )
    &&& c.l3_archive_dir@ == text_or(vars.l3_archive_dir, "memory-archive"@)
    &&& c.l3_archive_after_days == signed_or(vars.l3_archive_after_days, 30)
    &&& c.l3_gc_interval_secs == number_or(vars.l3_gc_interval_secs, 86400, wide)
    &&& optional_text(c.api_key) == optional_text(vars.api_key)
    &&& c.listen@ == text_or(vars.listen, "127.0.0.1:7891"@)
    &&& optional_text(c.gemini_key) == optional_text(vars.gemini_key)
    &&& c.workspace_path@ == text_or(vars.workspace, "."@)
}

impl ConfigVars {
    /// Variables none of which is set.
    pub open spec fn none_set(&self) -> bool {
        &&& self.l0_max_entries is None
        &&& self.l1_path is None
        &&& self.l1_max_entries is None
        &&& self.l1_max_age_secs is None
        &&& self.l1_gc_interval_secs is None
        &&& self.l2_max_entries is None
        &&& self.l2_pending_batch is None
        &&& self.l2_sync_interval_secs is None
        &&& self.l2_embed_batch_size is None
        &&& self.l2_vector_persist_path is None
        &&& self.l3_archive_dir is None
        &&& self.l3_archive_after_days is None
        &&& self.l3_gc_interval_secs is None
        &&& self.api_key is None
        &&& self.listen is None
        &&& self.gemini_key is None
        &&& self.workspace is None
    }

    /// Variables none of which is set.
    pub fn unset() -> (r: Self)
        ensures
            r.none_set(),
    {
        ConfigVars {
            l0_max_entries: None,
            l1_path: None,
            l1_max_entries: None,
            l1_max_age_secs: None,
            l1_gc_interval_secs: None,
            l2_max_entries: None,
            l2_pending_batch: None,
            l2_sync_interval_secs: None,
            l2_embed_batch_size: None,
            l2_vector_persist_path: None,
            l3_archive_dir: None,
            l3_archive_after_days: None,
            l3_gc_interval_secs: None,
            api_key: None,
            listen: None,
            gemini_key: None,
            workspace: None,
        }
    }
}

impl Config {
    /// The configuration that the variables describe.
    pub fn from_vars(vars: &ConfigVars) -> (r: Self)
        ensures
            configured_by(r, *vars),
    {
        Config {
            l0_capacity: read_usize(&vars.l0_max_entries, 10_000),
            l1_path: read_text(&vars.l1_path, "/tmp/memory_v2_l1"),
            l1_max_entries: read_usize(&vars.l1_max_entries, 50_000),
            l1_ttl_secs: read_i64(&vars.l1_max_age_secs, 604_800),
            l1_gc_interval_secs: read_u64(&vars.l1_gc_interval_secs, 3600),
            l2_max_entries: read_usize(&vars.l2_max_entries, 100_000),
            l2_pending_batch: read_usize(&vars.l2_pending_batch, 500),
            l2_sync_interval_secs: read_u64(&vars.l2_sync_interval_secs, 300),
            l2_embed_batch_size: read_usize(&vars.l2_embed_batch_size, 50),
            l2_vector_persist_path: read_text(
                &vars.l2_vector_persist_path,
                "/tmp/memory_v2_l2_vectors.json",
            ),
            l3_archive_dir: read_text(&vars.l3_archive_dir, "memory-archive"),
            l3_archive_after_days: read_i64(&vars.l3_archive_after_days, 30),
            l3_gc_interval_secs: read_u64(&vars.l3_gc_interval_secs, 86400),
            api_key: copy_optional(&vars.api_key),
            listen: read_text(&vars.listen, "127.0.0.1:7891"),
            gemini_key: copy_optional(&vars.gemini_key),
            workspace_path: read_text(&vars.workspace, "."),
        }
    }
}

impl Default for Config {
    /// The configuration where no variable is set.
    fn default() -> (r: Self)
        ensures
            exists|vars: ConfigVars| vars.none_set() && configured_by(r, vars),
    {
        let vars = ConfigVars::unset();
        let r = Config::from_vars(&vars);
        proof {
            assert(vars.none_set() && configured_by(r, vars));
        }
        r
    }
}

} // verus!
