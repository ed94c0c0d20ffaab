use vstd::prelude::*;

verus! {

/// Which of the two pipelines a run performs, and for which collection
/// (`None` means every eligible collection).
pub enum Operation {
    Backup { index: Option<String> },
    Restore { index: Option<String> },
}

/// The fully resolved settings that drive a run.
pub struct BackupConfig {
    pub host: String,
    pub backup_dir: String,
    pub auth: Option<(String, String)>,
    pub skip_indices: Vec<String>,
    pub max_index_size_mb: Option<u64>,
    pub operation: Operation,
    pub connect_timeout_secs: u64,
    pub request_timeout_secs: u64,
    pub scroll_size: u64,
    pub scroll_time: String,
    pub max_parallel_indices: usize,
    pub buffer_size: usize,
    pub bulk_batch_size: usize,
}

/// The shape of the on-disk configuration file; every field is optional
/// and falls back to a default during resolution.
pub struct ConfigFile {
    pub elastic: ElasticConfig,
    pub backup: BackupConfigFile,
    pub restore: RestoreConfigFile,
}

pub struct ElasticConfig {
    pub host: Option<String>,
    pub username: Option<String>,
    pub password: Option<String>,
    pub timeout_secs: Option<u64>,
    pub connect_timeout_secs: Option<u64>,
}

pub struct BackupConfigFile {
    pub backup_dir: Option<String>,
    pub scroll_size: Option<u64>,
    pub scroll_time: Option<String>,
    pub max_parallel_indices: Option<usize>,
    pub skip_indices: Option<Vec<String>>,
    pub max_index_size_mb: Option<u64>,
}

pub struct RestoreConfigFile {
    pub bulk_batch_size: Option<usize>,
}

pub const DEFAULT_BACKUP_DIR: &'static str = "./backups";

pub const DEFAULT_LOG_FILE: &'static str = "backup.log";

pub const DEFAULT_ELASTIC_HOST: &'static str = "http://es.example.com:9200";

pub const DEFAULT_CONNECT_TIMEOUT_SECS: u64 = 60;

pub const DEFAULT_REQUEST_TIMEOUT_SECS: u64 = 180;

pub const DEFAULT_SCROLL_SIZE: u64 = 10000;

pub const DEFAULT_SCROLL_TIME: &'static str = "10m";

pub const DEFAULT_MAX_PARALLEL_INDICES: usize = 4;

pub const DEFAULT_BUFFER_SIZE: usize = 1024 * 1024;

pub const DEFAULT_BULK_BATCH_SIZE: usize = 5000;

/// Resolve a parsed configuration file into the settings of a run: every
/// absent field receives its documented default, credentials form an
/// authentication pair only when both are present.
pub fn resolve_config(file: ConfigFile, operation: Operation) -> (r: BackupConfig)
    ensures
        r.host@ == (match file.elastic.host {
            Some(h) => h@,
            None => DEFAULT_ELASTIC_HOST@,
        }),
        r.backup_dir@ == (match file.backup.backup_dir {
            Some(d) => d@,
            None => DEFAULT_BACKUP_DIR@,
        }),
        (match (file.elastic.username, file.elastic.password) {
            (Some(u), Some(p)) => (r.auth matches Some(a) && a.0@ == u@ && a.1@ == p@),
            _ => r.auth is None,
        }),
        r.skip_indices@ == (match file.backup.skip_indices {
            Some(s) => s@,
            None => Seq::<String>::empty(),
        }),
        r.max_index_size_mb == file.backup.max_index_size_mb,
        r.operation == operation,
        r.connect_timeout_secs == (match file.elastic.connect_timeout_secs {
            Some(t) => t,
            None => DEFAULT_CONNECT_TIMEOUT_SECS,
        }),
        r.request_timeout_secs == (match file.elastic.timeout_secs {
            Some(t) => t,
            None => DEFAULT_REQUEST_TIMEOUT_SECS,
        }),
        r.scroll_size == (match file.backup.scroll_size {
            Some(s) => s,
            None => DEFAULT_SCROLL_SIZE,
        }),
        r.scroll_time@ == (match file.backup.scroll_time {
            Some(t) => t@,
            None => DEFAULT_SCROLL_TIME@,
        }),
        r.max_parallel_indices == (match file.backup.max_parallel_indices {
            Some(m) => m,
            None => DEFAULT_MAX_PARALLEL_INDICES,
        }),
        r.buffer_size == DEFAULT_BUFFER_SIZE,
        r.bulk_batch_size == (match file.restore.bulk_batch_size {
            Some(b) => b,
            None => DEFAULT_BULK_BATCH_SIZE,
        }),
{
    let host = match file.elastic.host {
        Some(h) => h,
        None => DEFAULT_ELASTIC_HOST.to_owned(),
    };
    let backup_dir = match file.backup.backup_dir {
        Some(d) => d,
        None => DEFAULT_BACKUP_DIR.to_owned(),
    };
    let auth = match (file.elastic.username, file.elastic.password) {
        (Some(u), Some(p)) => Some((u, p)),
        _ => None,
    };
    let skip_indices = match file.backup.skip_indices {
        Some(s) => s,
        None => Vec::new(),
    };
    let connect_timeout_secs = match file.elastic.connect_timeout_secs {
        Some(t) => t,
        None => DEFAULT_CONNECT_TIMEOUT_SECS,
    };
    let request_timeout_secs = match file.elastic.timeout_secs {
        Some(t) => t,
        None => DEFAULT_REQUEST_TIMEOUT_SECS,
    };
    let scroll_size = match file.backup.scroll_size {
        Some(s) => s,
        None => DEFAULT_SCROLL_SIZE,
    };
    let scroll_time = match file.backup.scroll_time {
        Some(t) => t,
        None => DEFAULT_SCROLL_TIME.to_owned(),
    };
    let max_parallel_indices = match file.backup.max_parallel_indices {
        Some(m) => m,
        None => DEFAULT_MAX_PARALLEL_INDICES,
    };
    let bulk_batch_size = match file.restore.bulk_batch_size {
        Some(b) => b,
        None => DEFAULT_BULK_BATCH_SIZE,
    };
    BackupConfig {
        host,
        backup_dir,
        auth,
        skip_indices,
        max_index_size_mb: file.backup.max_index_size_mb,
        operation,
        connect_timeout_secs,
        request_timeout_secs,
        scroll_size,
        scroll_time,
        max_parallel_indices,
        buffer_size: DEFAULT_BUFFER_SIZE,
        bulk_batch_size,
    }
}

} // verus!
