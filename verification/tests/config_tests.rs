use esbackup::auth::basic_auth_value;
use esbackup::config::{
    BackupConfigFile, ConfigFile, ElasticConfig, Operation, RestoreConfigFile, resolve_config,
};
use esbackup::orchestrate::{RunProgress, TaskOutcome, summarize};

fn empty_file() -> ConfigFile {
    ConfigFile {
        elastic: ElasticConfig {
            host: None,
            username: None,
            password: None,
            timeout_secs: None,
            connect_timeout_secs: None,
        },
        backup: BackupConfigFile {
            backup_dir: None,
            scroll_size: None,
            scroll_time: None,
            max_parallel_indices: None,
            skip_indices: None,
            max_index_size_mb: None,
        },
        restore: RestoreConfigFile { bulk_batch_size: None },
    }
}

#[test]
fn defaults_fill_every_absent_field() {
    let c = resolve_config(empty_file(), Operation::Backup { index: None });
    assert_eq!(c.host, "http://es.example.com:9200");
    assert_eq!(c.backup_dir, "./backups");
    assert!(c.auth.is_none());
    assert!(c.skip_indices.is_empty());
    assert!(c.max_index_size_mb.is_none());
    assert_eq!(c.connect_timeout_secs, 60);
    assert_eq!(c.request_timeout_secs, 180);
    assert_eq!(c.scroll_size, 10000);
    assert_eq!(c.scroll_time, "10m");
    assert_eq!(c.max_parallel_indices, 4);
    assert_eq!(c.buffer_size, 1024 * 1024);
    assert_eq!(c.bulk_batch_size, 5000);
}

#[test]
fn configured_fields_are_taken_as_given() {
    let mut f = empty_file();
    f.elastic.host = Some("http://localhost:9200".to_string());
    f.backup.scroll_size = Some(2500);
    f.backup.skip_indices = Some(vec!["noisy".to_string()]);
    f.restore.bulk_batch_size = Some(100);
    let c = resolve_config(f, Operation::Restore { index: Some("one".to_string()) });
    assert_eq!(c.host, "http://localhost:9200");
    assert_eq!(c.scroll_size, 2500);
    assert_eq!(c.skip_indices, vec!["noisy".to_string()]);
    assert_eq!(c.bulk_batch_size, 100);
    assert!(matches!(c.operation, Operation::Restore { .. }));
}

#[test]
fn credentials_pair_only_when_both_are_present() {
    let mut f = empty_file();
    f.elastic.username = Some("es_user".to_string());
    let c = resolve_config(f, Operation::Backup { index: None });
    assert!(c.auth.is_none());

    let mut f = empty_file();
    f.elastic.username = Some("es_user".to_string());
    f.elastic.password = Some("securepass123".to_string());
    let c = resolve_config(f, Operation::Backup { index: None });
    let (u, p) = c.auth.expect("both parts present");
    assert_eq!(u, "es_user");
    assert_eq!(p, "securepass123");
}

#[test]
fn basic_auth_header_value_encodes_credentials() {
    let v = basic_auth_value(&b"user".to_vec(), &b"pass".to_vec());
    assert_eq!(v, b"Basic dXNlcjpwYXNz".to_vec());
}

#[test]
fn run_progress_counts_to_total() {
    let mut p = RunProgress::new(2);
    assert!(!p.all_finished());
    p.record_finished();
    p.record_finished();
    assert!(p.all_finished());
}

#[test]
fn summary_counts_completed_and_abandoned() {
    let outcomes = vec![
        TaskOutcome::Completed,
        TaskOutcome::Abandoned,
        TaskOutcome::Completed,
        TaskOutcome::Completed,
    ];
    let (completed, abandoned) = summarize(&outcomes);
    assert_eq!(completed, 3);
    assert_eq!(abandoned, 1);
}
