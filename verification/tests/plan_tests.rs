use esbackup::plan::{chunk_plan, effective_page_size, num_chunks};

#[test]
fn quirky_version_halves_page_size() {
    assert_eq!(effective_page_size(10000, &b"8.3.3".to_vec()), 5000);
    assert_eq!(effective_page_size(10000, &b"8.3".to_vec()), 5000);
    assert_eq!(effective_page_size(10000, &b"8.30.1".to_vec()), 5000);
}

#[test]
fn quirky_version_clamps_to_floor() {
    assert_eq!(effective_page_size(1500, &b"8.3.0".to_vec()), 1000);
    assert_eq!(effective_page_size(0, &b"8.3.0".to_vec()), 1000);
}

#[test]
fn other_versions_keep_configured_page_size() {
    assert_eq!(effective_page_size(10000, &b"7.10.2".to_vec()), 10000);
    assert_eq!(effective_page_size(10000, &b"8.4.1".to_vec()), 10000);
    assert_eq!(effective_page_size(1500, &b"8.2.9".to_vec()), 1500);
    assert_eq!(effective_page_size(10000, &b"8".to_vec()), 10000);
}

#[test]
fn page_plan_for_25000_documents() {
    assert_eq!(chunk_plan(25000, 10000), vec![10000, 10000, 5000]);
}

#[test]
fn page_plan_exact_multiple() {
    assert_eq!(chunk_plan(20000, 10000), vec![10000, 10000]);
}

#[test]
fn page_plan_empty_collection() {
    assert_eq!(chunk_plan(0, 10000), Vec::<u64>::new());
}

#[test]
fn page_plan_single_short_page() {
    assert_eq!(chunk_plan(7, 10000), vec![7]);
}

#[test]
fn batch_plan_for_12345_documents() {
    assert_eq!(chunk_plan(12345, 5000), vec![5000, 5000, 2345]);
}

#[test]
fn chunk_counts() {
    assert_eq!(num_chunks(0, 5000), 0);
    assert_eq!(num_chunks(1, 5000), 1);
    assert_eq!(num_chunks(5000, 5000), 1);
    assert_eq!(num_chunks(5001, 5000), 2);
    assert_eq!(num_chunks(12345, 5000), 3);
    assert_eq!(num_chunks(25000, 10000), 3);
}
