use esbackup::codec::doc_new;
use esbackup::doc::Doc;
use esbackup::import::{
    BatchOutcome, BulkReply, ImportProgress, ItemError, assess_bulk_reply, build_bulk_body,
    chunks_of,
};

fn doc(id: &[u8], source: &[u8]) -> Doc {
    doc_new(id.to_vec(), source.to_vec()).expect("source should be well formed")
}

#[test]
fn batches_for_12345_documents() {
    let items: Vec<u64> = (0..12345).collect();
    let batches = chunks_of(items, 5000);
    assert_eq!(batches.len(), 3);
    assert_eq!(batches[0].len(), 5000);
    assert_eq!(batches[1].len(), 5000);
    assert_eq!(batches[2].len(), 2345);
    let rejoined: Vec<u64> = batches.into_iter().flatten().collect();
    assert_eq!(rejoined, (0..12345).collect::<Vec<u64>>());
}

#[test]
fn empty_input_issues_zero_batches() {
    let items: Vec<u64> = Vec::new();
    let batches = chunks_of(items, 5000);
    assert_eq!(batches.len(), 0);
}

#[test]
fn batch_boundaries_ignore_page_history() {
    let items: Vec<u64> = (0..10).collect();
    let batches = chunks_of(items, 4);
    assert_eq!(batches, vec![vec![0, 1, 2, 3], vec![4, 5, 6, 7], vec![8, 9]]);
}

#[test]
fn bulk_body_alternates_action_and_source_lines() {
    let batch = vec![doc(b"1", b"{\"k\":1}"), doc(b"2", b"{\"k\":2}")];
    let body = build_bulk_body(&b"idx".to_vec(), &batch);
    let expected = b"{ \"index\": { \"_index\": \"idx\", \"_id\": \"1\" } }\n{\"k\":1}\n{ \"index\": { \"_index\": \"idx\", \"_id\": \"2\" } }\n{\"k\":2}\n";
    assert_eq!(body, expected.to_vec());
}

#[test]
fn failed_request_aborts_the_batch() {
    let reply = BulkReply { status_ok: false, errors_flag: false, items: Vec::new() };
    assert!(matches!(assess_bulk_reply(&reply), BatchOutcome::BatchAborted));
}

#[test]
fn item_errors_do_not_abort_and_at_most_five_are_kept() {
    let mut items: Vec<Option<ItemError>> = Vec::new();
    items.push(None);
    for i in 0..7 {
        items.push(Some(ItemError {
            etype: b"mapper_parsing_exception".to_vec(),
            reason: format!("bad field {}", i).into_bytes(),
        }));
        items.push(None);
    }
    let reply = BulkReply { status_ok: true, errors_flag: true, items };
    match assess_bulk_reply(&reply) {
        BatchOutcome::BatchCompleted { warnings } => {
            assert_eq!(warnings.len(), 5);
            assert_eq!(warnings[0], b"mapper_parsing_exception: bad field 0".to_vec());
            assert_eq!(warnings[4], b"mapper_parsing_exception: bad field 4".to_vec());
        }
        BatchOutcome::BatchAborted => panic!("item errors must not abort the batch"),
    }
}

#[test]
fn clean_success_carries_no_warnings() {
    let reply = BulkReply { status_ok: true, errors_flag: false, items: Vec::new() };
    match assess_bulk_reply(&reply) {
        BatchOutcome::BatchCompleted { warnings } => assert_eq!(warnings.len(), 0),
        BatchOutcome::BatchAborted => panic!("success expected"),
    }
}

#[test]
fn progress_counts_batches() {
    let mut p = ImportProgress::new(3);
    assert!(!p.is_complete());
    p.record_batch();
    p.record_batch();
    p.record_batch();
    assert!(p.is_complete());
}
