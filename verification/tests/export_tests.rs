use esbackup::codec::doc_new;
use esbackup::doc::{Doc, RawHit, reduce_document_size};
use esbackup::export::{ExportSession, ExportStart, plan_export};

fn doc(id: &[u8], source: &[u8]) -> Doc {
    doc_new(id.to_vec(), source.to_vec()).expect("source should be well formed")
}

#[test]
fn empty_collection_opens_no_cursor() {
    let start = plan_export(0, 10000, &b"7.17.0".to_vec());
    assert!(matches!(start, ExportStart::EmptyCollection));
}

#[test]
fn nonempty_collection_opens_cursor_with_effective_page_size() {
    match plan_export(25000, 10000, &b"8.3.3".to_vec()) {
        ExportStart::OpenCursor { page_size } => assert_eq!(page_size, 5000),
        ExportStart::EmptyCollection => panic!("expected a cursor"),
    }
    match plan_export(1, 10000, &b"7.17.0".to_vec()) {
        ExportStart::OpenCursor { page_size } => assert_eq!(page_size, 10000),
        ExportStart::EmptyCollection => panic!("expected a cursor"),
    }
}

#[test]
fn session_streams_pages_into_one_array() {
    let first = vec![doc(b"1", b"{\"n\":1}"), doc(b"2", b"{\"n\":2}")];
    let (mut sess, mut file) = ExportSession::open(3, b"token-a".to_vec(), first);
    assert_eq!(sess.written(), 2);
    assert!(sess.wants_more());

    let second = vec![doc(b"3", b"{\"n\":3}")];
    let chunk = sess.continue_page(b"token-b".to_vec(), second);
    file.extend_from_slice(&chunk);
    assert_eq!(sess.written(), 3);
    assert!(sess.wants_more());

    let empty_page: Vec<Doc> = Vec::new();
    let chunk = sess.continue_page(b"token-c".to_vec(), empty_page);
    file.extend_from_slice(&chunk);
    assert!(!sess.wants_more());

    let (closing, released) = sess.finish();
    file.extend_from_slice(&closing);
    assert_eq!(released, b"token-c".to_vec());
    assert_eq!(
        file,
        b"[{\"_id\":\"1\",\"_source\":{\"n\":1}},{\"_id\":\"2\",\"_source\":{\"n\":2}},{\"_id\":\"3\",\"_source\":{\"n\":3}}]"
            .to_vec()
    );
}

#[test]
fn session_with_empty_first_page_closes_at_once() {
    let (mut sess, opening) = ExportSession::open(0, b"t".to_vec(), Vec::new());
    assert!(!sess.wants_more());
    assert_eq!(sess.written(), 0);
    let (closing, released) = sess.finish();
    let mut file = opening;
    file.extend_from_slice(&closing);
    assert_eq!(file, b"[]".to_vec());
    assert_eq!(released, b"t".to_vec());
}

#[test]
fn abort_hands_back_the_current_token() {
    let page = vec![doc(b"1", b"{}")];
    let (mut sess, _opening) = ExportSession::open(5, b"t1".to_vec(), page);
    let _chunk = sess.continue_page(b"t2".to_vec(), vec![doc(b"2", b"{}")]);
    let released = sess.abort();
    assert_eq!(released, Some(b"t2".to_vec()));
}

#[test]
fn reduce_document_strips_metadata() {
    let hit = RawHit {
        id: b"7".to_vec(),
        source: b"{\"k\":true}".to_vec(),
        origin_index: Some(b"col".to_vec()),
        doc_type: Some(b"_doc".to_vec()),
        score: Some(b"1.0".to_vec()),
    };
    let d = reduce_document_size(hit);
    assert_eq!(d.id, b"7".to_vec());
    assert_eq!(d.source, b"{\"k\":true}".to_vec());
}
