use esbackup::codec::{check_source, doc_new, parse_array, render_doc_into};
use esbackup::doc::Doc;

fn doc(id: &[u8], source: &[u8]) -> Doc {
    doc_new(id.to_vec(), source.to_vec()).expect("source should be well formed")
}

#[test]
fn render_one_document() {
    let mut out: Vec<u8> = Vec::new();
    let d = doc(b"a", b"{\"k\":1}");
    render_doc_into(&mut out, &d);
    assert_eq!(out, b"{\"_id\":\"a\",\"_source\":{\"k\":1}}".to_vec());
}

#[test]
fn render_escapes_identifier() {
    let mut out: Vec<u8> = Vec::new();
    let d = doc(b"a\"b\\c\n", b"{}");
    render_doc_into(&mut out, &d);
    assert_eq!(
        out,
        b"{\"_id\":\"a\\\"b\\\\c\\u000a\",\"_source\":{}}".to_vec()
    );
}

#[test]
fn parse_rejects_malformed_input() {
    assert!(parse_array(&b"".to_vec()).is_none());
    assert!(parse_array(&b"[".to_vec()).is_none());
    assert!(parse_array(&b"{}".to_vec()).is_none());
    assert!(parse_array(&b"[]x".to_vec()).is_none());
    assert!(parse_array(&b"[{\"_id\":\"a\",\"_source\":{}}".to_vec()).is_none());
    assert!(parse_array(&b"[{\"_id\":\"a\",\"_source\":{}},]".to_vec()).is_none());
    assert!(parse_array(&b"[{\"_id\":\"a\"}]".to_vec()).is_none());
}

#[test]
fn parse_empty_array() {
    let docs = parse_array(&b"[]".to_vec()).expect("empty array parses");
    assert_eq!(docs.len(), 0);
}

#[test]
fn parse_two_documents() {
    let text = b"[{\"_id\":\"1\",\"_source\":{\"a\":[1,2]}},{\"_id\":\"2\",\"_source\":{\"b\":\"}\"}}]";
    let docs = parse_array(&text.to_vec()).expect("array parses");
    assert_eq!(docs.len(), 2);
    assert_eq!(docs[0].id, b"1".to_vec());
    assert_eq!(docs[0].source, b"{\"a\":[1,2]}".to_vec());
    assert_eq!(docs[1].id, b"2".to_vec());
    assert_eq!(docs[1].source, b"{\"b\":\"}\"}".to_vec());
}

#[test]
fn round_trip_render_then_parse() {
    let originals = vec![
        doc(b"alpha", b"{\"n\":1}"),
        doc(b"be\"ta\\", b"{\"nested\":{\"deep\":[{\"x\":\"]}\"}]}}"),
        doc(b"", b"{}"),
    ];
    let mut file: Vec<u8> = Vec::new();
    file.push(b'[');
    for (i, d) in originals.iter().enumerate() {
        if i > 0 {
            file.push(b',');
        }
        render_doc_into(&mut file, d);
    }
    file.push(b']');
    let parsed = parse_array(&file).expect("own render parses");
    assert_eq!(parsed.len(), originals.len());
    for (p, o) in parsed.iter().zip(originals.iter()) {
        assert_eq!(p.id, o.id);
        assert_eq!(p.source, o.source);
    }
}

#[test]
fn source_validity() {
    assert!(check_source(&b"{}".to_vec()));
    assert!(check_source(&b"{\"a\":\"}{\"}".to_vec()));
    assert!(check_source(&b"{\"a\":{\"b\":[1,2,{}]}}".to_vec()));
    assert!(!check_source(&b"{".to_vec()));
    assert!(!check_source(&b"".to_vec()));
    assert!(!check_source(&b"[1]".to_vec()));
    assert!(!check_source(&b"{}x".to_vec()));
    assert!(!check_source(&b"{\"a\":\"unterminated}".to_vec()));
}

#[test]
fn doc_new_refuses_bad_source() {
    assert!(doc_new(b"a".to_vec(), b"not json".to_vec()).is_none());
    assert!(doc_new(b"a".to_vec(), b"{}{}".to_vec()).is_none());
}
