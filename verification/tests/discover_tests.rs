use esbackup::discover::{apply_size_filter, filter_names, lex_le_bytes, sort_names};

fn names(v: &[&[u8]]) -> Vec<Vec<u8>> {
    v.iter().map(|n| n.to_vec()).collect()
}

#[test]
fn system_and_skip_listed_collections_never_appear() {
    let listed = names(&[b".system", b"alpha", b"skipme", b".kibana", b"beta"]);
    let skip = names(&[b"skipme"]);
    let kept = filter_names(listed, &skip);
    assert_eq!(kept, names(&[b"alpha", b"beta"]));
}

#[test]
fn skip_list_wins_regardless_of_anything_else() {
    let listed = names(&[b"keep", b"drop1", b"drop2"]);
    let skip = names(&[b"drop2", b"drop1"]);
    let kept = filter_names(listed, &skip);
    assert_eq!(kept, names(&[b"keep"]));
}

#[test]
fn oversized_collections_are_excluded() {
    let listed = names(&[b"small", b"huge", b"exact"]);
    let mb = 1024 * 1024u64;
    let sizes = vec![Some(10 * mb), Some(101 * mb), Some(100 * mb)];
    let kept = apply_size_filter(listed, &sizes, 100);
    assert_eq!(kept, names(&[b"small", b"exact"]));
}

#[test]
fn unknown_size_is_kept() {
    let listed = names(&[b"known-big", b"mystery"]);
    let sizes = vec![Some(u64::MAX), None];
    let kept = apply_size_filter(listed, &sizes, 1);
    assert_eq!(kept, names(&[b"mystery"]));
}

#[test]
fn discovered_names_sort_lexicographically() {
    let listed = names(&[b"zeta", b"alpha", b"beta", b"alp"]);
    let sorted = sort_names(listed);
    assert_eq!(sorted, names(&[b"alp", b"alpha", b"beta", b"zeta"]));
}

#[test]
fn lexicographic_comparison() {
    assert!(lex_le_bytes(&b"a".to_vec(), &b"b".to_vec()));
    assert!(lex_le_bytes(&b"a".to_vec(), &b"a".to_vec()));
    assert!(lex_le_bytes(&b"".to_vec(), &b"a".to_vec()));
    assert!(!lex_le_bytes(&b"b".to_vec(), &b"a".to_vec()));
    assert!(lex_le_bytes(&b"ab".to_vec(), &b"abc".to_vec()));
    assert!(!lex_le_bytes(&b"abc".to_vec(), &b"ab".to_vec()));
}
