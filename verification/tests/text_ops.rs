use banner_bundle::text::{contains_sub, ends_with, eq_vec, find_sub, replace_all};

#[test]
fn find_sub_finds_leftmost() {
    let h = b"abcabc".to_vec();
    let n = b"bc".to_vec();
    assert_eq!(find_sub(&h, &n, 0), Some(1));
    assert_eq!(find_sub(&h, &n, 2), Some(4));
    assert_eq!(find_sub(&h, &n, 5), None);
}

#[test]
fn find_sub_empty_needle_matches_everywhere() {
    let h = b"ab".to_vec();
    let n = Vec::new();
    assert_eq!(find_sub(&h, &n, 0), Some(0));
    assert_eq!(find_sub(&h, &n, 2), Some(2));
}

#[test]
fn contains_and_ends_with() {
    let h = b"banner/index.html".to_vec();
    assert!(contains_sub(&h, &b"index".to_vec()));
    assert!(!contains_sub(&h, &b"xyz".to_vec()));
    assert!(ends_with(&h, &b".html".to_vec()));
    assert!(!ends_with(&h, &b".htm".to_vec()));
}

#[test]
fn replace_all_replaces_every_occurrence() {
    let h = b"a.png x a.png".to_vec();
    let out = replace_all(&h, &b"a.png".to_vec(), &b"URL".to_vec());
    assert_eq!(out, b"URL x URL".to_vec());
}

#[test]
fn replace_all_empty_needle_is_identity() {
    let h = b"abc".to_vec();
    let out = replace_all(&h, &Vec::new(), &b"x".to_vec());
    assert_eq!(out, b"abc".to_vec());
}

#[test]
fn replace_all_without_occurrence_is_identity() {
    let h = b"abc".to_vec();
    let out = replace_all(&h, &b"zz".to_vec(), &b"x".to_vec());
    assert_eq!(out, b"abc".to_vec());
}

#[test]
fn eq_vec_compares_bytes() {
    assert!(eq_vec(&b"ab".to_vec(), &b"ab".to_vec()));
    assert!(!eq_vec(&b"ab".to_vec(), &b"ac".to_vec()));
    assert!(!eq_vec(&b"ab".to_vec(), &b"abc".to_vec()));
}
