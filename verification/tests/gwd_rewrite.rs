use banner_bundle::gwd::{gwd_apply, gwd_marker_vec, gwd_plan_exec};
use banner_bundle::resolve::ResolvedEntry;

fn entry(index: usize, path: &str) -> ResolvedEntry {
    ResolvedEntry { index, path: path.as_bytes().to_vec() }
}

#[test]
fn matched_source_is_replaced_and_rest_of_tag_kept() {
    let doc = b"<p><gwd-image id=\"i\" source=\"images/a.png\"></gwd-image></p>".to_vec();
    let files = vec![entry(0, "index.html"), entry(1, "images/a.png")];
    let plan = gwd_plan_exec(&doc, &files);
    assert_eq!(plan, vec![1]);
    let handles = vec![b"blob:H1".to_vec()];
    let out = gwd_apply(&doc, &files, &handles);
    assert_eq!(out, b"<p><gwd-image id=\"i\" source=\"blob:H1\"></gwd-image></p>".to_vec());
}

#[test]
fn source_must_equal_a_resolved_path_exactly() {
    let doc = b"<gwd-image source=\"a.png\">".to_vec();
    // "a.png" is a substring of the resolved path but not equal to it.
    let files = vec![entry(1, "images/a.png")];
    let plan = gwd_plan_exec(&doc, &files);
    assert_eq!(plan, Vec::<usize>::new());
    let out = gwd_apply(&doc, &files, &Vec::new());
    assert_eq!(out, doc);
}

#[test]
fn occurrences_consume_handles_in_order() {
    let doc =
        b"<gwd-image source=\"a.png\"></gwd-image><gwd-image source=\"b.png\"></gwd-image>"
            .to_vec();
    let files = vec![entry(3, "a.png"), entry(7, "b.png")];
    let plan = gwd_plan_exec(&doc, &files);
    assert_eq!(plan, vec![0, 1]);
    let handles = vec![b"U1".to_vec(), b"U2".to_vec()];
    let out = gwd_apply(&doc, &files, &handles);
    assert_eq!(
        out,
        b"<gwd-image source=\"U1\"></gwd-image><gwd-image source=\"U2\"></gwd-image>".to_vec()
    );
}

#[test]
fn document_without_matches_is_identity() {
    let doc = b"<html><body><gwd-image source=\"missing.png\"></body></html>".to_vec();
    let files = vec![entry(0, "index.html")];
    assert_eq!(gwd_plan_exec(&doc, &files), Vec::<usize>::new());
    assert_eq!(gwd_apply(&doc, &files, &Vec::new()), doc);
}

#[test]
fn marker_bytes_spell_the_custom_element() {
    assert_eq!(gwd_marker_vec(), b"gwd-image".to_vec());
}
