use banner_bundle::adobe::{
    adobe_apply, adobe_plan_exec, build_canonical, content_apply, content_plan_exec,
};
use banner_bundle::resolve::ResolvedEntry;

fn entry(index: usize, path: &str) -> ResolvedEntry {
    ResolvedEntry { index, path: path.as_bytes().to_vec() }
}

#[test]
fn attribute_with_matching_entry_is_replaced() {
    let doc = b"<script src=\"js/main.js\"></script>".to_vec();
    let files = vec![entry(0, "index.html"), entry(2, "js/main.js")];
    let plan = adobe_plan_exec(&doc, &files);
    assert_eq!(plan, vec![1]);
    let out = adobe_apply(&doc, &files, &vec![b"blob:CH".to_vec()]);
    assert_eq!(out, b"<script src=\"blob:CH\"></script>".to_vec());
}

#[test]
fn attribute_without_matching_entry_is_kept() {
    let doc = b"<img src=\"http://elsewhere/x.png\">".to_vec();
    let files = vec![entry(0, "index.html")];
    assert_eq!(adobe_plan_exec(&doc, &files), Vec::<usize>::new());
    assert_eq!(adobe_apply(&doc, &files, &Vec::new()), doc);
}

#[test]
fn manifest_literal_with_known_asset_becomes_canonical() {
    let content = b"var p = { manifest: [ {src:\"images/logo.png?1599\", id:\"logo\"}, {src:\"missing.png\", id:\"m\"} ] };"
        .to_vec();
    let files = vec![entry(0, "index.html"), entry(1, "images/logo.png"), entry(2, "js/main.js")];
    let plan = content_plan_exec(&content, &files);
    assert_eq!(plan, vec![1]);
    let out = content_apply(&content, &files, &vec![b"blob:A1".to_vec()]);
    let expected = b"var p = { manifest: [ {src: \"blob:A1\", id: \"logo\", type: \"image\", ext: \"png\" }, {src:\"missing.png\", id:\"m\"} ] };"
        .to_vec();
    assert_eq!(String::from_utf8(out).unwrap(), String::from_utf8(expected).unwrap());
}

#[test]
fn manifest_literal_with_id_before_src_is_still_found() {
    let content = b"x = { manifest: [ {id:\"logo\", src:\"images/logo.png\"} ] };".to_vec();
    let files = vec![entry(1, "images/logo.png")];
    let plan = content_plan_exec(&content, &files);
    assert_eq!(plan, vec![0]);
    let out = content_apply(&content, &files, &vec![b"U".to_vec()]);
    let expected =
        b"x = { manifest: [ {src: \"U\", id: \"logo\", type: \"image\", ext: \"png\" } ] };"
            .to_vec();
    assert_eq!(String::from_utf8(out).unwrap(), String::from_utf8(expected).unwrap());
}

#[test]
fn content_without_manifest_is_identity() {
    // A bare image reference sits outside any manifest block, so the manifest
    // logic leaves the referenced content untouched; only the attribute value
    // in the root document changes.
    let png: Vec<u8> = vec![0x89, 0x50, 0x4e, 0x47, 0x0d, 0x0a, 0x1a, 0x0a, 0x00];
    let files = vec![entry(0, "index.html"), entry(1, "assets/logo.png")];
    assert_eq!(content_plan_exec(&png, &files), Vec::<usize>::new());
    assert_eq!(content_apply(&png, &files, &Vec::new()), png);

    let doc = b"<html><img src=\"assets/logo.png\"></html>".to_vec();
    let plan = adobe_plan_exec(&doc, &files);
    assert_eq!(plan, vec![1]);
    let out = adobe_apply(&doc, &files, &vec![b"blob:IMG".to_vec()]);
    assert_eq!(out, b"<html><img src=\"blob:IMG\"></html>".to_vec());
}

#[test]
fn nested_brackets_inside_manifest_are_tracked() {
    let content =
        b"p = { manifest: [ {src:\"a.png\", id:\"a\", sizes:[1,[2]]} ], other: 1 };".to_vec();
    let files = vec![entry(4, "a.png")];
    let plan = content_plan_exec(&content, &files);
    assert_eq!(plan, vec![0]);
}

#[test]
fn canonical_literal_shape() {
    let lit = build_canonical(
        &b"blob:U".to_vec(),
        &b"logo".to_vec(),
        &b"image".to_vec(),
        &b"png".to_vec(),
    );
    assert_eq!(lit, b"{src: \"blob:U\", id: \"logo\", type: \"image\", ext: \"png\" }".to_vec());
}
