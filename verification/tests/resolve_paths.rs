use banner_bundle::BundleError;
use banner_bundle::archive::ArchiveEntry;
use banner_bundle::resolve::{parent_dir, resolve_zip_files};

fn entry(index: usize, path: &str) -> ArchiveEntry {
    ArchiveEntry { index, path: path.as_bytes().to_vec() }
}

#[test]
fn parent_dir_strips_last_component() {
    assert_eq!(parent_dir(&b"banner/index.html".to_vec()), b"banner".to_vec());
    assert_eq!(parent_dir(&b"index.html".to_vec()), b"".to_vec());
    assert_eq!(parent_dir(&b"a/b/c.png".to_vec()), b"a/b".to_vec());
}

#[test]
fn resolve_relative_to_root_directory() {
    let files = vec![entry(0, "banner/index.html"), entry(1, "banner/images/a.png")];
    let base = parent_dir(&b"banner/index.html".to_vec());
    let resolved = resolve_zip_files(&files, &base).unwrap();
    assert_eq!(resolved.len(), 2);
    assert_eq!(resolved[0].index, 0);
    assert_eq!(resolved[0].path, b"index.html".to_vec());
    assert_eq!(resolved[1].index, 1);
    assert_eq!(resolved[1].path, b"images/a.png".to_vec());
}

#[test]
fn resolve_allows_parent_traversal() {
    let files = vec![entry(0, "banner/index.html"), entry(1, "shared/logo.png")];
    let base = b"banner".to_vec();
    let resolved = resolve_zip_files(&files, &base).unwrap();
    assert_eq!(resolved[1].path, b"../shared/logo.png".to_vec());
}

#[test]
fn resolve_fails_across_logical_roots() {
    // A relative entry path cannot be expressed against an absolute base.
    let files = vec![entry(0, "x.png")];
    let base = b"/banner".to_vec();
    assert!(matches!(
        resolve_zip_files(&files, &base),
        Err(BundleError::PathResolutionError)
    ));
}
