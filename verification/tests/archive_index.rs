use std::io::{Cursor, Write};

use banner_bundle::BundleError;
use banner_bundle::archive::{get_binary_from_zipfile, get_files_from_zip, get_text_from_zipfile};
use banner_bundle::parse_file;
use zip::ZipArchive;
use zip::ZipWriter;
use zip::write::SimpleFileOptions;

fn build_zip(entries: &[(&str, &[u8])]) -> Vec<u8> {
    let mut w = ZipWriter::new(Cursor::new(Vec::new()));
    let opts = SimpleFileOptions::default();
    for (name, bytes) in entries {
        if name.ends_with('/') {
            w.add_directory(name.trim_end_matches('/'), opts).unwrap();
        } else {
            w.start_file(*name, opts).unwrap();
            w.write_all(bytes).unwrap();
        }
    }
    w.finish().unwrap().into_inner()
}

fn open(buf: Vec<u8>) -> ZipArchive<Cursor<Vec<u8>>> {
    ZipArchive::new(Cursor::new(buf)).unwrap()
}

#[test]
fn working_set_skips_directories_and_shadow_files() {
    let buf = build_zip(&[
        ("banner/index.html", b"<html></html>"),
        ("banner/images/", b""),
        ("banner/images/a.png", b"PNG"),
        ("banner/._thumb.png", b"shadow"),
        ("banner/images/._a.png", b"shadow"),
    ]);
    let zip = open(buf);
    let files = get_files_from_zip(&zip);
    let names: Vec<String> = files
        .iter()
        .map(|e| String::from_utf8(e.path.clone()).unwrap())
        .collect();
    assert_eq!(names, vec!["banner/index.html".to_string(), "banner/images/a.png".to_string()]);
    for e in &files {
        let name = String::from_utf8(e.path.clone()).unwrap();
        assert!(!name.ends_with('/'));
        let file_name = name.rsplit('/').next().unwrap();
        assert!(!file_name.contains("._"));
    }
}

#[test]
fn entry_reads_by_index() {
    let buf = build_zip(&[("a.txt", b"hello"), ("b.bin", &[0u8, 159, 146, 150])]);
    let mut zip = open(buf);
    let files = get_files_from_zip(&zip);
    assert_eq!(files.len(), 2);
    let text = get_text_from_zipfile(&mut zip, files[0].index).unwrap();
    assert_eq!(text, "hello");
    let bin = get_binary_from_zipfile(&mut zip, files[1].index).unwrap();
    assert_eq!(bin, vec![0u8, 159, 146, 150]);
}

#[test]
fn text_read_of_invalid_utf8_fails() {
    let buf = build_zip(&[("a.bin", &[0xffu8, 0xfe, 0x00])]);
    let mut zip = open(buf);
    let files = get_files_from_zip(&zip);
    let r = get_text_from_zipfile(&mut zip, files[0].index);
    assert_eq!(r, Err(BundleError::InvalidEncoding));
}

#[test]
fn parse_file_without_root_document_fails() {
    let buf = build_zip(&[("banner/a.png", b"PNG"), ("banner/b.js", b"var x = 1;")]);
    assert_eq!(parse_file(buf), Err(BundleError::NoRootDocument));
}

#[test]
fn parse_file_selects_the_first_html_entry() {
    // The first .html entry is the root document: its bytes are not valid
    // UTF-8, so the pipeline fails on encoding even though a later .html
    // entry is clean.
    let buf = build_zip(&[
        ("banner/a.html", &[0xffu8, 0xfe]),
        ("banner/b.html", b"<html></html>"),
    ]);
    assert_eq!(parse_file(buf), Err(BundleError::InvalidEncoding));
}

#[test]
fn parse_file_on_empty_archive_finds_no_root() {
    let buf = build_zip(&[]);
    assert_eq!(parse_file(buf), Err(BundleError::NoRootDocument));
}

#[test]
fn parse_file_on_garbage_fails_as_corrupt() {
    let buf = vec![1u8, 2, 3, 4, 5, 6, 7, 8];
    assert_eq!(parse_file(buf), Err(BundleError::ArchiveCorrupt));
}

#[test]
fn parse_file_with_invalid_utf8_root_fails() {
    let buf = build_zip(&[("banner/index.html", &[0xffu8, 0xfe, 0x00])]);
    assert_eq!(parse_file(buf), Err(BundleError::InvalidEncoding));
}
