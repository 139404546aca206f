use banner_bundle::mime::{gwd_asset_mime, mime_parts_for};

#[test]
fn png_mime_and_parts() {
    let (m, major, minor) = mime_parts_for(&b"images/a.png".to_vec());
    assert_eq!(m, b"image/png".to_vec());
    assert_eq!(major, b"image".to_vec());
    assert_eq!(minor, b"png".to_vec());
}

#[test]
fn javascript_mime_and_parts() {
    let (m, major, minor) = mime_parts_for(&b"js/main.js".to_vec());
    assert_eq!(m, b"text/javascript".to_vec());
    assert_eq!(major, b"text".to_vec());
    assert_eq!(minor, b"javascript".to_vec());
}

#[test]
fn unknown_extension_falls_back_to_text_plain() {
    let (m, major, minor) = mime_parts_for(&b"asset.unknownext".to_vec());
    assert_eq!(m, b"text/plain".to_vec());
    assert_eq!(major, b"text".to_vec());
    assert_eq!(minor, b"plain".to_vec());
}

#[test]
fn gwd_mime_falls_back_to_octet_stream() {
    assert_eq!(gwd_asset_mime(&b"asset.unknownext".to_vec()), b"application/octet-stream".to_vec());
    assert_eq!(gwd_asset_mime(&b"images/a.png".to_vec()), b"image/png".to_vec());
}
