//! The resource materializer: raw bytes plus a MIME type become a stable
//! same-origin resource handle owned by the host page. The handle allocator
//! is a host collaborator reached through one trusted wrapper.

use vstd::prelude::*;
use vstd::string::StrSliceExecFns;

verus! {

/// Relies on web_sys::Url::create_object_url_with_blob: mints a fresh object
/// URL for a blob that holds `bytes` typed as `blob_type`. Every call
/// returns a new, non-empty handle; the host allocator is assumed not to
/// fail under the designed load.
#[verifier::external_body]
pub fn create_object_url(bytes: Vec<u8>, blob_type: &Vec<u8>) -> (r: String)
    ensures
        r@.len() > 0,
{
    let arr = js_sys::Uint8Array::from(bytes.as_slice());
    let parts = js_sys::Array::new();
    parts.push(&arr.buffer());
    let opts = web_sys::BlobPropertyBag::new();
    opts.set_type(&String::from_utf8_lossy(blob_type));
    let blob = web_sys::Blob::new_with_u8_array_sequence_and_options(&parts, &opts).unwrap();
    web_sys::Url::create_object_url_with_blob(&blob).unwrap()
}

/// Materializes bytes under a MIME type and hands the handle back as the
/// bytes that are spliced into rewritten text.
pub(crate) fn materialize_handle_bytes(bytes: Vec<u8>, blob_type: &Vec<u8>) -> (r: Vec<u8>) {
    let url = create_object_url(bytes, blob_type);
    url.as_str().as_bytes_vec()
}

} // verus!
