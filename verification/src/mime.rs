//! MIME-type inference for asset paths. The guess itself comes from the
//! `mime_guess` crate behind trusted wrappers; splitting a MIME type into its
//! major and minor parts is verified.

use vstd::prelude::*;

use crate::text::{find_from, find_sub, push_range};

verus! {

/// The MIME type guessed from a path, `text/plain` where nothing is known;
/// a pure function of the path.
pub uninterp spec fn mime_tp_of(path: Seq<u8>) -> Seq<u8>;

/// The MIME type guessed from a path, `application/octet-stream` where
/// nothing is known; a pure function of the path.
pub uninterp spec fn mime_os_of(path: Seq<u8>) -> Seq<u8>;

/// Relies on mime_guess::from_path and MimeGuess::first_or_text_plain: the
/// MIME type guessed from the path's extension, with `text/plain` as the
/// fallback.
#[verifier::external_body]
fn guess_mime_text_plain(path: &Vec<u8>) -> (m: Vec<u8>)
    ensures
        m@ == mime_tp_of(path@),
{
    let p = String::from_utf8_lossy(path).into_owned();
    mime_guess::from_path(&p).first_or_text_plain().to_string().into_bytes()
}

/// Relies on mime_guess::from_path and MimeGuess::first_or_octet_stream: the
/// MIME type guessed from the path's extension, with
/// `application/octet-stream` as the fallback.
#[verifier::external_body]
fn guess_mime_octet_stream(path: &Vec<u8>) -> (m: Vec<u8>)
    ensures
        m@ == mime_os_of(path@),
{
    let p = String::from_utf8_lossy(path).into_owned();
    mime_guess::from_path(&p).first_or_octet_stream().to_string().into_bytes()
}

/// The major part of a MIME type: everything before the first `/`, or the
/// whole type where none occurs.
pub open spec fn mime_major(m: Seq<u8>) -> Seq<u8> {
    match find_from(m, seq![47u8], 0) {
        None => m,
        Some(i) => m.subrange(0, i),
    }
}

/// The minor part of a MIME type: everything between the first `/` and the
/// next one or the end, or empty where no `/` occurs.
pub open spec fn mime_minor(m: Seq<u8>) -> Seq<u8> {
    match find_from(m, seq![47u8], 0) {
        None => Seq::empty(),
        Some(i) => match find_from(m, seq![47u8], i + 1) {
            None => m.subrange(i + 1, m.len() as int),
            Some(j) => m.subrange(i + 1, j),
        },
    }
}

/// The MIME type inferred for an asset path, together with its major and
/// minor parts, with `text/plain` as the fallback.
pub fn mime_parts_for(path: &Vec<u8>) -> (r: (Vec<u8>, Vec<u8>, Vec<u8>))
    ensures
        r.0@ == mime_tp_of(path@),
        r.1@ == mime_major(mime_tp_of(path@)),
        r.2@ == mime_minor(mime_tp_of(path@)),
{
    let m = guess_mime_text_plain(path);
    let slash: Vec<u8> = vec![47u8];
    proof {
        assert(slash@ =~= seq![47u8]);
    }
    let mut major: Vec<u8> = Vec::new();
    let mut minor: Vec<u8> = Vec::new();
    match find_sub(&m, &slash, 0) {
        None => {
            push_range(&mut major, &m, 0, m.len());
            proof {
                assert(m@.subrange(0, m@.len() as int) =~= m@);
            }
        },
        Some(i) => {
            let mlen = m.len();
            proof {
                crate::text::lemma_find_from(m@, slash@, 0);
                assert(i + 1 <= mlen);
            }
            push_range(&mut major, &m, 0, i);
            match find_sub(&m, &slash, i + 1) {
                None => {
                    push_range(&mut minor, &m, i + 1, m.len());
                },
                Some(j) => {
                    proof {
                        crate::text::lemma_find_from(m@, slash@, i + 1);
                    }
                    push_range(&mut minor, &m, i + 1, j);
                },
            }
        },
    }
    (m, major, minor)
}

/// The MIME type sent to the materializer for a GWD asset, with
/// `application/octet-stream` as the fallback.
pub fn gwd_asset_mime(path: &Vec<u8>) -> (m: Vec<u8>)
    ensures
        m@ == mime_os_of(path@),
{
    guess_mime_octet_stream(path)
}

} // verus!
