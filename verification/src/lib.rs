//! Rewrites a packaged HTML5 banner-ad bundle (a zip archive produced by
//! Adobe Animate or Google Web Designer) so that every reference to a bundled
//! asset points to a freshly materialized in-memory resource handle, and
//! returns the handle of the rewritten root document.

pub mod adobe;
pub mod archive;
pub mod gwd;
pub mod materialize;
pub mod mime;
pub mod resolve;
pub mod text;

use vstd::prelude::*;
use vstd::string::StrSliceExecFns;

verus! {

/// The ways a bundle resolution can fail; every failure is terminal for the
/// whole invocation.
#[derive(Clone, Copy, Debug, PartialEq, Eq, Structural)]
pub enum BundleError {
    /// The archive container could not be opened.
    ArchiveCorrupt,
    /// A specific archive entry could not be decompressed.
    EntryUnreadable,
    /// Entry bytes were not valid UTF-8 where text was required.
    InvalidEncoding,
    /// The archive holds no `.html` entry.
    NoRootDocument,
    /// An entry's path could not be expressed relative to the root document's
    /// directory.
    PathResolutionError,
}


/// The literal `.html` that marks a root document candidate.
pub open spec fn html_suffix() -> Seq<u8> {
    seq![46u8, 104u8, 116u8, 109u8, 108u8]
}

/// Position in the working set of the first entry whose path ends in
/// `.html`, at or after `from`.
pub open spec fn root_doc_pos(ws: Seq<(int, Seq<u8>)>, from: int) -> Option<int>
    decreases ws.len() - from,
{
    if from < 0 || from >= ws.len() {
        None
    } else if crate::text::ends_with_seq(ws[from].1, html_suffix()) {
        Some(from)
    } else {
        root_doc_pos(ws, from + 1)
    }
}

/// `o`'s value, or the empty sequence.
pub open spec fn opt_or_empty(o: Option<Seq<u8>>) -> Seq<u8> {
    match o {
        None => Seq::empty(),
        Some(s) => s,
    }
}

/// The index/relative-path pairs that resolving the working set against
/// `base` yields.
pub open spec fn resolved_pairs(ws: Seq<(int, Seq<u8>)>, base: Seq<u8>) -> Seq<(int, Seq<u8>)> {
    Seq::new(ws.len(), |k: int| (ws[k].0, opt_or_empty(crate::resolve::rel_path_of(ws[k].1, base))))
}

fn html_suffix_vec() -> (v: Vec<u8>)
    ensures
        v@ == html_suffix(),
{
    let v: Vec<u8> = vec![46u8, 104u8, 116u8, 109u8, 108u8];
    proof {
        assert(v@ =~= html_suffix());
    }
    v
}

fn find_root(files: &Vec<crate::archive::ArchiveEntry>, from: usize) -> (r: Option<usize>)
    ensures
        match r {
            Some(h) => root_doc_pos(crate::archive::entries_view(files@), from as int) == Some(
                h as int,
            ) && h < files@.len(),
            None => root_doc_pos(crate::archive::entries_view(files@), from as int) is None,
        },
    decreases files@.len() - from,
{
    if from >= files.len() {
        return None;
    }
    let suffix = html_suffix_vec();
    if crate::text::ends_with(&files[from].path, &suffix) {
        proof {
            assert(crate::archive::entries_view(files@)[from as int].1 == files@[from as int].path@);
        }
        return Some(from);
    }
    proof {
        assert(crate::archive::entries_view(files@)[from as int].1 == files@[from as int].path@);
    }
    find_root(files, from + 1)
}

/// Resolves a banner-ad bundle: opens the archive, locates the root
/// document, resolves every working-set path against its directory, detects
/// the authoring tool, rewrites every matched asset reference to a freshly
/// materialized handle, and returns the handle of the rewritten root
/// document. Every failure is terminal and no handle is returned for it.
pub fn parse_file(buf: Vec<u8>) -> (r: Result<String, BundleError>)
    ensures
        (r == Err::<String, BundleError>(BundleError::ArchiveCorrupt) <==> crate::archive::zip_names_of(
            buf@,
        ) is None),
        crate::archive::zip_names_of(buf@) matches Some(names) ==> {
            let data = crate::archive::zip_data_of(buf@);
            let ws = crate::archive::working_set(names, 0);
            &&& (root_doc_pos(ws, 0) is None ==> r == Err::<String, BundleError>(
                BundleError::NoRootDocument,
            ))
            &&& (root_doc_pos(ws, 0) matches Some(h) ==> {
                let idx = ws[h].0;
                &&& (data[idx] is None ==> r == Err::<String, BundleError>(
                    BundleError::EntryUnreadable,
                ))
                &&& (data[idx] matches Some(rootb) ==> {
                    &&& (!vstd::utf8::valid_utf8(rootb) ==> r == Err::<String, BundleError>(
                        BundleError::InvalidEncoding,
                    ))
                    &&& (vstd::utf8::valid_utf8(rootb) ==> {
                        let base = crate::resolve::parent_of(ws[h].1);
                        &&& (!crate::resolve::all_resolvable(ws, base) ==> r == Err::<
                            String,
                            BundleError,
                        >(BundleError::PathResolutionError))
                        &&& (crate::resolve::all_resolvable(ws, base) ==> {
                            let pairs = resolved_pairs(ws, base);
                            let paths = crate::gwd::pair_paths(pairs);
                            &&& (crate::text::contains_seq(rootb, crate::gwd::gwd_marker()) ==> (r
                                is Ok <==> crate::gwd::plan_reads_ok(
                                crate::gwd::gwd_plan(rootb, paths, 0),
                                pairs,
                                data,
                            )))
                            &&& (!crate::text::contains_seq(rootb, crate::gwd::gwd_marker()) ==> (r
                                is Ok <==> crate::adobe::adobe_reads_ok(rootb, pairs, data)))
                            &&& (r is Err ==> r == Err::<String, BundleError>(
                                BundleError::EntryUnreadable,
                            ))
                        })
                    })
                })
            })
        },
        r matches Ok(u) ==> u@.len() > 0,
{
    let ghost bufv = buf@;
    let mut zip = match crate::archive::open_zip(buf) {
        Ok(z) => z,
        Err(e) => {
            return Err(e);
        },
    };
    let ghost names = crate::archive::archive_names(zip);
    let ghost data = crate::archive::archive_data(zip);
    let ghost ws = crate::archive::working_set(names, 0);
    proof {
        crate::archive::lemma_working_set_range(names, 0);
    }
    let files = crate::archive::get_files_from_zip(&zip);
    let rootpos = match find_root(&files, 0) {
        Some(h) => h,
        None => {
            return Err(BundleError::NoRootDocument);
        },
    };
    let root_index = files[rootpos].index;
    let html_text = match crate::archive::get_text_from_zipfile(&mut zip, root_index) {
        Ok(s) => s,
        Err(e) => {
            return Err(e);
        },
    };
    let root_dir = crate::resolve::parent_dir(&files[rootpos].path);
    let resolved = match crate::resolve::resolve_zip_files(&files, &root_dir) {
        Ok(v) => v,
        Err(e) => {
            return Err(e);
        },
    };
    proof {
        assert(crate::resolve::resolved_view(resolved@) =~= resolved_pairs(ws, root_dir@));
        assert(crate::gwd::rel_paths(resolved@) =~= crate::gwd::pair_paths(
            crate::resolve::resolved_view(resolved@),
        ));
    }
    let doc = html_text.as_str().as_bytes_vec();
    let marker = crate::gwd::gwd_marker_vec();
    if crate::text::contains_sub(&doc, &marker) {
        crate::gwd::parse_gwd(&doc, &mut zip, &resolved)
    } else {
        crate::adobe::parse_adobe_an(&doc, &mut zip, &resolved)
    }
}

} // verus!
