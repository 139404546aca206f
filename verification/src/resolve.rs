//! The path resolver: every working-set path expressed relative to the root
//! document's containing directory. The path difference itself is computed by
//! the `pathdiff` crate behind a trusted wrapper; the surrounding logic is
//! verified.

use vstd::prelude::*;

use crate::BundleError;
use crate::archive::{ArchiveEntry, entries_view, find_last_sep, last_sep};
use crate::text::push_range;

verus! {

/// An entry of the resolved working set: the archive's native index and the
/// entry's path expressed relative to the root document's directory.
pub struct ResolvedEntry {
    pub index: usize,
    pub path: Vec<u8>,
}

/// The view of a resolved entry list as index/path pairs.
pub open spec fn resolved_view(s: Seq<ResolvedEntry>) -> Seq<(int, Seq<u8>)> {
    s.map_values(|e: ResolvedEntry| (e.index as int, e.path@))
}

/// The path of `path` expressed relative to `base`, as the path-difference
/// computation gives it; `None` when it cannot be expressed.
pub uninterp spec fn rel_path_of(path: Seq<u8>, base: Seq<u8>) -> Option<Seq<u8>>;

/// Relies on pathdiff::diff_paths: the relative path from `base` to `path`,
/// a pure function of the two paths; `None` when `path` cannot be expressed
/// relative to `base`.
#[verifier::external_body]
fn diff_path(path: &Vec<u8>, base: &Vec<u8>) -> (r: Option<Vec<u8>>)
    ensures
        r matches Some(v) ==> rel_path_of(path@, base@) == Some(v@),
        r is Some <==> rel_path_of(path@, base@) is Some,
{
    let p = String::from_utf8_lossy(path).into_owned();
    let b = String::from_utf8_lossy(base).into_owned();
    pathdiff::diff_paths(std::path::Path::new(&p), std::path::Path::new(&b)).and_then(
        |d| d.to_str().map(|s| s.as_bytes().to_vec()),
    )
}

/// The directory that contains `p`: everything before the last separator.
pub open spec fn parent_of(p: Seq<u8>) -> Seq<u8> {
    match last_sep(p) {
        None => Seq::empty(),
        Some(i) => p.subrange(0, i),
    }
}

/// The directory that contains `p`, as a fresh vector.
pub fn parent_dir(p: &Vec<u8>) -> (r: Vec<u8>)
    ensures
        r@ == parent_of(p@),
{
    let mut out: Vec<u8> = Vec::new();
    match find_last_sep(p) {
        None => {
            proof {
                assert(out@ =~= parent_of(p@));
            }
        },
        Some(i) => {
            push_range(&mut out, p, 0, i);
        },
    }
    out
}

/// True when every path of the working set can be expressed relative to
/// `base`.
pub open spec fn all_resolvable(ws: Seq<(int, Seq<u8>)>, base: Seq<u8>) -> bool {
    forall|k: int| 0 <= k < ws.len() ==> rel_path_of(ws[k].1, base) is Some
}

/// Recomputes every entry's path relative to the root document's directory;
/// fails when any entry cannot be expressed there.
pub fn resolve_zip_files(files: &Vec<ArchiveEntry>, root_dir: &Vec<u8>) -> (r: Result<
    Vec<ResolvedEntry>,
    BundleError,
>)
    ensures
        r is Ok <==> all_resolvable(entries_view(files@), root_dir@),
        r matches Ok(v) ==> v@.len() == files@.len() && forall|k: int|
            0 <= k < files@.len() ==> resolved_view(v@)[k].0 == files@[k].index
                && rel_path_of(files@[k].path@, root_dir@) == Some(resolved_view(v@)[k].1),
        r matches Err(e) ==> e == BundleError::PathResolutionError,
{
    let mut out: Vec<ResolvedEntry> = Vec::new();
    let mut i: usize = 0;
    while i < files.len()
        invariant
            i <= files@.len(),
            out@.len() == i,
            forall|k: int|
                0 <= k < i ==> resolved_view(out@)[k].0 == files@[k].index && rel_path_of(
                    files@[k].path@,
                    root_dir@,
                ) == Some(resolved_view(out@)[k].1),
        decreases files@.len() - i,
    {
        match diff_path(&files[i].path, root_dir) {
            Some(p) => {
                out.push(ResolvedEntry { index: files[i].index, path: p });
            },
            None => {
                proof {
                    assert(entries_view(files@)[i as int].1 == files@[i as int].path@);
                }
                return Err(BundleError::PathResolutionError);
            },
        }
        i += 1;
    }
    proof {
        assert forall|k: int| 0 <= k < entries_view(files@).len() implies rel_path_of(
            entries_view(files@)[k].1,
            root_dir@,
        ) is Some by {
            assert(entries_view(files@)[k].1 == files@[k].path@);
        }
    }
    Ok(out)
}

} // verus!
