//! The archive index: listing, filtering and reading the entries of an
//! in-memory zip archive. The zip container itself is read through trusted
//! wrappers over the `zip` crate; the working-set filtering is verified.

use vstd::prelude::*;
use vstd::utf8::{encode_utf8, valid_utf8};

use crate::BundleError;
use crate::text::{ends_with, ends_with_seq, find_from, find_sub};

use std::io::Cursor;

verus! {

#[verifier::external_type_specification]
#[verifier::external_body]
#[verifier::reject_recursive_types(R)]
pub struct ExZipArchive<R>(zip::ZipArchive<R>);

#[verifier::external_type_specification]
#[verifier::external_body]
#[verifier::reject_recursive_types(T)]
pub struct ExCursor<T>(Cursor<T>);

/// The entry names an archive value holds, in index order, as stored in the
/// container.
pub uninterp spec fn archive_names(z: zip::ZipArchive<Cursor<Vec<u8>>>) -> Seq<Seq<u8>>;

/// The decompressed bytes of each entry of an archive value, `None` at the
/// indices whose entry cannot be decompressed.
pub uninterp spec fn archive_data(z: zip::ZipArchive<Cursor<Vec<u8>>>) -> Seq<Option<Seq<u8>>>;

/// The entry names of the archive that `buf` parses to, `None` when the
/// container cannot be opened.
pub uninterp spec fn zip_names_of(buf: Seq<u8>) -> Option<Seq<Seq<u8>>>;

/// The decompressed entry bytes of the archive that `buf` parses to.
pub uninterp spec fn zip_data_of(buf: Seq<u8>) -> Seq<Option<Seq<u8>>>;

/// Relies on zip::ZipArchive::new: reads the central directory of an
/// in-memory archive, failing exactly when the container is not a readable
/// zip archive; the outcome depends on the bytes alone.
#[verifier::external_body]
pub(crate) fn open_zip(buf: Vec<u8>) -> (r: Result<zip::ZipArchive<Cursor<Vec<u8>>>, BundleError>)
    ensures
        r is Ok <==> zip_names_of(buf@) is Some,
        r matches Ok(z) ==> zip_names_of(buf@) == Some(archive_names(z)) && archive_data(z)
            == zip_data_of(buf@) && archive_data(z).len() == archive_names(z).len(),
        r matches Err(e) ==> e == BundleError::ArchiveCorrupt,
{
    match zip::ZipArchive::new(Cursor::new(buf)) {
        Ok(z) => Ok(z),
        Err(_) => Err(BundleError::ArchiveCorrupt),
    }
}

/// Relies on zip::ZipArchive::len: the number of entries in the archive.
#[verifier::external_body]
pub(crate) fn entry_count(z: &zip::ZipArchive<Cursor<Vec<u8>>>) -> (n: usize)
    ensures
        n == archive_names(*z).len(),
{
    z.len()
}

/// Relies on zip::ZipArchive::name_for_index: the stored name of the entry
/// at the index, `None` only for an index out of range.
#[verifier::external_body]
pub(crate) fn entry_name(z: &zip::ZipArchive<Cursor<Vec<u8>>>, i: usize) -> (r: Option<Vec<u8>>)
    ensures
        match r {
            Some(n) => i < archive_names(*z).len() && n@ == archive_names(*z)[i as int],
            None => i >= archive_names(*z).len(),
        },
{
    z.name_for_index(i).map(|n| n.as_bytes().to_vec())
}

/// Relies on zip::ZipArchive::by_index and std::io::Read::read_to_end: the
/// decompressed bytes of the entry at the index; failure exactly when the
/// entry cannot be decompressed, which depends on the archive value alone.
#[verifier::external_body]
pub fn get_binary_from_zipfile(
    zip: &mut zip::ZipArchive<Cursor<Vec<u8>>>,
    index: usize,
) -> (r: Result<Vec<u8>, BundleError>)
    ensures
        archive_names(*final(zip)) == archive_names(*old(zip)),
        archive_data(*final(zip)) == archive_data(*old(zip)),
        index < archive_data(*old(zip)).len() ==> ((r is Ok <==> archive_data(*old(zip))[index as int] is Some)
            && (r matches Ok(b) ==> archive_data(*old(zip))[index as int] == Some(b@))),
        index >= archive_data(*old(zip)).len() ==> r is Err,
        r matches Err(e) ==> e == BundleError::EntryUnreadable,
{
    match zip.by_index(index) {
        Ok(mut f) => {
            let mut buf = Vec::new();
            match std::io::Read::read_to_end(&mut f, &mut buf) {
                Ok(_) => Ok(buf),
                Err(_) => Err(BundleError::EntryUnreadable),
            }
        },
        Err(_) => Err(BundleError::EntryUnreadable),
    }
}

/// Relies on String::from_utf8: succeeds exactly on valid UTF-8 and returns
/// the string whose byte encoding is the input.
#[verifier::external_body]
pub(crate) fn utf8_to_string(b: Vec<u8>) -> (r: Result<String, BundleError>)
    ensures
        r is Ok <==> valid_utf8(b@),
        r matches Ok(s) ==> encode_utf8(s@) == b@,
        r matches Err(e) ==> e == BundleError::InvalidEncoding,
{
    match String::from_utf8(b) {
        Ok(s) => Ok(s),
        Err(_) => Err(BundleError::InvalidEncoding),
    }
}

/// Reads the entry at the index as UTF-8 text.
pub fn get_text_from_zipfile(
    zip: &mut zip::ZipArchive<Cursor<Vec<u8>>>,
    index: usize,
) -> (r: Result<String, BundleError>)
    ensures
        archive_names(*final(zip)) == archive_names(*old(zip)),
        archive_data(*final(zip)) == archive_data(*old(zip)),
        index < archive_data(*old(zip)).len() ==> match r {
            Ok(s) => archive_data(*old(zip))[index as int] matches Some(b) && valid_utf8(b)
                && encode_utf8(s@) == b,
            Err(e) => (e == BundleError::EntryUnreadable && archive_data(*old(zip))[index as int] is None)
                || (e == BundleError::InvalidEncoding && (archive_data(*old(zip))[index as int] matches Some(b)
                    && !valid_utf8(b))),
        },
        index >= archive_data(*old(zip)).len() ==> (r matches Err(e) && e
            == BundleError::EntryUnreadable),
{
    let bytes = get_binary_from_zipfile(zip, index)?;
    utf8_to_string(bytes)
}

/// An addressable entry of the working set: the archive's native index and
/// the full path stored for the entry.
pub struct ArchiveEntry {
    pub index: usize,
    pub path: Vec<u8>,
}

/// The view of an entry list as index/path pairs.
pub open spec fn entries_view(s: Seq<ArchiveEntry>) -> Seq<(int, Seq<u8>)> {
    s.map_values(|e: ArchiveEntry| (e.index as int, e.path@))
}

/// Position of the last path separator in `p`.
pub open spec fn last_sep(p: Seq<u8>) -> Option<int>
    decreases p.len(),
{
    if p.len() == 0 {
        None
    } else if p[p.len() - 1] == 47u8 {
        Some(p.len() - 1)
    } else {
        last_sep(p.drop_last())
    }
}

/// Where the file-name component of `p` begins.
pub open spec fn name_start(p: Seq<u8>) -> int {
    match last_sep(p) {
        None => 0,
        Some(i) => i + 1,
    }
}

/// True for the paths that belong to the working set: not a directory entry,
/// and the file-name component carries no macOS resource-fork marker.
pub open spec fn keep_entry(p: Seq<u8>) -> bool {
    &&& !ends_with_seq(p, seq![47u8])
    &&& find_from(p, seq![46u8, 95u8], name_start(p)) is None
}

/// The working set of an archive's name list: the kept entries, in archive
/// order, paired with their indices.
pub open spec fn working_set(names: Seq<Seq<u8>>, from: int) -> Seq<(int, Seq<u8>)>
    decreases names.len() - from,
{
    if from < 0 || from >= names.len() {
        Seq::empty()
    } else if keep_entry(names[from]) {
        seq![(from, names[from])] + working_set(names, from + 1)
    } else {
        working_set(names, from + 1)
    }
}

pub(crate) fn find_last_sep(p: &Vec<u8>) -> (r: Option<usize>)
    ensures
        match r {
            Some(i) => last_sep(p@) == Some(i as int) && i < p@.len(),
            None => last_sep(p@) is None,
        },
{
    let mut i: usize = p.len();
    proof {
        assert(p@.subrange(0, p@.len() as int) =~= p@);
    }
    while i > 0
        invariant
            i <= p@.len(),
            last_sep(p@) == last_sep(p@.subrange(0, i as int)),
        decreases i,
    {
        if p[i - 1] == 47u8 {
            proof {
                assert(p@.subrange(0, i as int)[i - 1] == p@[i - 1]);
            }
            return Some(i - 1);
        }
        proof {
            assert(p@.subrange(0, i as int).drop_last() =~= p@.subrange(0, i - 1));
        }
        i -= 1;
    }
    proof {
        assert(p@.subrange(0, 0) =~= Seq::<u8>::empty());
    }
    None
}

/// True for the paths that belong to the working set.
pub fn keep_entry_exec(p: &Vec<u8>) -> (r: bool)
    ensures
        r == keep_entry(p@),
{
    let sep: Vec<u8> = vec![47u8];
    if ends_with(p, &sep) {
        proof {
            assert(sep@ =~= seq![47u8]);
        }
        return false;
    }
    let plen = p.len();
    let start: usize = match find_last_sep(p) {
        None => 0,
        Some(i) => {
            proof {
                assert(i < plen);
            }
            i + 1
        },
    };
    let marker: Vec<u8> = vec![46u8, 95u8];
    proof {
        assert(sep@ =~= seq![47u8]);
        assert(marker@ =~= seq![46u8, 95u8]);
    }
    find_sub(p, &marker, start).is_none()
}

/// Every index the working set holds lies in range of the name list, and
/// every path it holds is the name at its index.
pub proof fn lemma_working_set_range(names: Seq<Seq<u8>>, from: int)
    ensures
        forall|j: int|
            0 <= j < working_set(names, from).len() ==> 0 <= (#[trigger] working_set(names, from)[j]).0
                < names.len() && working_set(names, from)[j].1 == names[working_set(names, from)[j].0],
    decreases names.len() - from,
{
    if 0 <= from < names.len() {
        lemma_working_set_range(names, from + 1);
        let rest = working_set(names, from + 1);
        if keep_entry(names[from]) {
            assert forall|j: int|
                0 <= j < working_set(names, from).len() implies 0 <= (#[trigger] working_set(
                names,
                from,
            )[j]).0 < names.len() && working_set(names, from)[j].1 == names[working_set(
                names,
                from,
            )[j].0] by {
                if j > 0 {
                    assert(working_set(names, from)[j] == rest[j - 1]);
                }
            }
        } else {
            assert forall|j: int|
                0 <= j < working_set(names, from).len() implies 0 <= (#[trigger] working_set(
                names,
                from,
            )[j]).0 < names.len() && working_set(names, from)[j].1 == names[working_set(
                names,
                from,
            )[j].0] by {
                assert(working_set(names, from)[j] == rest[j]);
            }
        }
    }
}

/// Every path the working set holds is a kept path: no directory entry and
/// no resource-fork shadow file ever appears in it, for any archive.
pub proof fn lemma_working_set_kept(names: Seq<Seq<u8>>, from: int)
    ensures
        forall|j: int|
            0 <= j < working_set(names, from).len() ==> keep_entry(
                (#[trigger] working_set(names, from)[j]).1,
            ),
    decreases names.len() - from,
{
    if 0 <= from < names.len() {
        lemma_working_set_kept(names, from + 1);
        let rest = working_set(names, from + 1);
        assert forall|j: int|
            0 <= j < working_set(names, from).len() implies keep_entry(
            (#[trigger] working_set(names, from)[j]).1,
        ) by {
            if keep_entry(names[from]) {
                if j > 0 {
                    assert(working_set(names, from)[j] == rest[j - 1]);
                }
            } else {
                assert(working_set(names, from)[j] == rest[j]);
            }
        }
    }
}

/// Builds the working set of the archive: every addressable entry, in
/// archive order, leaving out directory entries and resource-fork shadow
/// files.
pub fn get_files_from_zip(zip: &zip::ZipArchive<Cursor<Vec<u8>>>) -> (r: Vec<ArchiveEntry>)
    ensures
        entries_view(r@) == working_set(archive_names(*zip), 0),
{
    let count = entry_count(zip);
    let mut acc: Vec<ArchiveEntry> = Vec::new();
    let mut i: usize = 0;
    while i < count
        invariant
            i <= count,
            count == archive_names(*zip).len(),
            working_set(archive_names(*zip), 0) == entries_view(acc@) + working_set(
                archive_names(*zip),
                i as int,
            ),
        decreases count - i,
    {
        match entry_name(zip, i) {
            Some(name) => {
                if keep_entry_exec(&name) {
                    let ghost before = acc@;
                    acc.push(ArchiveEntry { index: i, path: name });
                    proof {
                        assert(entries_view(acc@) =~= entries_view(before) + seq![
                            (i as int, archive_names(*zip)[i as int]),
                        ]);
                    }
                }
            },
            None => {
                // unreachable: the index is in range
            },
        }
        i += 1;
    }
    proof {
        assert(entries_view(acc@) =~= entries_view(acc@) + working_set(
            archive_names(*zip),
            count as int,
        ));
    }
    acc
}

} // verus!
