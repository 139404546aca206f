//! The Google-Web-Designer rewriter: every `<gwd-image ... source="...">`
//! occurrence whose `source` value exactly equals a resolved entry path has
//! that value's occurrences inside the matched markup replaced by a freshly
//! materialized handle; everything else passes through unchanged.

use vstd::prelude::*;

use crate::BundleError;
use crate::archive::{archive_data, archive_names, get_binary_from_zipfile};
use crate::materialize::{create_object_url, materialize_handle_bytes};
use crate::mime::gwd_asset_mime;
use crate::resolve::ResolvedEntry;
use crate::text::{
    eq_vec, find_from, find_sub, lemma_find_from, push_all, push_range, replace_all, replace_seq,
};

use std::io::Cursor;

verus! {

/// The literal `<gwd-image` that opens a custom image element.
pub open spec fn tok_gwd_open() -> Seq<u8> {
    seq![60u8, 103u8, 119u8, 100u8, 45u8, 105u8, 109u8, 97u8, 103u8, 101u8]
}

/// The literal `source="` that opens the source attribute value.
pub open spec fn tok_source() -> Seq<u8> {
    seq![115u8, 111u8, 117u8, 114u8, 99u8, 101u8, 61u8, 34u8]
}

/// The literal `"`.
pub open spec fn tok_quote() -> Seq<u8> {
    seq![34u8]
}

/// The literal `gwd-image` whose presence in the root document marks a GWD
/// bundle.
pub open spec fn gwd_marker() -> Seq<u8> {
    seq![103u8, 119u8, 100u8, 45u8, 105u8, 109u8, 97u8, 103u8, 101u8]
}

fn tok_gwd_open_vec() -> (v: Vec<u8>)
    ensures
        v@ == tok_gwd_open(),
{
    let v: Vec<u8> = vec![60u8, 103u8, 119u8, 100u8, 45u8, 105u8, 109u8, 97u8, 103u8, 101u8];
    proof {
        assert(v@ =~= tok_gwd_open());
    }
    v
}

fn tok_source_vec() -> (v: Vec<u8>)
    ensures
        v@ == tok_source(),
{
    let v: Vec<u8> = vec![115u8, 111u8, 117u8, 114u8, 99u8, 101u8, 61u8, 34u8];
    proof {
        assert(v@ =~= tok_source());
    }
    v
}

fn tok_quote_vec() -> (v: Vec<u8>)
    ensures
        v@ == tok_quote(),
{
    let v: Vec<u8> = vec![34u8];
    proof {
        assert(v@ =~= tok_quote());
    }
    v
}

/// The literal `gwd-image`.
pub fn gwd_marker_vec() -> (v: Vec<u8>)
    ensures
        v@ == gwd_marker(),
{
    let v: Vec<u8> = vec![103u8, 119u8, 100u8, 45u8, 105u8, 109u8, 97u8, 103u8, 101u8];
    proof {
        assert(v@ =~= gwd_marker());
    }
    v
}

/// The relative paths a resolved entry list holds, in order.
pub open spec fn rel_paths(s: Seq<ResolvedEntry>) -> Seq<Seq<u8>> {
    s.map_values(|e: ResolvedEntry| e.path@)
}

/// The next `<gwd-image ... source="...">` occurrence at or after `from`:
/// the element start, and the start and end of the source value.
pub open spec fn gwd_match(doc: Seq<u8>, from: int) -> Option<(int, int, int)> {
    match find_from(doc, tok_gwd_open(), from) {
        None => None,
        Some(m) => match find_from(doc, tok_source(), m + tok_gwd_open().len()) {
            None => None,
            Some(s) => match find_from(doc, tok_quote(), s + tok_source().len()) {
                None => None,
                Some(q) => Some((m, s + tok_source().len() as int, q)),
            },
        },
    }
}

/// Bounds of a `gwd_match` answer.
pub proof fn lemma_gwd_match(doc: Seq<u8>, from: int)
    requires
        0 <= from,
    ensures
        gwd_match(doc, from) matches Some(t) ==> from <= t.0 && t.0 + tok_gwd_open().len() <= t.1
            && t.1 <= t.2 && t.2 + 1 <= doc.len(),
{
    lemma_find_from(doc, tok_gwd_open(), from);
    match find_from(doc, tok_gwd_open(), from) {
        None => {},
        Some(m) => {
            lemma_find_from(doc, tok_source(), m + tok_gwd_open().len() as int);
            match find_from(doc, tok_source(), m + tok_gwd_open().len() as int) {
                None => {},
                Some(s) => {
                    lemma_find_from(doc, tok_quote(), s + tok_source().len() as int);
                },
            }
        },
    }
}

/// First position in `paths` holding exactly `src`, at or after `k`.
pub open spec fn find_exact(paths: Seq<Seq<u8>>, src: Seq<u8>, k: int) -> Option<int>
    decreases paths.len() - k,
{
    if k < 0 || k >= paths.len() {
        None
    } else if paths[k] == src {
        Some(k)
    } else {
        find_exact(paths, src, k + 1)
    }
}

/// A `find_exact` answer lies in range and names an exact match.
pub proof fn lemma_find_exact(paths: Seq<Seq<u8>>, src: Seq<u8>, k: int)
    ensures
        find_exact(paths, src, k) matches Some(j) ==> k <= j < paths.len() && paths[j] == src,
    decreases paths.len() - k,
{
    if !(k < 0 || k >= paths.len()) && paths[k] != src {
        lemma_find_exact(paths, src, k + 1);
    }
}

/// The entries to materialize for a GWD document, in occurrence order: for
/// each matched occurrence, the position of the first entry whose resolved
/// path exactly equals the source value.
pub open spec fn gwd_plan(doc: Seq<u8>, paths: Seq<Seq<u8>>, from: int) -> Seq<int>
    decreases doc.len() + 1 - from,
    via gwd_plan_dec
{
    if from < 0 {
        Seq::empty()
    } else {
        match gwd_match(doc, from) {
            None => Seq::empty(),
            Some(t) => {
                let src = doc.subrange(t.1, t.2);
                match find_exact(paths, src, 0) {
                    None => gwd_plan(doc, paths, t.2 + 1),
                    Some(k) => seq![k] + gwd_plan(doc, paths, t.2 + 1),
                }
            },
        }
    }
}

#[via_fn]
proof fn gwd_plan_dec(doc: Seq<u8>, paths: Seq<Seq<u8>>, from: int) {
    if 0 <= from {
        lemma_gwd_match(doc, from);
    }
}

/// Every position a GWD plan holds names an entry of the path list.
pub proof fn lemma_gwd_plan_range(doc: Seq<u8>, paths: Seq<Seq<u8>>, from: int)
    ensures
        forall|j: int|
            0 <= j < gwd_plan(doc, paths, from).len() ==> 0 <= #[trigger] gwd_plan(
                doc,
                paths,
                from,
            )[j] < paths.len(),
    decreases doc.len() + 1 - from,
{
    if 0 <= from {
        lemma_gwd_match(doc, from);
        match gwd_match(doc, from) {
            None => {},
            Some(t) => {
                let src = doc.subrange(t.1, t.2);
                lemma_find_exact(paths, src, 0);
                lemma_gwd_plan_range(doc, paths, t.2 + 1);
                let rest = gwd_plan(doc, paths, t.2 + 1);
                match find_exact(paths, src, 0) {
                    None => {
                        assert forall|j: int|
                            0 <= j < gwd_plan(doc, paths, from).len() implies 0 <= #[trigger] gwd_plan(
                            doc,
                            paths,
                            from,
                        )[j] < paths.len() by {
                            assert(gwd_plan(doc, paths, from)[j] == rest[j]);
                        }
                    },
                    Some(k) => {
                        assert forall|j: int|
                            0 <= j < gwd_plan(doc, paths, from).len() implies 0 <= #[trigger] gwd_plan(
                            doc,
                            paths,
                            from,
                        )[j] < paths.len() by {
                            if j > 0 {
                                assert(gwd_plan(doc, paths, from)[j] == rest[j - 1]);
                            }
                        }
                    },
                }
            },
        }
    }
}

/// The rewritten suffix `doc[from ..)`: each matched occurrence whose source
/// value equals a resolved path has that value's occurrences inside the
/// matched span replaced by the next handle; everything else is kept.
pub open spec fn gwd_rewrite(
    doc: Seq<u8>,
    paths: Seq<Seq<u8>>,
    handles: Seq<Seq<u8>>,
    from: int,
) -> Seq<u8>
    decreases doc.len() + 1 - from,
    via gwd_rewrite_dec
{
    if from < 0 || from > doc.len() {
        Seq::empty()
    } else {
        match gwd_match(doc, from) {
            None => doc.subrange(from, doc.len() as int),
            Some(t) => {
                let src = doc.subrange(t.1, t.2);
                let span = doc.subrange(t.0, t.2 + 1);
                match find_exact(paths, src, 0) {
                    None => doc.subrange(from, t.2 + 1) + gwd_rewrite(doc, paths, handles, t.2 + 1),
                    Some(k) => if handles.len() > 0 {
                        doc.subrange(from, t.0) + replace_seq(span, src, handles[0]) + gwd_rewrite(
                            doc,
                            paths,
                            handles.drop_first(),
                            t.2 + 1,
                        )
                    } else {
                        doc.subrange(from, t.2 + 1) + gwd_rewrite(doc, paths, handles, t.2 + 1)
                    },
                }
            },
        }
    }
}

#[via_fn]
proof fn gwd_rewrite_dec(doc: Seq<u8>, paths: Seq<Seq<u8>>, handles: Seq<Seq<u8>>, from: int) {
    if 0 <= from <= doc.len() {
        lemma_gwd_match(doc, from);
    }
}

fn gwd_match_exec(doc: &Vec<u8>, from: usize) -> (r: Option<(usize, usize, usize)>)
    ensures
        match r {
            Some(t) => gwd_match(doc@, from as int) == Some((t.0 as int, t.1 as int, t.2 as int))
                && from <= t.0 <= t.1 <= t.2 && t.2 + 1 <= doc@.len(),
            None => gwd_match(doc@, from as int) is None,
        },
{
    let dlen = doc.len();
    let open_tok = tok_gwd_open_vec();
    match find_sub(doc, &open_tok, from) {
        None => None,
        Some(m) => {
            proof {
                lemma_find_from(doc@, tok_gwd_open(), from as int);
                assert(m + open_tok@.len() <= dlen);
            }
            let src_tok = tok_source_vec();
            match find_sub(doc, &src_tok, m + open_tok.len()) {
                None => None,
                Some(s) => {
                    proof {
                        lemma_find_from(doc@, tok_source(), m + tok_gwd_open().len() as int);
                        assert(s + src_tok@.len() <= dlen);
                    }
                    let quote_tok = tok_quote_vec();
                    match find_sub(doc, &quote_tok, s + src_tok.len()) {
                        None => None,
                        Some(q) => {
                            proof {
                                lemma_find_from(doc@, tok_quote(), s + tok_source().len() as int);
                                assert(q + 1 <= dlen);
                            }
                            Some((m, s + src_tok.len(), q))
                        },
                    }
                },
            }
        },
    }
}

fn find_exact_entry(files: &Vec<ResolvedEntry>, src: &Vec<u8>, k: usize) -> (r: Option<usize>)
    ensures
        match r {
            Some(j) => find_exact(rel_paths(files@), src@, k as int) == Some(j as int) && j
                < files@.len(),
            None => find_exact(rel_paths(files@), src@, k as int) is None,
        },
    decreases files@.len() - k,
{
    if k >= files.len() {
        return None;
    }
    if eq_vec(&files[k].path, src) {
        return Some(k);
    }
    find_exact_entry(files, src, k + 1)
}

/// The view of an entry-position plan.
pub open spec fn plan_view(s: Seq<usize>) -> Seq<int> {
    s.map_values(|v: usize| v as int)
}

fn gwd_plan_rec(doc: &Vec<u8>, files: &Vec<ResolvedEntry>, from: usize, acc: &mut Vec<usize>)
    ensures
        plan_view(final(acc)@) == plan_view(old(acc)@) + gwd_plan(
            doc@,
            rel_paths(files@),
            from as int,
        ),
    decreases doc@.len() - from,
{
    match gwd_match_exec(doc, from) {
        None => {
            proof {
                assert(plan_view(acc@) =~= plan_view(acc@) + gwd_plan(
                    doc@,
                    rel_paths(files@),
                    from as int,
                ));
            }
        },
        Some(t) => {
            let dlen = doc.len();
            proof {
                assert(t.2 + 1 <= dlen);
            }
            let mut src: Vec<u8> = Vec::new();
            push_range(&mut src, doc, t.1, t.2);
            match find_exact_entry(files, &src, 0) {
                None => {
                    gwd_plan_rec(doc, files, t.2 + 1, acc);
                },
                Some(k) => {
                    let ghost before = acc@;
                    acc.push(k);
                    proof {
                        assert(plan_view(acc@) =~= plan_view(before) + seq![k as int]);
                    }
                    gwd_plan_rec(doc, files, t.2 + 1, acc);
                },
            }
        },
    }
}

/// The view of a handle list.
pub open spec fn handles_view(s: Seq<Vec<u8>>) -> Seq<Seq<u8>> {
    s.map_values(|v: Vec<u8>| v@)
}

fn gwd_apply_rec(
    doc: &Vec<u8>,
    files: &Vec<ResolvedEntry>,
    handles: &Vec<Vec<u8>>,
    hi: usize,
    from: usize,
    out: &mut Vec<u8>,
)
    requires
        from <= doc@.len(),
        hi <= handles@.len(),
    ensures
        final(out)@ == old(out)@ + gwd_rewrite(
            doc@,
            rel_paths(files@),
            handles_view(handles@).skip(hi as int),
            from as int,
        ),
    decreases doc@.len() - from,
{
    match gwd_match_exec(doc, from) {
        None => {
            push_range(out, doc, from, doc.len());
        },
        Some(t) => {
            let dlen = doc.len();
            proof {
                assert(t.2 + 1 <= dlen);
            }
            let mut src: Vec<u8> = Vec::new();
            push_range(&mut src, doc, t.1, t.2);
            match find_exact_entry(files, &src, 0) {
                None => {
                    push_range(out, doc, from, t.2 + 1);
                    gwd_apply_rec(doc, files, handles, hi, t.2 + 1, out);
                    proof {
                        assert(final(out)@ =~= old(out)@ + gwd_rewrite(
                            doc@,
                            rel_paths(files@),
                            handles_view(handles@).skip(hi as int),
                            from as int,
                        ));
                    }
                },
                Some(k) => {
                    if hi < handles.len() {
                        push_range(out, doc, from, t.0);
                        let mut span: Vec<u8> = Vec::new();
                        push_range(&mut span, doc, t.0, t.2 + 1);
                        let rep = replace_all(&span, &src, &handles[hi]);
                        push_all(out, &rep);
                        proof {
                            assert(handles_view(handles@).skip(hi as int)[0] == handles@[hi as int]@);
                            assert(handles_view(handles@).skip(hi as int).drop_first()
                                =~= handles_view(handles@).skip(hi + 1));
                        }
                        gwd_apply_rec(doc, files, handles, hi + 1, t.2 + 1, out);
                        proof {
                            assert(final(out)@ =~= old(out)@ + gwd_rewrite(
                                doc@,
                                rel_paths(files@),
                                handles_view(handles@).skip(hi as int),
                                from as int,
                            ));
                        }
                    } else {
                        proof {
                            assert(handles_view(handles@).skip(hi as int).len() == 0);
                        }
                        push_range(out, doc, from, t.2 + 1);
                        gwd_apply_rec(doc, files, handles, hi, t.2 + 1, out);
                        proof {
                            assert(final(out)@ =~= old(out)@ + gwd_rewrite(
                                doc@,
                                rel_paths(files@),
                                handles_view(handles@).skip(hi as int),
                                from as int,
                            ));
                        }
                    }
                },
            }
        },
    }
}

/// The plan of a GWD document: for each matched occurrence, the position of
/// the entry to materialize.
pub fn gwd_plan_exec(doc: &Vec<u8>, files: &Vec<ResolvedEntry>) -> (r: Vec<usize>)
    ensures
        plan_view(r@) == gwd_plan(doc@, rel_paths(files@), 0),
        forall|j: int| 0 <= j < r@.len() ==> #[trigger] r@[j] < files@.len(),
{
    let mut acc: Vec<usize> = Vec::new();
    gwd_plan_rec(doc, files, 0, &mut acc);
    proof {
        lemma_gwd_plan_range(doc@, rel_paths(files@), 0);
        assert forall|j: int| 0 <= j < acc@.len() implies #[trigger] acc@[j] < files@.len() by {
            assert(plan_view(acc@)[j] == acc@[j] as int);
            assert(plan_view(acc@)[j] == gwd_plan(doc@, rel_paths(files@), 0)[j]);
        }
    }
    acc
}

/// Applies a GWD rewrite with the given handles, one per planned occurrence.
pub fn gwd_apply(doc: &Vec<u8>, files: &Vec<ResolvedEntry>, handles: &Vec<Vec<u8>>) -> (out: Vec<
    u8,
>)
    ensures
        out@ == gwd_rewrite(doc@, rel_paths(files@), handles_view(handles@), 0),
{
    let mut out: Vec<u8> = Vec::new();
    proof {
        assert(handles_view(handles@).skip(0) =~= handles_view(handles@));
    }
    gwd_apply_rec(doc, files, handles, 0, 0, &mut out);
    out
}

/// True when the entry at position `pos` of the resolved index/path list can
/// be read from the archive.
pub open spec fn entry_read_ok(
    pos: int,
    entries: Seq<(int, Seq<u8>)>,
    data: Seq<Option<Seq<u8>>>,
) -> bool {
    &&& 0 <= pos < entries.len()
    &&& 0 <= entries[pos].0 < data.len()
    &&& data[entries[pos].0] is Some
}

/// True when every planned entry can be read from the archive.
pub open spec fn plan_reads_ok(
    plan: Seq<int>,
    entries: Seq<(int, Seq<u8>)>,
    data: Seq<Option<Seq<u8>>>,
) -> bool {
    forall|j: int| 0 <= j < plan.len() ==> entry_read_ok(#[trigger] plan[j], entries, data)
}

/// The relative paths of an index/path pair list.
pub open spec fn pair_paths(entries: Seq<(int, Seq<u8>)>) -> Seq<Seq<u8>> {
    entries.map_values(|t: (int, Seq<u8>)| t.1)
}

fn gwd_collect(
    zip: &mut zip::ZipArchive<Cursor<Vec<u8>>>,
    files: &Vec<ResolvedEntry>,
    plan: &Vec<usize>,
) -> (r: Result<Vec<Vec<u8>>, BundleError>)
    requires
        forall|j: int| 0 <= j < plan@.len() ==> #[trigger] plan@[j] < files@.len(),
    ensures
        archive_names(*final(zip)) == archive_names(*old(zip)),
        archive_data(*final(zip)) == archive_data(*old(zip)),
        r is Ok <==> plan_reads_ok(
            plan_view(plan@),
            crate::resolve::resolved_view(files@),
            archive_data(*old(zip)),
        ),
        r matches Ok(h) ==> h@.len() == plan@.len(),
        r matches Err(e) ==> e == BundleError::EntryUnreadable,
{
    let mut out: Vec<Vec<u8>> = Vec::new();
    let mut j: usize = 0;
    while j < plan.len()
        invariant
            j <= plan@.len(),
            out@.len() == j,
            forall|i: int| 0 <= i < plan@.len() ==> #[trigger] plan@[i] < files@.len(),
            archive_names(*zip) == archive_names(*old(zip)),
            archive_data(*zip) == archive_data(*old(zip)),
            forall|i: int|
                0 <= i < j ==> entry_read_ok(
                    #[trigger] plan_view(plan@)[i],
                    crate::resolve::resolved_view(files@),
                    archive_data(*old(zip)),
                ),
        decreases plan@.len() - j,
    {
        let pos = plan[j];
        let bytes = match get_binary_from_zipfile(zip, files[pos].index) {
            Ok(b) => b,
            Err(e) => {
                proof {
                    let jj = j as int;
                    let p = plan_view(plan@)[jj];
                    let ev = crate::resolve::resolved_view(files@);
                    if plan_reads_ok(plan_view(plan@), ev, archive_data(*old(zip))) {
                        assert(entry_read_ok(p, ev, archive_data(*old(zip))));
                        assert(false);
                    }
                }
                return Err(e);
            },
        };
        let mime = gwd_asset_mime(&files[pos].path);
        let handle = materialize_handle_bytes(bytes, &mime);
        out.push(handle);
        j += 1;
    }
    Ok(out)
}

/// Rewrites a GWD document and materializes the result as `text/html`,
/// returning its handle. Succeeds exactly when every planned asset entry can
/// be read from the archive.
pub fn parse_gwd(
    html: &Vec<u8>,
    zip: &mut zip::ZipArchive<Cursor<Vec<u8>>>,
    files: &Vec<ResolvedEntry>,
) -> (r: Result<String, BundleError>)
    ensures
        archive_names(*final(zip)) == archive_names(*old(zip)),
        archive_data(*final(zip)) == archive_data(*old(zip)),
        r is Ok <==> plan_reads_ok(
            gwd_plan(html@, rel_paths(files@), 0),
            crate::resolve::resolved_view(files@),
            archive_data(*old(zip)),
        ),
        r matches Err(e) ==> e == BundleError::EntryUnreadable,
        r matches Ok(u) ==> u@.len() > 0,
{
    let plan = gwd_plan_exec(html, files);
    let handles = match gwd_collect(zip, files, &plan) {
        Ok(h) => h,
        Err(e) => {
            return Err(e);
        },
    };
    let out = gwd_apply(html, files, &handles);
    let html_mime: Vec<u8> = vec![
        116u8,
        101u8,
        120u8,
        116u8,
        47u8,
        104u8,
        116u8,
        109u8,
        108u8,
    ];
    Ok(create_object_url(out, &html_mime))
}

/// Identity rewrite: a document whose plan is empty comes out unchanged.
pub proof fn lemma_gwd_identity(
    doc: Seq<u8>,
    paths: Seq<Seq<u8>>,
    handles: Seq<Seq<u8>>,
    from: int,
)
    requires
        0 <= from <= doc.len(),
        gwd_plan(doc, paths, from) == Seq::<int>::empty(),
    ensures
        gwd_rewrite(doc, paths, handles, from) == doc.subrange(from, doc.len() as int),
    decreases doc.len() + 1 - from,
{
    lemma_gwd_match(doc, from);
    match gwd_match(doc, from) {
        None => {},
        Some(t) => {
            let src = doc.subrange(t.1, t.2);
            match find_exact(paths, src, 0) {
                None => {
                    lemma_gwd_identity(doc, paths, handles, t.2 + 1);
                    assert(doc.subrange(from, t.2 + 1) + doc.subrange(t.2 + 1, doc.len() as int)
                        =~= doc.subrange(from, doc.len() as int));
                },
                Some(k) => {
                    assert(gwd_plan(doc, paths, from).len() > 0);
                },
            }
        },
    }
}

/// A matched occurrence whose source value occurs exactly once inside the
/// matched span has exactly that value replaced by the handle, and no other
/// byte of the span is altered.
pub proof fn lemma_gwd_source_replaced(
    doc: Seq<u8>,
    paths: Seq<Seq<u8>>,
    handles: Seq<Seq<u8>>,
    from: int,
    m: int,
    vs: int,
    q: int,
)
    requires
        0 <= from,
        gwd_match(doc, from) == Some((m, vs, q)),
        find_exact(paths, doc.subrange(vs, q), 0) is Some,
        handles.len() > 0,
        vs < q,
        forall|j: int|
            0 <= j && j != vs - m ==> !(#[trigger] crate::text::is_match_at(
                doc.subrange(m, q + 1),
                doc.subrange(vs, q),
                j,
            )),
    ensures
        gwd_rewrite(doc, paths, handles, from) == doc.subrange(from, vs) + handles[0]
            + doc.subrange(q, q + 1) + gwd_rewrite(doc, paths, handles.drop_first(), q + 1),
{
    lemma_gwd_match(doc, from);
    let span = doc.subrange(m, q + 1);
    let src = doc.subrange(vs, q);
    assert(crate::text::is_match_at(span, src, vs - m)) by {
        assert(span.subrange(vs - m, vs - m + src.len() as int) =~= src);
    }
    crate::text::lemma_replace_single(span, src, handles[0], vs - m);
    assert(span.subrange(0, vs - m) =~= doc.subrange(m, vs));
    assert(span.subrange(vs - m + src.len() as int, span.len() as int) =~= doc.subrange(q, q + 1));
    assert(doc.subrange(from, m) + (doc.subrange(m, vs) + handles[0] + doc.subrange(q, q + 1))
        =~= doc.subrange(from, vs) + handles[0] + doc.subrange(q, q + 1));
    assert(gwd_rewrite(doc, paths, handles, from) =~= doc.subrange(from, vs) + handles[0]
        + doc.subrange(q, q + 1) + gwd_rewrite(doc, paths, handles.drop_first(), q + 1));
}

} // verus!
