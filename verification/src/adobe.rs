//! The Adobe-Animate rewriter. Every `src="..."` attribute of the root
//! document whose path is contained in a resolved entry path has that entry's
//! content rewritten and re-materialized: inside the content, each manifest
//! block (`manifest:` up to a balanced list literal and a trailing `};`) has
//! every brace-delimited object literal carrying both a `src` and an `id`
//! field, whose `src` value is contained in a resolved entry path, replaced
//! by a canonical four-field literal with a fresh handle; everything
//! unmatched passes through unchanged.

use vstd::prelude::*;

use crate::BundleError;
use crate::archive::{archive_data, archive_names, get_binary_from_zipfile};
use crate::gwd::{entry_read_ok, handles_view, pair_paths, plan_reads_ok, plan_view, rel_paths};
use crate::materialize::{create_object_url, materialize_handle_bytes};
use crate::mime::{mime_major, mime_minor, mime_parts_for, mime_tp_of};
use crate::resolve::ResolvedEntry;
use crate::text::{
    contains_seq, contains_sub, find_from, find_sub, lemma_find_from, push_all, push_range,
};

use std::io::Cursor;

verus! {

/// The literal `src="`.
pub open spec fn tok_src_attr() -> Seq<u8> {
    seq![115u8, 114u8, 99u8, 61u8, 34u8]
}

/// The literal `"`.
pub open spec fn tok_quote() -> Seq<u8> {
    seq![34u8]
}

/// The literal `manifest:`.
pub open spec fn tok_manifest() -> Seq<u8> {
    seq![109u8, 97u8, 110u8, 105u8, 102u8, 101u8, 115u8, 116u8, 58u8]
}

/// The literal `[`.
pub open spec fn tok_lbrack() -> Seq<u8> {
    seq![91u8]
}

/// The literal `};`.
pub open spec fn tok_close_semi() -> Seq<u8> {
    seq![125u8, 59u8]
}

/// The literal `{`.
pub open spec fn tok_obrace() -> Seq<u8> {
    seq![123u8]
}

/// The literal `}`.
pub open spec fn tok_cbrace() -> Seq<u8> {
    seq![125u8]
}

/// The literal `src`.
pub open spec fn tok_src_key() -> Seq<u8> {
    seq![115u8, 114u8, 99u8]
}

/// The literal `id`.
pub open spec fn tok_id_key() -> Seq<u8> {
    seq![105u8, 100u8]
}

/// The pieces of the canonical four-field literal.
pub open spec fn tok_c1() -> Seq<u8> {
    seq![123u8, 115u8, 114u8, 99u8, 58u8, 32u8, 34u8]
}

pub open spec fn tok_c2() -> Seq<u8> {
    seq![34u8, 44u8, 32u8, 105u8, 100u8, 58u8, 32u8, 34u8]
}

pub open spec fn tok_c3() -> Seq<u8> {
    seq![34u8, 44u8, 32u8, 116u8, 121u8, 112u8, 101u8, 58u8, 32u8, 34u8]
}

pub open spec fn tok_c4() -> Seq<u8> {
    seq![34u8, 44u8, 32u8, 101u8, 120u8, 116u8, 58u8, 32u8, 34u8]
}

pub open spec fn tok_c5() -> Seq<u8> {
    seq![34u8, 32u8, 125u8]
}

/// The canonical replacement for a matched manifest object literal:
/// `{src: "<handle>", id: "<id>", type: "<major>", ext: "<minor>" }`.
pub open spec fn canonical4(handle: Seq<u8>, id: Seq<u8>, major: Seq<u8>, minor: Seq<u8>) -> Seq<
    u8,
> {
    tok_c1() + handle + tok_c2() + id + tok_c3() + major + tok_c4() + minor + tok_c5()
}

/// The next `src="..."` attribute at or after `from`: the attribute start,
/// and the start and end of the path value.
pub open spec fn attr_match(doc: Seq<u8>, from: int) -> Option<(int, int, int)> {
    match find_from(doc, tok_src_attr(), from) {
        None => None,
        Some(a) => match find_from(doc, tok_quote(), a + tok_src_attr().len()) {
            None => None,
            Some(q) => Some((a, a + tok_src_attr().len() as int, q)),
        },
    }
}

/// Bounds of an `attr_match` answer.
pub proof fn lemma_attr_match(doc: Seq<u8>, from: int)
    requires
        0 <= from,
    ensures
        attr_match(doc, from) matches Some(t) ==> from <= t.0 && t.0 + tok_src_attr().len() == t.1
            && t.1 <= t.2 && t.2 + 1 <= doc.len(),
{
    lemma_find_from(doc, tok_src_attr(), from);
    match find_from(doc, tok_src_attr(), from) {
        None => {},
        Some(a) => {
            lemma_find_from(doc, tok_quote(), a + tok_src_attr().len() as int);
        },
    }
}

/// First position in `paths` whose path contains `needle`, at or after `k`.
pub open spec fn find_containing(paths: Seq<Seq<u8>>, needle: Seq<u8>, k: int) -> Option<int>
    decreases paths.len() - k,
{
    if k < 0 || k >= paths.len() {
        None
    } else if contains_seq(paths[k], needle) {
        Some(k)
    } else {
        find_containing(paths, needle, k + 1)
    }
}

/// A `find_containing` answer lies in range and names a containing path.
pub proof fn lemma_find_containing(paths: Seq<Seq<u8>>, needle: Seq<u8>, k: int)
    ensures
        find_containing(paths, needle, k) matches Some(j) ==> k <= j < paths.len() && contains_seq(
            paths[j],
            needle,
        ),
    decreases paths.len() - k,
{
    if !(k < 0 || k >= paths.len()) && !contains_seq(paths[k], needle) {
        lemma_find_containing(paths, needle, k + 1);
    }
}

/// First `"` or `?` at or after `from`: the terminator of a `src` value.
pub open spec fn find_stop(b: Seq<u8>, from: int) -> Option<int>
    decreases b.len() - from,
{
    if from < 0 || from >= b.len() {
        None
    } else if b[from] == 34 || b[from] == 63 {
        Some(from)
    } else {
        find_stop(b, from + 1)
    }
}

/// A `find_stop` answer lies at or after `from` and inside `b`.
pub proof fn lemma_find_stop(b: Seq<u8>, from: int)
    ensures
        find_stop(b, from) matches Some(i) ==> from <= i < b.len(),
    decreases b.len() - from,
{
    if !(from < 0 || from >= b.len()) && !(b[from] == 34 || b[from] == 63) {
        lemma_find_stop(b, from + 1);
    }
}

/// The position of the `]` that closes a list literal whose opening `[` sits
/// just before `i`, tracking bracket depth.
pub open spec fn bracket_close(c: Seq<u8>, i: int, depth: int) -> Option<int>
    decreases c.len() - i,
{
    if i < 0 || i >= c.len() {
        None
    } else if c[i] == 93 && depth == 0 {
        Some(i)
    } else if c[i] == 93 {
        bracket_close(c, i + 1, depth - 1)
    } else if c[i] == 91 {
        bracket_close(c, i + 1, depth + 1)
    } else {
        bracket_close(c, i + 1, depth)
    }
}

/// A `bracket_close` answer lies at or after `i` and inside `c`.
pub proof fn lemma_bracket_close(c: Seq<u8>, i: int, depth: int)
    ensures
        bracket_close(c, i, depth) matches Some(e) ==> i <= e < c.len(),
    decreases c.len() - i,
{
    if !(i < 0 || i >= c.len()) && !(c[i] == 93 && depth == 0) {
        if c[i] == 93 {
            lemma_bracket_close(c, i + 1, depth - 1);
        } else if c[i] == 91 {
            lemma_bracket_close(c, i + 1, depth + 1);
        } else {
            lemma_bracket_close(c, i + 1, depth);
        }
    }
}

/// The `src` field value of the object span `b[ob .. cb]`: the first quoted
/// value after the first `src` token, terminated by `"` or `?`.
pub open spec fn src_field(b: Seq<u8>, ob: int, cb: int) -> Option<(int, int)> {
    match find_from(b, tok_src_key(), ob + 1) {
        None => None,
        Some(s) => if s >= cb {
            None
        } else {
            match find_from(b, tok_quote(), s + tok_src_key().len()) {
                None => None,
                Some(q1) => if q1 >= cb {
                    None
                } else {
                    match find_stop(b, q1 + 1) {
                        None => None,
                        Some(ve) => if ve >= cb {
                            None
                        } else {
                            Some((q1 + 1, ve))
                        },
                    }
                },
            }
        },
    }
}

/// An `id` field value inside the object span, looked for at or after
/// `start`: the first quoted value after the first `id` token there.
pub open spec fn id_field(b: Seq<u8>, start: int, cb: int) -> Option<(int, int)> {
    match find_from(b, tok_id_key(), start) {
        None => None,
        Some(i) => if i >= cb {
            None
        } else {
            match find_from(b, tok_quote(), i + tok_id_key().len()) {
                None => None,
                Some(q1) => if q1 >= cb {
                    None
                } else {
                    match find_from(b, tok_quote(), q1 + 1) {
                        None => None,
                        Some(q2) => if q2 >= cb {
                            None
                        } else {
                            Some((q1 + 1, q2))
                        },
                    }
                },
            }
        },
    }
}

/// The `src` and `id` values of an object span, in either key order: the
/// `id` is looked for after the `src` value first, then wholly before it.
pub open spec fn asset_fields(b: Seq<u8>, ob: int, cb: int) -> Option<(int, int, int, int)> {
    match src_field(b, ob, cb) {
        None => None,
        Some(sv) => match id_field(b, sv.1 + 1, cb) {
            Some(iv) => Some((sv.0, sv.1, iv.0, iv.1)),
            None => match id_field(b, ob + 1, cb) {
                Some(iv) => if iv.1 < sv.0 {
                    Some((sv.0, sv.1, iv.0, iv.1))
                } else {
                    None
                },
                None => None,
            },
        },
    }
}

/// Bounds of the fields of an object span.
pub proof fn lemma_asset_fields(b: Seq<u8>, ob: int, cb: int)
    requires
        0 <= ob,
    ensures
        asset_fields(b, ob, cb) matches Some(f) ==> 0 <= f.0 <= f.1 < cb && 0 <= f.2 <= f.3 < cb,
{
    match find_from(b, tok_src_key(), ob + 1) {
        None => {},
        Some(s) => {
            lemma_find_from(b, tok_src_key(), ob + 1);
            match find_from(b, tok_quote(), s + tok_src_key().len() as int) {
                None => {},
                Some(q1) => {
                    lemma_find_from(b, tok_quote(), s + tok_src_key().len() as int);
                    lemma_find_stop(b, q1 + 1);
                },
            }
        },
    }
    match src_field(b, ob, cb) {
        None => {},
        Some(sv) => {
            lemma_id_field(b, sv.1 + 1, cb);
            lemma_id_field(b, ob + 1, cb);
        },
    }
}

/// Bounds of an `id_field` answer.
pub proof fn lemma_id_field(b: Seq<u8>, start: int, cb: int)
    requires
        0 <= start,
    ensures
        id_field(b, start, cb) matches Some(iv) ==> 0 <= iv.0 <= iv.1 < cb,
{
    match find_from(b, tok_id_key(), start) {
        None => {},
        Some(i) => {
            lemma_find_from(b, tok_id_key(), start);
            match find_from(b, tok_quote(), i + tok_id_key().len() as int) {
                None => {},
                Some(q1) => {
                    lemma_find_from(b, tok_quote(), i + tok_id_key().len() as int);
                    lemma_find_from(b, tok_quote(), q1 + 1);
                },
            }
        },
    }
}

/// The next manifest object literal at or after `from`: the span of the
/// first `{` whose first following `}` closes a span carrying both fields.
pub open spec fn asset_match(b: Seq<u8>, from: int) -> Option<(int, int, (int, int, int, int))>
    decreases b.len() + 1 - from,
    via asset_match_dec
{
    if from < 0 {
        None
    } else {
        match find_from(b, tok_obrace(), from) {
            None => None,
            Some(ob) => match find_from(b, tok_cbrace(), ob + 1) {
                None => None,
                Some(cb) => match asset_fields(b, ob, cb) {
                    Some(f) => Some((ob, cb, f)),
                    None => asset_match(b, ob + 1),
                },
            },
        }
    }
}

#[via_fn]
proof fn asset_match_dec(b: Seq<u8>, from: int) {
    if 0 <= from {
        lemma_find_from(b, tok_obrace(), from);
    }
}

/// Bounds of an `asset_match` answer.
pub proof fn lemma_asset_match(b: Seq<u8>, from: int)
    requires
        0 <= from,
    ensures
        asset_match(b, from) matches Some(t) ==> from <= t.0 && t.0 < t.1 && t.1 + 1 <= b.len() && (
        {
            let f = t.2;
            0 <= f.0 <= f.1 < t.1 && 0 <= f.2 <= f.3 < t.1
        }),
    decreases b.len() + 1 - from,
{
    lemma_find_from(b, tok_obrace(), from);
    match find_from(b, tok_obrace(), from) {
        None => {},
        Some(ob) => {
            lemma_find_from(b, tok_cbrace(), ob + 1);
            match find_from(b, tok_cbrace(), ob + 1) {
                None => {},
                Some(cb) => {
                    lemma_asset_fields(b, ob, cb);
                    match asset_fields(b, ob, cb) {
                        Some(f) => {},
                        None => {
                            lemma_asset_match(b, ob + 1);
                        },
                    }
                },
            }
        },
    }
}

/// The entries to materialize for one manifest block, in occurrence order.
pub open spec fn asset_plan(b: Seq<u8>, paths: Seq<Seq<u8>>, from: int) -> Seq<int>
    decreases b.len() + 1 - from,
    via asset_plan_dec
{
    if from < 0 {
        Seq::empty()
    } else {
        match asset_match(b, from) {
            None => Seq::empty(),
            Some(t) => {
                let src = b.subrange(t.2.0, t.2.1);
                match find_containing(paths, src, 0) {
                    None => asset_plan(b, paths, t.1 + 1),
                    Some(k) => seq![k] + asset_plan(b, paths, t.1 + 1),
                }
            },
        }
    }
}

#[via_fn]
proof fn asset_plan_dec(b: Seq<u8>, paths: Seq<Seq<u8>>, from: int) {
    if 0 <= from {
        lemma_asset_match(b, from);
    }
}

/// The rewritten suffix of one manifest block: each matched object literal
/// replaced by the canonical four-field literal, everything else kept.
pub open spec fn asset_rewrite(
    b: Seq<u8>,
    paths: Seq<Seq<u8>>,
    handles: Seq<Seq<u8>>,
    from: int,
) -> Seq<u8>
    decreases b.len() + 1 - from,
    via asset_rewrite_dec
{
    if from < 0 || from > b.len() {
        Seq::empty()
    } else {
        match asset_match(b, from) {
            None => b.subrange(from, b.len() as int),
            Some(t) => {
                let src = b.subrange(t.2.0, t.2.1);
                match find_containing(paths, src, 0) {
                    None => b.subrange(from, t.1 + 1) + asset_rewrite(b, paths, handles, t.1 + 1),
                    Some(k) => if handles.len() > 0 {
                        b.subrange(from, t.0) + canonical4(
                            handles[0],
                            b.subrange(t.2.2, t.2.3),
                            mime_major(mime_tp_of(paths[k])),
                            mime_minor(mime_tp_of(paths[k])),
                        ) + asset_rewrite(b, paths, handles.drop_first(), t.1 + 1)
                    } else {
                        b.subrange(from, t.1 + 1) + asset_rewrite(b, paths, handles, t.1 + 1)
                    },
                }
            },
        }
    }
}

#[via_fn]
proof fn asset_rewrite_dec(b: Seq<u8>, paths: Seq<Seq<u8>>, handles: Seq<Seq<u8>>, from: int) {
    if 0 <= from <= b.len() {
        lemma_asset_match(b, from);
    }
}

/// The next manifest block at or after `from`: from `manifest:` through the
/// balanced list literal and the trailing `};`.
pub open spec fn mani_match(c: Seq<u8>, from: int) -> Option<(int, int)> {
    match find_from(c, tok_manifest(), from) {
        None => None,
        Some(t) => match find_from(c, tok_lbrack(), t + tok_manifest().len()) {
            None => None,
            Some(lb) => match bracket_close(c, lb + 1, 0) {
                None => None,
                Some(rb) => match find_from(c, tok_close_semi(), rb + 1) {
                    None => None,
                    Some(e2) => Some((t, e2 + tok_close_semi().len() as int)),
                },
            },
        },
    }
}

/// Bounds of a `mani_match` answer.
pub proof fn lemma_mani_match(c: Seq<u8>, from: int)
    requires
        0 <= from,
    ensures
        mani_match(c, from) matches Some(t) ==> from <= t.0 && t.0 < t.1 && t.1 <= c.len(),
{
    lemma_find_from(c, tok_manifest(), from);
    match find_from(c, tok_manifest(), from) {
        None => {},
        Some(t) => {
            lemma_find_from(c, tok_lbrack(), t + tok_manifest().len() as int);
            match find_from(c, tok_lbrack(), t + tok_manifest().len() as int) {
                None => {},
                Some(lb) => {
                    lemma_bracket_close(c, lb + 1, 0);
                    match bracket_close(c, lb + 1, 0) {
                        None => {},
                        Some(rb) => {
                            lemma_find_from(c, tok_close_semi(), rb + 1);
                        },
                    }
                },
            }
        },
    }
}

/// The entries to materialize for one matched content, over all its manifest
/// blocks, in order.
pub open spec fn content_plan(c: Seq<u8>, paths: Seq<Seq<u8>>, from: int) -> Seq<int>
    decreases c.len() + 1 - from,
    via content_plan_dec
{
    if from < 0 {
        Seq::empty()
    } else {
        match mani_match(c, from) {
            None => Seq::empty(),
            Some(t) => asset_plan(c.subrange(t.0, t.1), paths, 0) + content_plan(c, paths, t.1),
        }
    }
}

#[via_fn]
proof fn content_plan_dec(c: Seq<u8>, paths: Seq<Seq<u8>>, from: int) {
    if 0 <= from {
        lemma_mani_match(c, from);
    }
}

/// The smaller of two values.
pub open spec fn min_int(a: int, b: int) -> int {
    if a <= b {
        a
    } else {
        b
    }
}

/// The rewritten suffix of one matched content: each manifest block has its
/// object literals rewritten, consuming one handle per matched literal;
/// everything outside the blocks is kept.
pub open spec fn content_rewrite(
    c: Seq<u8>,
    paths: Seq<Seq<u8>>,
    handles: Seq<Seq<u8>>,
    from: int,
) -> Seq<u8>
    decreases c.len() + 1 - from,
    via content_rewrite_dec
{
    if from < 0 || from > c.len() {
        Seq::empty()
    } else {
        match mani_match(c, from) {
            None => c.subrange(from, c.len() as int),
            Some(t) => {
                let block = c.subrange(t.0, t.1);
                let used = min_int(asset_plan(block, paths, 0).len() as int, handles.len() as int);
                c.subrange(from, t.0) + asset_rewrite(block, paths, handles, 0) + content_rewrite(
                    c,
                    paths,
                    handles.skip(used),
                    t.1,
                )
            },
        }
    }
}

#[via_fn]
proof fn content_rewrite_dec(c: Seq<u8>, paths: Seq<Seq<u8>>, handles: Seq<Seq<u8>>, from: int) {
    if 0 <= from <= c.len() {
        lemma_mani_match(c, from);
    }
}

/// The entries whose content is rewritten and re-materialized for an
/// Adobe-AN root document, one per matched attribute, in occurrence order.
pub open spec fn adobe_plan(doc: Seq<u8>, paths: Seq<Seq<u8>>, from: int) -> Seq<int>
    decreases doc.len() + 1 - from,
    via adobe_plan_dec
{
    if from < 0 {
        Seq::empty()
    } else {
        match attr_match(doc, from) {
            None => Seq::empty(),
            Some(t) => {
                let path = doc.subrange(t.1, t.2);
                match find_containing(paths, path, 0) {
                    None => adobe_plan(doc, paths, t.2 + 1),
                    Some(k) => seq![k] + adobe_plan(doc, paths, t.2 + 1),
                }
            },
        }
    }
}

#[via_fn]
proof fn adobe_plan_dec(doc: Seq<u8>, paths: Seq<Seq<u8>>, from: int) {
    if 0 <= from {
        lemma_attr_match(doc, from);
    }
}

/// Every position an Adobe plan holds names an entry of the path list.
pub proof fn lemma_adobe_plan_range(doc: Seq<u8>, paths: Seq<Seq<u8>>, from: int)
    ensures
        forall|j: int|
            0 <= j < adobe_plan(doc, paths, from).len() ==> 0 <= #[trigger] adobe_plan(
                doc,
                paths,
                from,
            )[j] < paths.len(),
    decreases doc.len() + 1 - from,
{
    if 0 <= from {
        lemma_attr_match(doc, from);
        match attr_match(doc, from) {
            None => {},
            Some(t) => {
                let path = doc.subrange(t.1, t.2);
                lemma_find_containing(paths, path, 0);
                lemma_adobe_plan_range(doc, paths, t.2 + 1);
                let rest = adobe_plan(doc, paths, t.2 + 1);
                match find_containing(paths, path, 0) {
                    None => {
                        assert forall|j: int|
                            0 <= j < adobe_plan(doc, paths, from).len() implies 0
                            <= #[trigger] adobe_plan(doc, paths, from)[j] < paths.len() by {
                            assert(adobe_plan(doc, paths, from)[j] == rest[j]);
                        }
                    },
                    Some(k) => {
                        assert forall|j: int|
                            0 <= j < adobe_plan(doc, paths, from).len() implies 0
                            <= #[trigger] adobe_plan(doc, paths, from)[j] < paths.len() by {
                            if j > 0 {
                                assert(adobe_plan(doc, paths, from)[j] == rest[j - 1]);
                            }
                        }
                    },
                }
            },
        }
    }
}

/// The rewritten suffix of the root document: each matched attribute's path
/// value replaced by the handle of the matched entry's rewritten content;
/// unmatched attributes kept byte for byte.
pub open spec fn adobe_rewrite(
    doc: Seq<u8>,
    paths: Seq<Seq<u8>>,
    handles: Seq<Seq<u8>>,
    from: int,
) -> Seq<u8>
    decreases doc.len() + 1 - from,
    via adobe_rewrite_dec
{
    if from < 0 || from > doc.len() {
        Seq::empty()
    } else {
        match attr_match(doc, from) {
            None => doc.subrange(from, doc.len() as int),
            Some(t) => {
                let path = doc.subrange(t.1, t.2);
                match find_containing(paths, path, 0) {
                    None => doc.subrange(from, t.2 + 1) + adobe_rewrite(
                        doc,
                        paths,
                        handles,
                        t.2 + 1,
                    ),
                    Some(k) => if handles.len() > 0 {
                        doc.subrange(from, t.1) + handles[0] + tok_quote() + adobe_rewrite(
                            doc,
                            paths,
                            handles.drop_first(),
                            t.2 + 1,
                        )
                    } else {
                        doc.subrange(from, t.2 + 1) + adobe_rewrite(doc, paths, handles, t.2 + 1)
                    },
                }
            },
        }
    }
}

#[via_fn]
proof fn adobe_rewrite_dec(doc: Seq<u8>, paths: Seq<Seq<u8>>, handles: Seq<Seq<u8>>, from: int) {
    if 0 <= from <= doc.len() {
        lemma_attr_match(doc, from);
    }
}


fn tok_src_attr_vec() -> (v: Vec<u8>)
    ensures
        v@ == tok_src_attr(),
{
    let v: Vec<u8> = vec![115u8, 114u8, 99u8, 61u8, 34u8];
    proof {
        assert(v@ =~= tok_src_attr());
    }
    v
}

fn tok_quote_vec() -> (v: Vec<u8>)
    ensures
        v@ == tok_quote(),
{
    let v: Vec<u8> = vec![34u8];
    proof {
        assert(v@ =~= tok_quote());
    }
    v
}

fn tok_manifest_vec() -> (v: Vec<u8>)
    ensures
        v@ == tok_manifest(),
{
    let v: Vec<u8> = vec![109u8, 97u8, 110u8, 105u8, 102u8, 101u8, 115u8, 116u8, 58u8];
    proof {
        assert(v@ =~= tok_manifest());
    }
    v
}

fn tok_lbrack_vec() -> (v: Vec<u8>)
    ensures
        v@ == tok_lbrack(),
{
    let v: Vec<u8> = vec![91u8];
    proof {
        assert(v@ =~= tok_lbrack());
    }
    v
}

fn tok_close_semi_vec() -> (v: Vec<u8>)
    ensures
        v@ == tok_close_semi(),
{
    let v: Vec<u8> = vec![125u8, 59u8];
    proof {
        assert(v@ =~= tok_close_semi());
    }
    v
}

fn tok_obrace_vec() -> (v: Vec<u8>)
    ensures
        v@ == tok_obrace(),
{
    let v: Vec<u8> = vec![123u8];
    proof {
        assert(v@ =~= tok_obrace());
    }
    v
}

fn tok_cbrace_vec() -> (v: Vec<u8>)
    ensures
        v@ == tok_cbrace(),
{
    let v: Vec<u8> = vec![125u8];
    proof {
        assert(v@ =~= tok_cbrace());
    }
    v
}

fn tok_src_key_vec() -> (v: Vec<u8>)
    ensures
        v@ == tok_src_key(),
{
    let v: Vec<u8> = vec![115u8, 114u8, 99u8];
    proof {
        assert(v@ =~= tok_src_key());
    }
    v
}

fn tok_id_key_vec() -> (v: Vec<u8>)
    ensures
        v@ == tok_id_key(),
{
    let v: Vec<u8> = vec![105u8, 100u8];
    proof {
        assert(v@ =~= tok_id_key());
    }
    v
}

/// Builds the canonical four-field literal.
pub fn build_canonical(handle: &Vec<u8>, id: &Vec<u8>, major: &Vec<u8>, minor: &Vec<u8>) -> (v:
    Vec<u8>)
    ensures
        v@ == canonical4(handle@, id@, major@, minor@),
{
    let mut v: Vec<u8> = vec![123u8, 115u8, 114u8, 99u8, 58u8, 32u8, 34u8];
    proof {
        assert(v@ =~= tok_c1());
    }
    push_all(&mut v, handle);
    let piece_id: Vec<u8> = vec![34u8, 44u8, 32u8, 105u8, 100u8, 58u8, 32u8, 34u8];
    proof {
        assert(piece_id@ =~= tok_c2());
    }
    push_all(&mut v, &piece_id);
    push_all(&mut v, id);
    let piece_type: Vec<u8> = vec![34u8, 44u8, 32u8, 116u8, 121u8, 112u8, 101u8, 58u8, 32u8, 34u8];
    proof {
        assert(piece_type@ =~= tok_c3());
    }
    push_all(&mut v, &piece_type);
    push_all(&mut v, major);
    let piece_ext: Vec<u8> = vec![34u8, 44u8, 32u8, 101u8, 120u8, 116u8, 58u8, 32u8, 34u8];
    proof {
        assert(piece_ext@ =~= tok_c4());
    }
    push_all(&mut v, &piece_ext);
    push_all(&mut v, minor);
    let piece_end: Vec<u8> = vec![34u8, 32u8, 125u8];
    proof {
        assert(piece_end@ =~= tok_c5());
    }
    push_all(&mut v, &piece_end);
    proof {
        assert(v@ =~= canonical4(handle@, id@, major@, minor@));
    }
    v
}

fn attr_match_exec(doc: &Vec<u8>, from: usize) -> (r: Option<(usize, usize, usize)>)
    ensures
        match r {
            Some(t) => attr_match(doc@, from as int) == Some((t.0 as int, t.1 as int, t.2 as int))
                && from <= t.0 <= t.1 <= t.2 && t.2 + 1 <= doc@.len(),
            None => attr_match(doc@, from as int) is None,
        },
{
    let dlen = doc.len();
    let attr_tok = tok_src_attr_vec();
    match find_sub(doc, &attr_tok, from) {
        None => None,
        Some(a) => {
            proof {
                lemma_find_from(doc@, tok_src_attr(), from as int);
                assert(a + attr_tok@.len() <= dlen);
            }
            let quote_tok = tok_quote_vec();
            match find_sub(doc, &quote_tok, a + attr_tok.len()) {
                None => None,
                Some(q) => {
                    proof {
                        lemma_find_from(doc@, tok_quote(), a + tok_src_attr().len() as int);
                        assert(q + 1 <= dlen);
                    }
                    Some((a, a + attr_tok.len(), q))
                },
            }
        },
    }
}

fn find_containing_entry(files: &Vec<ResolvedEntry>, needle: &Vec<u8>, k: usize) -> (r: Option<
    usize,
>)
    ensures
        match r {
            Some(j) => find_containing(rel_paths(files@), needle@, k as int) == Some(j as int) && j
                < files@.len(),
            None => find_containing(rel_paths(files@), needle@, k as int) is None,
        },
    decreases files@.len() - k,
{
    if k >= files.len() {
        return None;
    }
    if contains_sub(&files[k].path, needle) {
        return Some(k);
    }
    find_containing_entry(files, needle, k + 1)
}

fn find_stop_exec(b: &Vec<u8>, from: usize) -> (r: Option<usize>)
    ensures
        match r {
            Some(i) => find_stop(b@, from as int) == Some(i as int) && from <= i < b@.len(),
            None => find_stop(b@, from as int) is None,
        },
{
    let mut i: usize = from;
    while i < b.len()
        invariant
            from <= i,
            find_stop(b@, from as int) == find_stop(b@, i as int),
        decreases b@.len() - i,
    {
        let c = b[i];
        if c == 34 || c == 63 {
            return Some(i);
        }
        i += 1;
    }
    None
}

fn bracket_close_exec(b: &Vec<u8>, start: usize) -> (r: Option<usize>)
    ensures
        match r {
            Some(e) => bracket_close(b@, start as int, 0) == Some(e as int) && start <= e
                < b@.len(),
            None => bracket_close(b@, start as int, 0) is None,
        },
{
    let mut i: usize = start;
    let mut depth: usize = 0;
    while i < b.len()
        invariant
            start <= i,
            depth <= i,
            bracket_close(b@, start as int, 0) == bracket_close(b@, i as int, depth as int),
        decreases b@.len() - i,
    {
        let c = b[i];
        if c == 93 {
            if depth == 0 {
                return Some(i);
            }
            depth -= 1;
        } else if c == 91 {
            depth += 1;
        }
        i += 1;
    }
    None
}

fn id_field_exec(b: &Vec<u8>, start: usize, cb: usize) -> (r: Option<(usize, usize)>)
    ensures
        match r {
            Some(iv) => id_field(b@, start as int, cb as int) == Some((iv.0 as int, iv.1 as int))
                && iv.0 <= iv.1 < cb,
            None => id_field(b@, start as int, cb as int) is None,
        },
{
    let id_tok = tok_id_key_vec();
    let quote_tok = tok_quote_vec();
    let blen = b.len();
    match find_sub(b, &id_tok, start) {
        None => None,
        Some(i) => {
            if i >= cb {
                return None;
            }
            proof {
                lemma_find_from(b@, tok_id_key(), start as int);
                assert(i + id_tok@.len() <= blen);
            }
            match find_sub(b, &quote_tok, i + id_tok.len()) {
                None => None,
                Some(q1) => {
                    if q1 >= cb {
                        return None;
                    }
                    proof {
                        lemma_find_from(b@, tok_quote(), i + tok_id_key().len() as int);
                        assert(q1 + 1 <= blen);
                    }
                    match find_sub(b, &quote_tok, q1 + 1) {
                        None => None,
                        Some(q2) => {
                            if q2 >= cb {
                                return None;
                            }
                            proof {
                                lemma_find_from(b@, tok_quote(), q1 + 1);
                            }
                            Some((q1 + 1, q2))
                        },
                    }
                },
            }
        },
    }
}

fn fields_exec(b: &Vec<u8>, ob: usize, cb: usize) -> (r: Option<(usize, usize, usize, usize)>)
    requires
        ob < cb,
    ensures
        match r {
            Some(f) => asset_fields(b@, ob as int, cb as int) == Some(
                (f.0 as int, f.1 as int, f.2 as int, f.3 as int),
            ) && f.0 <= f.1 < cb && f.2 <= f.3 < cb,
            None => asset_fields(b@, ob as int, cb as int) is None,
        },
{
    let src_tok = tok_src_key_vec();
    let quote_tok = tok_quote_vec();
    let blen = b.len();
    let sv: (usize, usize) = match find_sub(b, &src_tok, ob + 1) {
        None => {
            return None;
        },
        Some(s) => {
            if s >= cb {
                return None;
            }
            proof {
                lemma_find_from(b@, tok_src_key(), ob + 1);
                assert(s + src_tok@.len() <= blen);
            }
            match find_sub(b, &quote_tok, s + src_tok.len()) {
                None => {
                    return None;
                },
                Some(q1) => {
                    if q1 >= cb {
                        return None;
                    }
                    proof {
                        lemma_find_from(b@, tok_quote(), s + tok_src_key().len() as int);
                        assert(q1 + 1 <= blen);
                    }
                    match find_stop_exec(b, q1 + 1) {
                        None => {
                            return None;
                        },
                        Some(ve) => {
                            if ve >= cb {
                                return None;
                            }
                            (q1 + 1, ve)
                        },
                    }
                },
            }
        },
    };
    match id_field_exec(b, sv.1 + 1, cb) {
        Some(iv) => Some((sv.0, sv.1, iv.0, iv.1)),
        None => match id_field_exec(b, ob + 1, cb) {
            Some(iv) => {
                if iv.1 < sv.0 {
                    Some((sv.0, sv.1, iv.0, iv.1))
                } else {
                    None
                }
            },
            None => None,
        },
    }
}

fn asset_match_exec(b: &Vec<u8>, from: usize) -> (r: Option<
    (usize, usize, (usize, usize, usize, usize)),
>)
    ensures
        match r {
            Some(t) => asset_match(b@, from as int) == Some(
                ((t.0 as int, t.1 as int, (t.2.0 as int, t.2.1 as int, t.2.2 as int, t.2.3 as int))),
            ) && from <= t.0 < t.1 && t.1 + 1 <= b@.len() && t.2.0 <= t.2.1 < t.1 && t.2.2 <= t.2.3
                < t.1,
            None => asset_match(b@, from as int) is None,
        },
    decreases b@.len() - from,
{
    let blen = b.len();
    let ob_tok = tok_obrace_vec();
    match find_sub(b, &ob_tok, from) {
        None => None,
        Some(ob) => {
            proof {
                lemma_find_from(b@, tok_obrace(), from as int);
                assert(ob + 1 <= blen);
            }
            let cb_tok = tok_cbrace_vec();
            match find_sub(b, &cb_tok, ob + 1) {
                None => None,
                Some(cb) => {
                    proof {
                        lemma_find_from(b@, tok_cbrace(), ob + 1);
                        assert(cb + 1 <= blen);
                    }
                    match fields_exec(b, ob, cb) {
                        Some(f) => Some((ob, cb, f)),
                        None => asset_match_exec(b, ob + 1),
                    }
                },
            }
        },
    }
}

fn mani_match_exec(c: &Vec<u8>, from: usize) -> (r: Option<(usize, usize)>)
    ensures
        match r {
            Some(t) => mani_match(c@, from as int) == Some((t.0 as int, t.1 as int)) && from <= t.0
                < t.1 && t.1 <= c@.len(),
            None => mani_match(c@, from as int) is None,
        },
{
    let clen = c.len();
    let mani_tok = tok_manifest_vec();
    match find_sub(c, &mani_tok, from) {
        None => None,
        Some(t) => {
            proof {
                lemma_find_from(c@, tok_manifest(), from as int);
                assert(t + mani_tok@.len() <= clen);
            }
            let lb_tok = tok_lbrack_vec();
            match find_sub(c, &lb_tok, t + mani_tok.len()) {
                None => None,
                Some(lb) => {
                    proof {
                        lemma_find_from(c@, tok_lbrack(), t + tok_manifest().len() as int);
                        assert(lb + 1 <= clen);
                    }
                    match bracket_close_exec(c, lb + 1) {
                        None => None,
                        Some(rb) => {
                            let semi_tok = tok_close_semi_vec();
                            match find_sub(c, &semi_tok, rb + 1) {
                                None => None,
                                Some(e2) => {
                                    proof {
                                        lemma_find_from(c@, tok_close_semi(), rb + 1);
                                        assert(e2 + semi_tok@.len() <= clen);
                                    }
                                    Some((t, e2 + semi_tok.len()))
                                },
                            }
                        },
                    }
                },
            }
        },
    }
}


/// Every position an asset plan holds names an entry of the path list.
pub proof fn lemma_asset_plan_range(b: Seq<u8>, paths: Seq<Seq<u8>>, from: int)
    ensures
        forall|j: int|
            0 <= j < asset_plan(b, paths, from).len() ==> 0 <= #[trigger] asset_plan(
                b,
                paths,
                from,
            )[j] < paths.len(),
    decreases b.len() + 1 - from,
{
    if 0 <= from {
        lemma_asset_match(b, from);
        match asset_match(b, from) {
            None => {},
            Some(t) => {
                let src = b.subrange(t.2.0, t.2.1);
                lemma_find_containing(paths, src, 0);
                lemma_asset_plan_range(b, paths, t.1 + 1);
                let rest = asset_plan(b, paths, t.1 + 1);
                match find_containing(paths, src, 0) {
                    None => {
                        assert forall|j: int|
                            0 <= j < asset_plan(b, paths, from).len() implies 0
                            <= #[trigger] asset_plan(b, paths, from)[j] < paths.len() by {
                            assert(asset_plan(b, paths, from)[j] == rest[j]);
                        }
                    },
                    Some(k) => {
                        assert forall|j: int|
                            0 <= j < asset_plan(b, paths, from).len() implies 0
                            <= #[trigger] asset_plan(b, paths, from)[j] < paths.len() by {
                            if j > 0 {
                                assert(asset_plan(b, paths, from)[j] == rest[j - 1]);
                            }
                        }
                    },
                }
            },
        }
    }
}

/// Every position a content plan holds names an entry of the path list.
pub proof fn lemma_content_plan_range(c: Seq<u8>, paths: Seq<Seq<u8>>, from: int)
    ensures
        forall|j: int|
            0 <= j < content_plan(c, paths, from).len() ==> 0 <= #[trigger] content_plan(
                c,
                paths,
                from,
            )[j] < paths.len(),
    decreases c.len() + 1 - from,
{
    if 0 <= from {
        lemma_mani_match(c, from);
        match mani_match(c, from) {
            None => {},
            Some(t) => {
                let block = c.subrange(t.0, t.1);
                lemma_asset_plan_range(block, paths, 0);
                lemma_content_plan_range(c, paths, t.1);
                let first = asset_plan(block, paths, 0);
                let rest = content_plan(c, paths, t.1);
                assert forall|j: int|
                    0 <= j < content_plan(c, paths, from).len() implies 0 <= #[trigger] content_plan(
                    c,
                    paths,
                    from,
                )[j] < paths.len() by {
                    if j < first.len() {
                        assert(content_plan(c, paths, from)[j] == first[j]);
                    } else {
                        assert(content_plan(c, paths, from)[j] == rest[j - first.len()]);
                    }
                }
            },
        }
    }
}

fn asset_plan_rec(b: &Vec<u8>, files: &Vec<ResolvedEntry>, from: usize, acc: &mut Vec<usize>)
    ensures
        plan_view(final(acc)@) == plan_view(old(acc)@) + asset_plan(
            b@,
            rel_paths(files@),
            from as int,
        ),
    decreases b@.len() - from,
{
    match asset_match_exec(b, from) {
        None => {
            proof {
                assert(plan_view(acc@) =~= plan_view(acc@) + asset_plan(
                    b@,
                    rel_paths(files@),
                    from as int,
                ));
            }
        },
        Some(t) => {
            let blen = b.len();
            proof {
                assert(t.1 + 1 <= blen);
            }
            let mut src: Vec<u8> = Vec::new();
            push_range(&mut src, b, t.2.0, t.2.1);
            match find_containing_entry(files, &src, 0) {
                None => {
                    asset_plan_rec(b, files, t.1 + 1, acc);
                },
                Some(k) => {
                    let ghost before = acc@;
                    acc.push(k);
                    proof {
                        assert(plan_view(acc@) =~= plan_view(before) + seq![k as int]);
                    }
                    asset_plan_rec(b, files, t.1 + 1, acc);
                },
            }
        },
    }
}

fn content_plan_rec(c: &Vec<u8>, files: &Vec<ResolvedEntry>, from: usize, acc: &mut Vec<usize>)
    ensures
        plan_view(final(acc)@) == plan_view(old(acc)@) + content_plan(
            c@,
            rel_paths(files@),
            from as int,
        ),
    decreases c@.len() - from,
{
    match mani_match_exec(c, from) {
        None => {
            proof {
                assert(plan_view(acc@) =~= plan_view(acc@) + content_plan(
                    c@,
                    rel_paths(files@),
                    from as int,
                ));
            }
        },
        Some(t) => {
            let mut block: Vec<u8> = Vec::new();
            push_range(&mut block, c, t.0, t.1);
            asset_plan_rec(&block, files, 0, acc);
            content_plan_rec(c, files, t.1, acc);
            proof {
                assert(plan_view(final(acc)@) =~= plan_view(old(acc)@) + content_plan(
                    c@,
                    rel_paths(files@),
                    from as int,
                ));
            }
        },
    }
}

/// The plan of one matched content: the entries to materialize for its
/// manifest blocks, in order.
pub fn content_plan_exec(c: &Vec<u8>, files: &Vec<ResolvedEntry>) -> (r: Vec<usize>)
    ensures
        plan_view(r@) == content_plan(c@, rel_paths(files@), 0),
        forall|j: int| 0 <= j < r@.len() ==> #[trigger] r@[j] < files@.len(),
{
    let mut acc: Vec<usize> = Vec::new();
    content_plan_rec(c, files, 0, &mut acc);
    proof {
        lemma_content_plan_range(c@, rel_paths(files@), 0);
        assert forall|j: int| 0 <= j < acc@.len() implies #[trigger] acc@[j] < files@.len() by {
            assert(plan_view(acc@)[j] == acc@[j] as int);
            assert(plan_view(acc@)[j] == content_plan(c@, rel_paths(files@), 0)[j]);
        }
    }
    acc
}

fn adobe_plan_rec(doc: &Vec<u8>, files: &Vec<ResolvedEntry>, from: usize, acc: &mut Vec<usize>)
    ensures
        plan_view(final(acc)@) == plan_view(old(acc)@) + adobe_plan(
            doc@,
            rel_paths(files@),
            from as int,
        ),
    decreases doc@.len() - from,
{
    match attr_match_exec(doc, from) {
        None => {
            proof {
                assert(plan_view(acc@) =~= plan_view(acc@) + adobe_plan(
                    doc@,
                    rel_paths(files@),
                    from as int,
                ));
            }
        },
        Some(t) => {
            let dlen = doc.len();
            proof {
                assert(t.2 + 1 <= dlen);
            }
            let mut path: Vec<u8> = Vec::new();
            push_range(&mut path, doc, t.1, t.2);
            match find_containing_entry(files, &path, 0) {
                None => {
                    adobe_plan_rec(doc, files, t.2 + 1, acc);
                },
                Some(k) => {
                    let ghost before = acc@;
                    acc.push(k);
                    proof {
                        assert(plan_view(acc@) =~= plan_view(before) + seq![k as int]);
                    }
                    adobe_plan_rec(doc, files, t.2 + 1, acc);
                },
            }
        },
    }
}

/// The plan of an Adobe-AN root document: for each matched attribute, the
/// position of the entry whose content is rewritten and re-materialized.
pub fn adobe_plan_exec(doc: &Vec<u8>, files: &Vec<ResolvedEntry>) -> (r: Vec<usize>)
    ensures
        plan_view(r@) == adobe_plan(doc@, rel_paths(files@), 0),
        forall|j: int| 0 <= j < r@.len() ==> #[trigger] r@[j] < files@.len(),
{
    let mut acc: Vec<usize> = Vec::new();
    adobe_plan_rec(doc, files, 0, &mut acc);
    proof {
        lemma_adobe_plan_range(doc@, rel_paths(files@), 0);
        assert forall|j: int| 0 <= j < acc@.len() implies #[trigger] acc@[j] < files@.len() by {
            assert(plan_view(acc@)[j] == acc@[j] as int);
            assert(plan_view(acc@)[j] == adobe_plan(doc@, rel_paths(files@), 0)[j]);
        }
    }
    acc
}

fn asset_apply_rec(
    b: &Vec<u8>,
    files: &Vec<ResolvedEntry>,
    handles: &Vec<Vec<u8>>,
    hi: usize,
    from: usize,
    out: &mut Vec<u8>,
) -> (r: usize)
    requires
        from <= b@.len(),
        hi <= handles@.len(),
    ensures
        final(out)@ == old(out)@ + asset_rewrite(
            b@,
            rel_paths(files@),
            handles_view(handles@).skip(hi as int),
            from as int,
        ),
        r == hi + min_int(
            asset_plan(b@, rel_paths(files@), from as int).len() as int,
            handles@.len() - hi,
        ),
        hi <= r <= handles@.len(),
    decreases b@.len() - from,
{
    match asset_match_exec(b, from) {
        None => {
            push_range(out, b, from, b.len());
            hi
        },
        Some(t) => {
            let blen = b.len();
            proof {
                assert(t.1 + 1 <= blen);
            }
            let mut src: Vec<u8> = Vec::new();
            push_range(&mut src, b, t.2.0, t.2.1);
            match find_containing_entry(files, &src, 0) {
                None => {
                    push_range(out, b, from, t.1 + 1);
                    let r = asset_apply_rec(b, files, handles, hi, t.1 + 1, out);
                    proof {
                        assert(final(out)@ =~= old(out)@ + asset_rewrite(
                            b@,
                            rel_paths(files@),
                            handles_view(handles@).skip(hi as int),
                            from as int,
                        ));
                    }
                    r
                },
                Some(k) => {
                    if hi < handles.len() {
                        push_range(out, b, from, t.0);
                        let mut id: Vec<u8> = Vec::new();
                        push_range(&mut id, b, t.2.2, t.2.3);
                        let parts = mime_parts_for(&files[k].path);
                        let lit = build_canonical(&handles[hi], &id, &parts.1, &parts.2);
                        push_all(out, &lit);
                        proof {
                            assert(handles_view(handles@).skip(hi as int)[0] == handles@[hi as int]@);
                            assert(handles_view(handles@).skip(hi as int).drop_first()
                                =~= handles_view(handles@).skip(hi + 1));
                            assert(rel_paths(files@)[k as int] == files@[k as int].path@);
                        }
                        let r = asset_apply_rec(b, files, handles, hi + 1, t.1 + 1, out);
                        proof {
                            assert(final(out)@ =~= old(out)@ + asset_rewrite(
                                b@,
                                rel_paths(files@),
                                handles_view(handles@).skip(hi as int),
                                from as int,
                            ));
                        }
                        r
                    } else {
                        proof {
                            assert(handles_view(handles@).skip(hi as int).len() == 0);
                        }
                        push_range(out, b, from, t.1 + 1);
                        let r = asset_apply_rec(b, files, handles, hi, t.1 + 1, out);
                        proof {
                            assert(final(out)@ =~= old(out)@ + asset_rewrite(
                                b@,
                                rel_paths(files@),
                                handles_view(handles@).skip(hi as int),
                                from as int,
                            ));
                        }
                        r
                    }
                },
            }
        },
    }
}

fn content_apply_rec(
    c: &Vec<u8>,
    files: &Vec<ResolvedEntry>,
    handles: &Vec<Vec<u8>>,
    hi: usize,
    from: usize,
    out: &mut Vec<u8>,
) -> (r: usize)
    requires
        from <= c@.len(),
        hi <= handles@.len(),
    ensures
        final(out)@ == old(out)@ + content_rewrite(
            c@,
            rel_paths(files@),
            handles_view(handles@).skip(hi as int),
            from as int,
        ),
        hi <= r <= handles@.len(),
    decreases c@.len() - from,
{
    match mani_match_exec(c, from) {
        None => {
            push_range(out, c, from, c.len());
            hi
        },
        Some(t) => {
            push_range(out, c, from, t.0);
            let mut block: Vec<u8> = Vec::new();
            push_range(&mut block, c, t.0, t.1);
            let r1 = asset_apply_rec(&block, files, handles, hi, 0, out);
            proof {
                let hv = handles_view(handles@);
                let used = min_int(
                    asset_plan(block@, rel_paths(files@), 0).len() as int,
                    hv.skip(hi as int).len() as int,
                );
                assert(hv.skip(hi as int).skip(used) =~= hv.skip(r1 as int));
            }
            let r2 = content_apply_rec(c, files, handles, r1, t.1, out);
            proof {
                assert(final(out)@ =~= old(out)@ + content_rewrite(
                    c@,
                    rel_paths(files@),
                    handles_view(handles@).skip(hi as int),
                    from as int,
                ));
            }
            r2
        },
    }
}

/// Applies the manifest rewrite to one matched content, consuming one handle
/// per matched object literal.
pub fn content_apply(c: &Vec<u8>, files: &Vec<ResolvedEntry>, handles: &Vec<Vec<u8>>) -> (out: Vec<
    u8,
>)
    ensures
        out@ == content_rewrite(c@, rel_paths(files@), handles_view(handles@), 0),
{
    let mut out: Vec<u8> = Vec::new();
    proof {
        assert(handles_view(handles@).skip(0) =~= handles_view(handles@));
    }
    content_apply_rec(c, files, handles, 0, 0, &mut out);
    out
}

fn adobe_apply_rec(
    doc: &Vec<u8>,
    files: &Vec<ResolvedEntry>,
    handles: &Vec<Vec<u8>>,
    hi: usize,
    from: usize,
    out: &mut Vec<u8>,
)
    requires
        from <= doc@.len(),
        hi <= handles@.len(),
    ensures
        final(out)@ == old(out)@ + adobe_rewrite(
            doc@,
            rel_paths(files@),
            handles_view(handles@).skip(hi as int),
            from as int,
        ),
    decreases doc@.len() - from,
{
    match attr_match_exec(doc, from) {
        None => {
            push_range(out, doc, from, doc.len());
        },
        Some(t) => {
            let dlen = doc.len();
            proof {
                assert(t.2 + 1 <= dlen);
            }
            let mut path: Vec<u8> = Vec::new();
            push_range(&mut path, doc, t.1, t.2);
            match find_containing_entry(files, &path, 0) {
                None => {
                    push_range(out, doc, from, t.2 + 1);
                    adobe_apply_rec(doc, files, handles, hi, t.2 + 1, out);
                    proof {
                        assert(final(out)@ =~= old(out)@ + adobe_rewrite(
                            doc@,
                            rel_paths(files@),
                            handles_view(handles@).skip(hi as int),
                            from as int,
                        ));
                    }
                },
                Some(k) => {
                    if hi < handles.len() {
                        push_range(out, doc, from, t.1);
                        push_all(out, &handles[hi]);
                        let quote_tok = tok_quote_vec();
                        push_all(out, &quote_tok);
                        proof {
                            assert(handles_view(handles@).skip(hi as int)[0] == handles@[hi as int]@);
                            assert(handles_view(handles@).skip(hi as int).drop_first()
                                =~= handles_view(handles@).skip(hi + 1));
                        }
                        adobe_apply_rec(doc, files, handles, hi + 1, t.2 + 1, out);
                        proof {
                            assert(final(out)@ =~= old(out)@ + adobe_rewrite(
                                doc@,
                                rel_paths(files@),
                                handles_view(handles@).skip(hi as int),
                                from as int,
                            ));
                        }
                    } else {
                        proof {
                            assert(handles_view(handles@).skip(hi as int).len() == 0);
                        }
                        push_range(out, doc, from, t.2 + 1);
                        adobe_apply_rec(doc, files, handles, hi, t.2 + 1, out);
                        proof {
                            assert(final(out)@ =~= old(out)@ + adobe_rewrite(
                                doc@,
                                rel_paths(files@),
                                handles_view(handles@).skip(hi as int),
                                from as int,
                            ));
                        }
                    }
                },
            }
        },
    }
}

/// Applies the attribute rewrite to the root document, one handle per
/// matched attribute.
pub fn adobe_apply(doc: &Vec<u8>, files: &Vec<ResolvedEntry>, handles: &Vec<Vec<u8>>) -> (out: Vec<
    u8,
>)
    ensures
        out@ == adobe_rewrite(doc@, rel_paths(files@), handles_view(handles@), 0),
{
    let mut out: Vec<u8> = Vec::new();
    proof {
        assert(handles_view(handles@).skip(0) =~= handles_view(handles@));
    }
    adobe_apply_rec(doc, files, handles, 0, 0, &mut out);
    out
}


/// True when every entry the Adobe rewrite needs can be read: each matched
/// attribute's entry, and every asset its manifest blocks reference.
pub open spec fn adobe_reads_ok(
    doc: Seq<u8>,
    entries: Seq<(int, Seq<u8>)>,
    data: Seq<Option<Seq<u8>>>,
) -> bool {
    let plan = adobe_plan(doc, pair_paths(entries), 0);
    forall|j: int|
        0 <= j < plan.len() ==> entry_read_ok(#[trigger] plan[j], entries, data) && (
        data[entries[plan[j]].0] matches Some(c) ==> plan_reads_ok(
            content_plan(c, pair_paths(entries), 0),
            entries,
            data,
        ))
}

fn manifest_collect(
    zip: &mut zip::ZipArchive<Cursor<Vec<u8>>>,
    files: &Vec<ResolvedEntry>,
    plan: &Vec<usize>,
) -> (r: Result<Vec<Vec<u8>>, BundleError>)
    requires
        forall|j: int| 0 <= j < plan@.len() ==> #[trigger] plan@[j] < files@.len(),
    ensures
        archive_names(*final(zip)) == archive_names(*old(zip)),
        archive_data(*final(zip)) == archive_data(*old(zip)),
        r is Ok <==> plan_reads_ok(
            plan_view(plan@),
            crate::resolve::resolved_view(files@),
            archive_data(*old(zip)),
        ),
        r matches Ok(h) ==> h@.len() == plan@.len(),
        r matches Err(e) ==> e == BundleError::EntryUnreadable,
{
    let mut out: Vec<Vec<u8>> = Vec::new();
    let mut j: usize = 0;
    while j < plan.len()
        invariant
            j <= plan@.len(),
            out@.len() == j,
            forall|i: int| 0 <= i < plan@.len() ==> #[trigger] plan@[i] < files@.len(),
            archive_names(*zip) == archive_names(*old(zip)),
            archive_data(*zip) == archive_data(*old(zip)),
            forall|i: int|
                0 <= i < j ==> entry_read_ok(
                    #[trigger] plan_view(plan@)[i],
                    crate::resolve::resolved_view(files@),
                    archive_data(*old(zip)),
                ),
        decreases plan@.len() - j,
    {
        let pos = plan[j];
        let bytes = match get_binary_from_zipfile(zip, files[pos].index) {
            Ok(b) => b,
            Err(e) => {
                proof {
                    let jj = j as int;
                    let p = plan_view(plan@)[jj];
                    let ev = crate::resolve::resolved_view(files@);
                    if plan_reads_ok(plan_view(plan@), ev, archive_data(*old(zip))) {
                        assert(entry_read_ok(p, ev, archive_data(*old(zip))));
                        assert(false);
                    }
                }
                return Err(e);
            },
        };
        let parts = mime_parts_for(&files[pos].path);
        let handle = materialize_handle_bytes(bytes, &parts.0);
        out.push(handle);
        j += 1;
    }
    Ok(out)
}

/// Rewrites an Adobe-AN root document and materializes the result as
/// `text/html`, returning its handle. Succeeds exactly when every matched
/// entry and every manifest asset it references can be read from the
/// archive.
pub fn parse_adobe_an(
    html: &Vec<u8>,
    zip: &mut zip::ZipArchive<Cursor<Vec<u8>>>,
    files: &Vec<ResolvedEntry>,
) -> (r: Result<String, BundleError>)
    ensures
        archive_names(*final(zip)) == archive_names(*old(zip)),
        archive_data(*final(zip)) == archive_data(*old(zip)),
        r is Ok <==> adobe_reads_ok(
            html@,
            crate::resolve::resolved_view(files@),
            archive_data(*old(zip)),
        ),
        r matches Err(e) ==> e == BundleError::EntryUnreadable,
        r matches Ok(u) ==> u@.len() > 0,
{
    let ghost data = archive_data(*old(zip));
    let ghost ev = crate::resolve::resolved_view(files@);
    proof {
        assert(rel_paths(files@) =~= pair_paths(ev));
    }
    let ghost plan_spec = adobe_plan(html@, rel_paths(files@), 0);
    let plan = adobe_plan_exec(html, files);
    let mut content_handles: Vec<Vec<u8>> = Vec::new();
    let mut j: usize = 0;
    while j < plan.len()
        invariant
            j <= plan@.len(),
            content_handles@.len() == j,
            plan_view(plan@) == plan_spec,
            plan_spec == adobe_plan(html@, rel_paths(files@), 0),
            ev == crate::resolve::resolved_view(files@),
            rel_paths(files@) == pair_paths(ev),
            forall|i: int| 0 <= i < plan@.len() ==> #[trigger] plan@[i] < files@.len(),
            archive_names(*zip) == archive_names(*old(zip)),
            archive_data(*zip) == archive_data(*old(zip)),
            data == archive_data(*old(zip)),
            forall|i: int|
                0 <= i < j ==> entry_read_ok(#[trigger] plan_spec[i], ev, data) && (
                data[ev[plan_spec[i]].0] matches Some(c) ==> plan_reads_ok(
                    content_plan(c, pair_paths(ev), 0),
                    ev,
                    data,
                )),
        decreases plan@.len() - j,
    {
        let pos = plan[j];
        let content = match get_binary_from_zipfile(zip, files[pos].index) {
            Ok(b) => b,
            Err(_) => {
                proof {
                    let jj = j as int;
                    if adobe_reads_ok(html@, ev, data) {
                        assert(entry_read_ok(plan_spec[jj], ev, data));
                        assert(false);
                    }
                }
                return Err(BundleError::EntryUnreadable);
            },
        };
        let cplan = content_plan_exec(&content, files);
        let inner = match manifest_collect(zip, files, &cplan) {
            Ok(h) => h,
            Err(e) => {
                proof {
                    let jj = j as int;
                    if adobe_reads_ok(html@, ev, data) {
                        assert(entry_read_ok(plan_spec[jj], ev, data));
                        assert(data[ev[plan_spec[jj]].0] == Some(content@));
                        assert(plan_reads_ok(content_plan(content@, pair_paths(ev), 0), ev, data));
                        assert(false);
                    }
                }
                return Err(e);
            },
        };
        let new_content = content_apply(&content, files, &inner);
        let parts = mime_parts_for(&files[pos].path);
        let ch = materialize_handle_bytes(new_content, &parts.0);
        content_handles.push(ch);
        j += 1;
    }
    let out = adobe_apply(html, files, &content_handles);
    let html_mime: Vec<u8> = vec![
        116u8,
        101u8,
        120u8,
        116u8,
        47u8,
        104u8,
        116u8,
        109u8,
        108u8,
    ];
    Ok(create_object_url(out, &html_mime))
}

/// Identity rewrite: a root document whose plan is empty comes out
/// unchanged.
pub proof fn lemma_adobe_identity(
    doc: Seq<u8>,
    paths: Seq<Seq<u8>>,
    handles: Seq<Seq<u8>>,
    from: int,
)
    requires
        0 <= from <= doc.len(),
        adobe_plan(doc, paths, from) == Seq::<int>::empty(),
    ensures
        adobe_rewrite(doc, paths, handles, from) == doc.subrange(from, doc.len() as int),
    decreases doc.len() + 1 - from,
{
    lemma_attr_match(doc, from);
    match attr_match(doc, from) {
        None => {},
        Some(t) => {
            let path = doc.subrange(t.1, t.2);
            match find_containing(paths, path, 0) {
                None => {
                    lemma_adobe_identity(doc, paths, handles, t.2 + 1);
                    assert(doc.subrange(from, t.2 + 1) + doc.subrange(t.2 + 1, doc.len() as int)
                        =~= doc.subrange(from, doc.len() as int));
                },
                Some(k) => {
                    assert(adobe_plan(doc, paths, from).len() > 0);
                },
            }
        },
    }
}

/// A matched manifest object literal is replaced by exactly the canonical
/// four-field literal: a fresh handle, the unchanged `id` value, and the
/// major and minor parts of the MIME type inferred from the matched entry's
/// path.
pub proof fn lemma_asset_replaced_step(
    b: Seq<u8>,
    paths: Seq<Seq<u8>>,
    handles: Seq<Seq<u8>>,
    from: int,
    ob: int,
    cb: int,
    f: (int, int, int, int),
)
    requires
        0 <= from <= b.len(),
        asset_match(b, from) == Some((ob, cb, f)),
        find_containing(paths, b.subrange(f.0, f.1), 0) is Some,
        handles.len() > 0,
    ensures
        ({
            let k = find_containing(paths, b.subrange(f.0, f.1), 0)->Some_0;
            asset_rewrite(b, paths, handles, from) == b.subrange(from, ob) + canonical4(
                handles[0],
                b.subrange(f.2, f.3),
                mime_major(mime_tp_of(paths[k])),
                mime_minor(mime_tp_of(paths[k])),
            ) + asset_rewrite(b, paths, handles.drop_first(), cb + 1)
        }),
{
}

/// A manifest object literal whose `src` value matches no resolved entry
/// passes through byte for byte.
pub proof fn lemma_asset_unmatched_step(
    b: Seq<u8>,
    paths: Seq<Seq<u8>>,
    handles: Seq<Seq<u8>>,
    from: int,
    ob: int,
    cb: int,
    f: (int, int, int, int),
)
    requires
        0 <= from <= b.len(),
        asset_match(b, from) == Some((ob, cb, f)),
        find_containing(paths, b.subrange(f.0, f.1), 0) is None,
    ensures
        asset_rewrite(b, paths, handles, from) == b.subrange(from, cb + 1) + asset_rewrite(
            b,
            paths,
            handles,
            cb + 1,
        ),
{
}

} // verus!
