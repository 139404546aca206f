//! Byte-level substring search and replacement, the textual core that both
//! rewriters build on.

use vstd::prelude::*;

verus! {

/// True when needle `n` occurs in `h` starting at position `i`.
pub open spec fn is_match_at(h: Seq<u8>, n: Seq<u8>, i: int) -> bool {
    &&& 0 <= i
    &&& i + n.len() <= h.len()
    &&& h.subrange(i, i + n.len() as int) == n
}

/// Position of the first occurrence of `n` in `h` at or after `from`.
pub open spec fn find_from(h: Seq<u8>, n: Seq<u8>, from: int) -> Option<int>
    decreases h.len() + 1 - from,
{
    if from < 0 || from + n.len() > h.len() {
        None
    } else if is_match_at(h, n, from) {
        Some(from)
    } else {
        find_from(h, n, from + 1)
    }
}

/// What a `find_from` answer means: a `Some` is the leftmost match at or
/// after `from`, a `None` excludes any match there.
pub proof fn lemma_find_from(h: Seq<u8>, n: Seq<u8>, from: int)
    requires
        0 <= from,
    ensures
        match find_from(h, n, from) {
            Some(m) => from <= m && is_match_at(h, n, m) && forall|j: int|
                from <= j < m ==> !is_match_at(h, n, j),
            None => forall|j: int| from <= j ==> !is_match_at(h, n, j),
        },
    decreases h.len() + 1 - from,
{
    if from + n.len() > h.len() {
        assert forall|j: int| from <= j implies !is_match_at(h, n, j) by {
            assert(j + n.len() >= from + n.len());
        }
    } else if is_match_at(h, n, from) {
    } else {
        lemma_find_from(h, n, from + 1);
    }
}

/// True when `n` occurs somewhere in `h`.
pub open spec fn contains_seq(h: Seq<u8>, n: Seq<u8>) -> bool {
    find_from(h, n, 0) is Some
}

/// True when `h` ends with `s`.
pub open spec fn ends_with_seq(h: Seq<u8>, s: Seq<u8>) -> bool {
    s.len() <= h.len() && h.subrange(h.len() - s.len(), h.len() as int) == s
}

/// Compares `h[i .. i + n.len())` with `n`.
pub fn match_at(h: &Vec<u8>, n: &Vec<u8>, i: usize) -> (r: bool)
    requires
        i + n@.len() <= h@.len(),
    ensures
        r == is_match_at(h@, n@, i as int),
{
    let ghost hs = h@;
    let ghost ns = n@;
    let hlen = h.len();
    let mut j: usize = 0;
    while j < n.len()
        invariant
            j <= ns.len(),
            i + ns.len() <= hs.len(),
            hlen == hs.len(),
            h@ == hs,
            n@ == ns,
            forall|k: int| 0 <= k < j ==> hs[i + k] == ns[k],
        decreases ns.len() - j,
    {
        if h[i + j] != n[j] {
            proof {
                assert(hs.subrange(i as int, i + ns.len() as int)[j as int] == hs[i + j]);
            }
            return false;
        }
        j += 1;
    }
    proof {
        assert(hs.subrange(i as int, i + ns.len() as int) =~= ns);
    }
    true
}

/// Leftmost occurrence of `n` in `h` at or after `from`, as `find_from` gives
/// it.
pub fn find_sub(h: &Vec<u8>, n: &Vec<u8>, from: usize) -> (r: Option<usize>)
    ensures
        match r {
            Some(m) => find_from(h@, n@, from as int) == Some(m as int),
            None => find_from(h@, n@, from as int) is None,
        },
{
    if n.len() > h.len() {
        return None;
    }
    let mut i: usize = from;
    if i > h.len() - n.len() {
        return None;
    }
    loop
        invariant
            from <= i,
            i + n@.len() <= h@.len(),
            find_from(h@, n@, from as int) == find_from(h@, n@, i as int),
        decreases h@.len() - i,
    {
        if match_at(h, n, i) {
            return Some(i);
        }
        if h.len() - i == n.len() {
            proof {
                assert(find_from(h@, n@, i + 1) is None);
            }
            return None;
        }
        i += 1;
    }
}

/// True when `n` occurs somewhere in `h`.
pub fn contains_sub(h: &Vec<u8>, n: &Vec<u8>) -> (r: bool)
    ensures
        r == contains_seq(h@, n@),
{
    find_sub(h, n, 0).is_some()
}

/// True when the two byte vectors hold the same bytes.
pub fn eq_vec(a: &Vec<u8>, b: &Vec<u8>) -> (r: bool)
    ensures
        r == (a@ == b@),
{
    if a.len() != b.len() {
        return false;
    }
    let r = match_at(a, b, 0);
    proof {
        if r {
            assert(a@.subrange(0, b@.len() as int) =~= a@);
        } else {
            if a@ == b@ {
                assert(a@.subrange(0, b@.len() as int) =~= b@);
            }
        }
    }
    r
}

/// True when `h` ends with `s`.
pub fn ends_with(h: &Vec<u8>, s: &Vec<u8>) -> (r: bool)
    ensures
        r == ends_with_seq(h@, s@),
{
    if s.len() > h.len() {
        return false;
    }
    match_at(h, s, h.len() - s.len())
}

/// Appends `src[from .. to)` to `out`.
pub fn push_range(out: &mut Vec<u8>, src: &Vec<u8>, from: usize, to: usize)
    requires
        from <= to <= src@.len(),
    ensures
        final(out)@ == old(out)@ + src@.subrange(from as int, to as int),
{
    let mut i: usize = from;
    while i < to
        invariant
            from <= i <= to <= src@.len(),
            out@ == old(out)@ + src@.subrange(from as int, i as int),
        decreases to - i,
    {
        out.push(src[i]);
        i += 1;
        proof {
            assert(out@ =~= old(out)@ + src@.subrange(from as int, i as int));
        }
    }
}

/// Appends all of `src` to `out`.
pub fn push_all(out: &mut Vec<u8>, src: &Vec<u8>)
    ensures
        final(out)@ == old(out)@ + src@,
{
    push_range(out, src, 0, src.len());
    proof {
        assert(src@.subrange(0, src@.len() as int) =~= src@);
    }
}

/// `h[from ..)` with every occurrence of `n` replaced by `r`; an empty
/// needle replaces nothing.
pub open spec fn replace_from(h: Seq<u8>, n: Seq<u8>, r: Seq<u8>, from: int) -> Seq<u8>
    decreases h.len() - from,
    via replace_from_dec
{
    if from < 0 || from > h.len() || n.len() == 0 {
        h.subrange(if 0 <= from <= h.len() {
            from
        } else {
            0
        }, h.len() as int)
    } else {
        match find_from(h, n, from) {
            None => h.subrange(from, h.len() as int),
            Some(m) => h.subrange(from, m) + r + replace_from(h, n, r, m + n.len()),
        }
    }
}

#[via_fn]
proof fn replace_from_dec(h: Seq<u8>, n: Seq<u8>, r: Seq<u8>, from: int) {
    if 0 <= from <= h.len() && n.len() > 0 {
        lemma_find_from(h, n, from);
    }
}

/// Every occurrence of `n` in `h` replaced by `r`.
pub open spec fn replace_seq(h: Seq<u8>, n: Seq<u8>, r: Seq<u8>) -> Seq<u8> {
    replace_from(h, n, r, 0)
}

fn replace_into(h: &Vec<u8>, n: &Vec<u8>, r: &Vec<u8>, from: usize, out: &mut Vec<u8>)
    requires
        from <= h@.len(),
    ensures
        final(out)@ == old(out)@ + replace_from(h@, n@, r@, from as int),
    decreases h@.len() - from,
{
    if n.len() == 0 {
        push_range(out, h, from, h.len());
        return ;
    }
    match find_sub(h, n, from) {
        None => {
            push_range(out, h, from, h.len());
        },
        Some(m) => {
            let hlen = h.len();
            proof {
                lemma_find_from(h@, n@, from as int);
                assert(m + n@.len() <= hlen);
            }
            push_range(out, h, from, m);
            push_all(out, r);
            replace_into(h, n, r, m + n.len(), out);
            proof {
                assert(out@ =~= old(out)@ + replace_from(h@, n@, r@, from as int));
            }
        },
    }
}

/// Every occurrence of `n` in `h` replaced by `r`.
pub fn replace_all(h: &Vec<u8>, n: &Vec<u8>, r: &Vec<u8>) -> (out: Vec<u8>)
    ensures
        out@ == replace_seq(h@, n@, r@),
{
    let mut out: Vec<u8> = Vec::new();
    replace_into(h, n, r, 0, &mut out);
    out
}

/// If `n` occurs exactly once in `h`, at `p`, then replacement changes
/// nothing outside that one occurrence.
pub proof fn lemma_replace_single(h: Seq<u8>, n: Seq<u8>, r: Seq<u8>, p: int)
    requires
        n.len() > 0,
        is_match_at(h, n, p),
        forall|j: int| 0 <= j && j != p ==> !is_match_at(h, n, j),
    ensures
        replace_seq(h, n, r) == h.subrange(0, p) + r + h.subrange(
            p + n.len(),
            h.len() as int,
        ),
{
    lemma_find_from(h, n, 0);
    assert(find_from(h, n, 0) == Some(p));
    lemma_find_from(h, n, p + n.len());
    assert(find_from(h, n, p + n.len()) is None);
    assert(replace_from(h, n, r, p + n.len()) == h.subrange(p + n.len(), h.len() as int));
}

} // verus!
