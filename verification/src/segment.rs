//! The tag-segment extractor: scans a document for regions that begin on a
//! line of their own with `<Name>` and run through the matching `</Name>`,
//! or to the end of the document when the closing tag never appears.

use vstd::prelude::*;

use crate::text::{
    find_from, find_sub_from, is_space, is_word, lemma_find_from_spec, lemma_word_end,
    lemma_ws_end, push_all, scan_word, scan_ws, subvec, word_end, ws_end,
};

verus! {

/// A segment opens at `p`: a newline, then optional whitespace, then `<`,
/// a nonempty tag name, and `>`.
pub open spec fn open_match_at(s: Seq<char>, p: int) -> bool {
    &&& 0 <= p < s.len()
    &&& s[p] == '\n'
    &&& {
        let m = ws_end(s, p + 1);
        &&& m < s.len()
        &&& s[m] == '<'
        &&& {
            let k = word_end(s, m + 1);
            &&& k > m + 1
            &&& k < s.len()
            &&& s[k] == '>'
        }
    }
}

/// The first position at or after `from` where a segment opens.
pub open spec fn seg_open(s: Seq<char>, from: int) -> Option<int>
    decreases s.len() - from,
{
    if from < 0 || from >= s.len() {
        None
    } else if open_match_at(s, from) {
        Some(from)
    } else {
        seg_open(s, from + 1)
    }
}

pub proof fn lemma_seg_open_spec(s: Seq<char>, from: int)
    requires
        0 <= from,
    ensures
        match seg_open(s, from) {
            Some(p) => from <= p && open_match_at(s, p) && forall|q: int|
                from <= q < p ==> !open_match_at(s, q),
            None => forall|q: int| from <= q ==> !open_match_at(s, q),
        },
    decreases s.len() - from,
{
    if from >= s.len() {
    } else if open_match_at(s, from) {
    } else {
        lemma_seg_open_spec(s, from + 1);
    }
}

/// Position of the `<` of the opening tag for a segment that opens at `p`.
pub open spec fn seg_tag_start(s: Seq<char>, p: int) -> int {
    ws_end(s, p + 1)
}

/// Position just past the tag name of the opening tag.
pub open spec fn seg_name_end(s: Seq<char>, p: int) -> int {
    word_end(s, seg_tag_start(s, p) + 1)
}

/// The closing tag text `</Name>` for the segment that opens at `p`.
pub open spec fn seg_close_pat(s: Seq<char>, p: int) -> Seq<char> {
    seq!['<', '/'] + s.subrange(seg_tag_start(s, p) + 1, seg_name_end(s, p)) + seq!['>']
}

/// One past the end of the segment that opens at `p`: the end of the first
/// `</Name>` at or after the opening tag, or the end of the document.
pub open spec fn seg_end(s: Seq<char>, p: int) -> int {
    match find_from(s, seg_close_pat(s, p), seg_tag_start(s, p)) {
        Some(c) => c + seg_close_pat(s, p).len(),
        None => s.len() as int,
    }
}

pub proof fn lemma_seg_bounds(s: Seq<char>, p: int)
    requires
        open_match_at(s, p),
    ensures
        p + 1 <= seg_tag_start(s, p) < s.len(),
        seg_tag_start(s, p) < seg_end(s, p) <= s.len(),
{
    lemma_ws_end(s, p + 1);
    lemma_word_end(s, seg_tag_start(s, p) + 1);
    lemma_find_from_spec(s, seg_close_pat(s, p), seg_tag_start(s, p));
    match find_from(s, seg_close_pat(s, p), seg_tag_start(s, p)) {
        Some(c) => {
            assert(seg_close_pat(s, p).len() >= 3);
        },
        None => {},
    }
}

/// Rewrite every segment of `s` from position `from` on: the text outside
/// segments is kept verbatim, and each segment `seg` becomes `g(seg)` when
/// that is `Some`, or stays unchanged when it is `None`.
pub open spec fn rewrite_from(
    s: Seq<char>,
    from: int,
    g: spec_fn(Seq<char>) -> Option<Seq<char>>,
) -> Seq<char>
    decreases s.len() - from,
{
    if from < 0 || from > s.len() {
        Seq::empty()
    } else {
        match seg_open(s, from) {
            None => s.subrange(from, s.len() as int),
            Some(p) => {
                proof {
                    lemma_seg_open_spec(s, from);
                    lemma_seg_bounds(s, p);
                }
                let m = seg_tag_start(s, p);
                let e = seg_end(s, p);
                let seg = s.subrange(m, e);
                s.subrange(from, m) + (match g(seg) {
                    Some(r) => r,
                    None => seg,
                }) + rewrite_from(s, e, g)
            },
        }
    }
}

/// Rewrite every segment of `s`.
pub open spec fn rewrite_segments(s: Seq<char>, g: spec_fn(Seq<char>) -> Option<Seq<char>>) -> Seq<
    char,
> {
    rewrite_from(s, 0, g)
}

/// Rewrite the segments of `s` against an explicit replacement list: the
/// k-th segment is replaced by the k-th entry when that is `Some`, and kept
/// when it is `None` or the list is exhausted.
pub open spec fn rewrite_with_reps(
    s: Seq<char>,
    from: int,
    reps: Seq<Option<Seq<char>>>,
) -> Seq<char>
    decreases s.len() - from,
{
    if from < 0 || from > s.len() {
        Seq::empty()
    } else {
        match seg_open(s, from) {
            None => s.subrange(from, s.len() as int),
            Some(p) => {
                proof {
                    lemma_seg_open_spec(s, from);
                    lemma_seg_bounds(s, p);
                }
                let m = seg_tag_start(s, p);
                let e = seg_end(s, p);
                let seg = s.subrange(m, e);
                let cur = if reps.len() > 0 {
                    reps[0]
                } else {
                    None
                };
                s.subrange(from, m) + (match cur {
                    Some(r) => r,
                    None => seg,
                }) + rewrite_with_reps(
                    s,
                    e,
                    if reps.len() > 0 {
                        reps.drop_first()
                    } else {
                        reps
                    },
                )
            },
        }
    }
}

/// A rewrite in which every listed replacement declines reproduces the
/// document: each segment keeps its own text, and the pieces reassemble.
pub proof fn lemma_rewrite_with_reps_id(s: Seq<char>, from: int, reps: Seq<Option<Seq<char>>>)
    requires
        0 <= from <= s.len(),
        forall|k: int| 0 <= k < reps.len() ==> reps[k] is None,
    ensures
        rewrite_with_reps(s, from, reps) == s.subrange(from, s.len() as int),
    decreases s.len() - from,
{
    match seg_open(s, from) {
        None => {},
        Some(p) => {
            lemma_seg_open_spec(s, from);
            lemma_seg_bounds(s, p);
            let e = seg_end(s, p);
            let reps2 = if reps.len() > 0 {
                reps.drop_first()
            } else {
                reps
            };
            assert forall|k: int| 0 <= k < reps2.len() implies reps2[k] is None by {
                if reps.len() > 0 {
                    assert(reps2[k] == reps[k + 1]);
                }
            }
            lemma_rewrite_with_reps_id(s, e, reps2);
            assert(rewrite_with_reps(s, from, reps) =~= s.subrange(from, s.len() as int));
        },
    }
}

/// The texts of the segments of `s` at or after `from`, in order.
pub open spec fn seg_texts(s: Seq<char>, from: int) -> Seq<Seq<char>>
    decreases s.len() - from,
{
    if from < 0 || from > s.len() {
        Seq::empty()
    } else {
        match seg_open(s, from) {
            None => Seq::empty(),
            Some(p) => {
                proof {
                    lemma_seg_open_spec(s, from);
                    lemma_seg_bounds(s, p);
                }
                seq![s.subrange(seg_tag_start(s, p), seg_end(s, p))] + seg_texts(s, seg_end(s, p))
            },
        }
    }
}

/// Find the next segment opening at or after `from`; returns the positions of
/// the opening tag's `<`, of the end of its name, and of the segment's end.
pub fn find_seg_open(v: &Vec<char>, from: usize) -> (r: Option<(usize, usize, usize)>)
    requires
        from <= v@.len(),
    ensures
        match r {
            Some((p, m, k)) => {
                &&& seg_open(v@, from as int) == Some(p as int)
                &&& m as int == seg_tag_start(v@, p as int)
                &&& k as int == seg_name_end(v@, p as int)
                &&& from <= p && p + 1 <= m && m + 1 < k && k < v@.len()
            },
            None => seg_open(v@, from as int) is None,
        },
{
    let mut p: usize = from;
    while p < v.len()
        invariant
            from <= p <= v@.len(),
            seg_open(v@, from as int) == seg_open(v@, p as int),
        decreases v@.len() - p,
    {
        if v[p] == '\n' {
            let m = scan_ws(v, p + 1);
            if m < v.len() && v[m] == '<' {
                let k = scan_word(v, m + 1);
                if k > m + 1 && k < v.len() && v[k] == '>' {
                    assert(open_match_at(v@, p as int));
                    return Some((p, m, k));
                }
            }
        }
        assert(!open_match_at(v@, p as int));
        p += 1;
    }
    None
}

/// Compute the end of the segment whose opening tag spans `[m, k]`.
pub fn find_seg_end(v: &Vec<char>, p: usize, m: usize, k: usize) -> (e: usize)
    requires
        open_match_at(v@, p as int),
        m as int == seg_tag_start(v@, p as int),
        k as int == seg_name_end(v@, p as int),
    ensures
        e as int == seg_end(v@, p as int),
        m < e <= v@.len(),
{
    proof {
        lemma_seg_bounds(v@, p as int);
        lemma_ws_end(v@, p + 1);
        lemma_word_end(v@, m + 1);
    }
    let mut pat: Vec<char> = Vec::new();
    pat.push('<');
    pat.push('/');
    let name = subvec(v, m + 1, k);
    push_all(&mut pat, &name);
    pat.push('>');
    assert(pat@ =~= seg_close_pat(v@, p as int));
    match find_sub_from(v, &pat, m) {
        Some(c) => {
            proof {
                lemma_find_from_spec(v@, pat@, m as int);
            }
            let n = v.len();
            assert(c + pat@.len() <= n);
            c + pat.len()
        },
        None => v.len(),
    }
}

/// Apply a transform to every segment of `v`, left to right: text outside
/// segments is copied verbatim, a segment is replaced by `f`'s result when
/// that is `Some` and kept otherwise. `g` is the specification-level shadow
/// of `f`.
pub(crate) fn rewrite_segments_with<F: Fn(&Vec<char>) -> Option<Vec<char>>>(
    v: &Vec<char>,
    f: F,
    Ghost(g): Ghost<spec_fn(Seq<char>) -> Option<Seq<char>>>,
) -> (out: Vec<char>)
    requires
        forall|x: &Vec<char>| #[trigger] call_requires(f, (x,)),
        forall|x: &Vec<char>, y: Option<Vec<char>>| #[trigger] call_ensures(f, (x,), y)
            ==> match y {
                Some(r) => g(x@) == Some(r@),
                None => g(x@) is None,
            },
    ensures
        out@ == rewrite_segments(v@, g),
{
    let mut out: Vec<char> = Vec::new();
    let mut pos: usize = 0;
    let mut nxt = find_seg_open(v, 0);
    while nxt.is_some()
        invariant
            pos <= v@.len(),
            forall|x: &Vec<char>| #[trigger] call_requires(f, (x,)),
            forall|x: &Vec<char>, y: Option<Vec<char>>| #[trigger] call_ensures(f, (x,), y)
                ==> match y {
                    Some(r) => g(x@) == Some(r@),
                    None => g(x@) is None,
                },
            match nxt {
                Some((p, m, k)) => {
                    &&& seg_open(v@, pos as int) == Some(p as int)
                    &&& m as int == seg_tag_start(v@, p as int)
                    &&& k as int == seg_name_end(v@, p as int)
                    &&& pos <= p && p + 1 <= m && m + 1 < k && k < v@.len()
                },
                None => seg_open(v@, pos as int) is None,
            },
            rewrite_segments(v@, g) == out@ + rewrite_from(v@, pos as int, g),
        decreases v@.len() - pos,
    {
        let (p, m, k) = nxt.unwrap();
        proof {
            lemma_seg_open_spec(v@, pos as int);
        }
        let e = find_seg_end(v, p, m, k);
        let ghost prev_out = out@;
        let pre = subvec(v, pos, m);
        push_all(&mut out, &pre);
        let seg = subvec(v, m, e);
        let res = f(&seg);
        match res {
            Some(r) => {
                push_all(&mut out, &r);
                assert(g(seg@) == Some(r@));
            },
            None => {
                push_all(&mut out, &seg);
                assert(g(seg@) is None);
            },
        }
        proof {
            assert(rewrite_from(v@, pos as int, g) == v@.subrange(pos as int, m as int) + (match g(
                seg@,
            ) {
                Some(r) => r,
                None => seg@,
            }) + rewrite_from(v@, e as int, g));
            assert(rewrite_segments(v@, g) =~= out@ + rewrite_from(v@, e as int, g));
        }
        pos = e;
        nxt = find_seg_open(v, pos);
    }
    let tail = subvec(v, pos, v.len());
    push_all(&mut out, &tail);
    assert(out@ =~= rewrite_segments(v@, g));
    out
}

} // verus!
