//! The escape fix-up and tag repair pass over one tagged segment: normalizes
//! the escaping of the inner code payload, drops a trailing half-written tag,
//! and appends missing closing tags in their fixed nesting order.

use vstd::prelude::*;

use crate::escape::{normalize3, normalize_entities};
use crate::text::{
    chars_of, contains_seq, contains_sub, find_from, find_sub_from, lemma_find_from_spec,
    lemma_ws_end, matches_at, occurs_at, push_all, scan_ws, subvec, ws_end,
};

verus! {

pub open spec fn quoted_open() -> Seq<char> {
    "<QuotedCode>"@
}

pub open spec fn generated_open() -> Seq<char> {
    "<GeneratedCode>"@
}

pub open spec fn code_open() -> Seq<char> {
    "<Code>"@
}

pub open spec fn code_close() -> Seq<char> {
    "</Code>"@
}

/// The segment's text begins, after leading whitespace, with `<`.
pub open spec fn starts_tagged(x: Seq<char>) -> bool {
    let t = ws_end(x, 0);
    t < x.len() && x[t] == '<'
}

/// Length of whichever outer opening tag occurs at `i`.
pub open spec fn outer_tag_len(x: Seq<char>, i: int) -> int {
    if occurs_at(x, quoted_open(), i) {
        quoted_open().len() as int
    } else {
        generated_open().len() as int
    }
}

/// An outer opening tag at `i`, then whitespace, then `<Code>`.
pub open spec fn code_match_at(x: Seq<char>, i: int) -> bool {
    &&& (occurs_at(x, quoted_open(), i) || occurs_at(x, generated_open(), i))
    &&& occurs_at(x, code_open(), ws_end(x, i + outer_tag_len(x, i)))
}

/// The first position at or after `from` where the pattern above matches.
pub open spec fn find_code_match(x: Seq<char>, from: int) -> Option<int>
    decreases x.len() - from,
{
    if from < 0 || from >= x.len() {
        None
    } else if code_match_at(x, from) {
        Some(from)
    } else {
        find_code_match(x, from + 1)
    }
}

pub proof fn lemma_find_code_match_spec(x: Seq<char>, from: int)
    requires
        0 <= from,
    ensures
        match find_code_match(x, from) {
            Some(i) => from <= i && code_match_at(x, i),
            None => forall|q: int| from <= q ==> !code_match_at(x, q),
        },
    decreases x.len() - from,
{
    if from >= x.len() {
        reveal_strlit("<QuotedCode>");
        reveal_strlit("<GeneratedCode>");
        assert forall|q: int| from <= q implies !code_match_at(x, q) by {
            assert(quoted_open().len() > 0);
            assert(generated_open().len() > 0);
        }
    } else if code_match_at(x, from) {
    } else {
        lemma_find_code_match_spec(x, from + 1);
    }
}

/// The start of the code payload for a match at `i`: just past the `<Code>`.
pub open spec fn payload_start(x: Seq<char>, i: int) -> int {
    ws_end(x, i + outer_tag_len(x, i)) + code_open().len()
}

/// Some character after position `i` is `>`.
pub open spec fn has_gt_after(b: Seq<char>, i: int) -> bool {
    exists|j: int| i < j < b.len() && b[j] == '>'
}

/// The first `<` at or after `from` that is never followed by a `>`.
pub open spec fn first_unclosed(b: Seq<char>, from: int) -> Option<int>
    decreases b.len() - from,
{
    if from < 0 || from >= b.len() {
        None
    } else if b[from] == '<' && !has_gt_after(b, from) {
        Some(from)
    } else {
        first_unclosed(b, from + 1)
    }
}

/// Remove a trailing half-written tag: everything from the first `<` that is
/// never closed by a `>`.
pub open spec fn strip_partial(b: Seq<char>) -> Seq<char> {
    match first_unclosed(b, 0) {
        Some(i) => b.subrange(0, i),
        None => b,
    }
}

pub open spec fn open_of(n: Seq<char>) -> Seq<char> {
    seq!['<'] + n + seq!['>']
}

pub open spec fn close_of(n: Seq<char>) -> Seq<char> {
    seq!['<', '/'] + n + seq!['>']
}

/// Append `</N>` when `<N>` occurs but `</N>` does not.
pub open spec fn apply_close(b: Seq<char>, n: Seq<char>) -> Seq<char> {
    if contains_seq(b, open_of(n)) && !contains_seq(b, close_of(n)) {
        b + close_of(n)
    } else {
        b
    }
}

/// The fixed closing order, innermost first, so that appended closers yield a
/// structurally valid fragment.
pub open spec fn tag_names() -> Seq<Seq<char>> {
    seq![
        "Code"@,
        "Language"@,
        "Path"@,
        "StartLine"@,
        "EndLine"@,
        "QuotedCode"@,
        "GeneratedCode"@,
    ]
}

pub open spec fn close_missing_from(b: Seq<char>, idx: int) -> Seq<char>
    decreases tag_names().len() - idx,
{
    if idx < 0 || idx >= tag_names().len() {
        b
    } else {
        close_missing_from(apply_close(b, tag_names()[idx]), idx + 1)
    }
}

/// Tag repair: strip a trailing partial tag, then append missing closers.
pub open spec fn repair_tags(b: Seq<char>) -> Seq<char> {
    close_missing_from(strip_partial(b), 0)
}

/// The whole fix-up of one segment: if it is a tagged region whose outer tag
/// is followed by `<Code>`, normalize the escaping of the payload (everything
/// up to the first `</Code>`, or to the end) and repair the tags; any other
/// segment is returned unchanged.
pub open spec fn spec_fixup(x: Seq<char>) -> Seq<char> {
    if !starts_tagged(x) {
        x
    } else {
        match find_code_match(x, 0) {
            None => x,
            Some(i) => {
                let cs = payload_start(x, i);
                let ce = match find_from(x, code_close(), cs) {
                    Some(c) => c,
                    None => x.len() as int,
                };
                repair_tags(
                    x.subrange(0, cs) + normalize3(x.subrange(cs, ce)) + x.subrange(
                        ce,
                        x.len() as int,
                    ),
                )
            },
        }
    }
}

fn find_code_match_exec(v: &Vec<char>) -> (r: Option<usize>)
    ensures
        match r {
            Some(i) => find_code_match(v@, 0) == Some(i as int),
            None => find_code_match(v@, 0) is None,
        },
{
    let qpat = chars_of("<QuotedCode>");
    let gpat = chars_of("<GeneratedCode>");
    let cpat = chars_of("<Code>");
    let mut i: usize = 0;
    while i < v.len()
        invariant
            0 <= i <= v@.len(),
            qpat@ == quoted_open(),
            gpat@ == generated_open(),
            cpat@ == code_open(),
            find_code_match(v@, 0) == find_code_match(v@, i as int),
        decreases v@.len() - i,
    {
        let q = matches_at(v, &qpat, i);
        let g = matches_at(v, &gpat, i);
        if q || g {
            let te = if q {
                i + qpat.len()
            } else {
                i + gpat.len()
            };
            assert(te as int == i + outer_tag_len(v@, i as int));
            assert(te <= v@.len());
            let m = scan_ws(v, te);
            if matches_at(v, &cpat, m) {
                assert(code_match_at(v@, i as int));
                return Some(i);
            }
        }
        assert(!code_match_at(v@, i as int));
        i += 1;
    }
    None
}

fn has_gt(v: &Vec<char>, i: usize) -> (r: bool)
    requires
        i <= v@.len(),
    ensures
        r == has_gt_after(v@, i as int),
{
    if i >= v.len() {
        return false;
    }
    let mut j: usize = i + 1;
    while j < v.len()
        invariant
            i + 1 <= j,
            forall|t: int| i < t < j ==> v@[t] != '>',
        decreases v@.len() - j,
    {
        if v[j] == '>' {
            return true;
        }
        j += 1;
    }
    false
}

fn strip_partial_exec(v: &Vec<char>) -> (r: Vec<char>)
    ensures
        r@ == strip_partial(v@),
{
    let mut i: usize = 0;
    while i < v.len()
        invariant
            0 <= i <= v@.len(),
            first_unclosed(v@, 0) == first_unclosed(v@, i as int),
        decreases v@.len() - i,
    {
        if v[i] == '<' {
            if !has_gt(v, i) {
                return subvec(v, 0, i);
            }
        }
        i += 1;
    }
    subvec(v, 0, v.len())
}

fn close_one(b: Vec<char>, n: &Vec<char>) -> (r: Vec<char>)
    ensures
        r@ == apply_close(b@, n@),
{
    let mut opn: Vec<char> = Vec::new();
    opn.push('<');
    push_all(&mut opn, n);
    opn.push('>');
    assert(opn@ =~= open_of(n@));
    let mut cls: Vec<char> = Vec::new();
    cls.push('<');
    cls.push('/');
    push_all(&mut cls, n);
    cls.push('>');
    assert(cls@ =~= close_of(n@));
    let mut b = b;
    if contains_sub(&b, &opn) && !contains_sub(&b, &cls) {
        push_all(&mut b, &cls);
    }
    b
}

fn close_missing(b: Vec<char>) -> (r: Vec<char>)
    ensures
        r@ == close_missing_from(b@, 0),
{
    let ghost s0 = b@;
    let n0 = chars_of("Code");
    let b = close_one(b, &n0);
    assert(close_missing_from(s0, 0) == close_missing_from(b@, 1));
    let ghost s1 = b@;
    let n1 = chars_of("Language");
    let b = close_one(b, &n1);
    assert(close_missing_from(s1, 1) == close_missing_from(b@, 2));
    let ghost s2 = b@;
    let n2 = chars_of("Path");
    let b = close_one(b, &n2);
    assert(close_missing_from(s2, 2) == close_missing_from(b@, 3));
    let ghost s3 = b@;
    let n3 = chars_of("StartLine");
    let b = close_one(b, &n3);
    assert(close_missing_from(s3, 3) == close_missing_from(b@, 4));
    let ghost s4 = b@;
    let n4 = chars_of("EndLine");
    let b = close_one(b, &n4);
    assert(close_missing_from(s4, 4) == close_missing_from(b@, 5));
    let ghost s5 = b@;
    let n5 = chars_of("QuotedCode");
    let b = close_one(b, &n5);
    assert(close_missing_from(s5, 5) == close_missing_from(b@, 6));
    let ghost s6 = b@;
    let n6 = chars_of("GeneratedCode");
    let b = close_one(b, &n6);
    assert(close_missing_from(s6, 6) == close_missing_from(b@, 7));
    assert(close_missing_from(b@, 7) == b@);
    b
}

/// Fix up one segment, as a character vector.
pub fn fixup_chars(v: &Vec<char>) -> (r: Vec<char>)
    ensures
        r@ == spec_fixup(v@),
{
    let t = scan_ws(v, 0);
    if t == v.len() || v[t] != '<' {
        assert(!starts_tagged(v@));
        return subvec(v, 0, v.len());
    }
    assert(starts_tagged(v@));
    let found = find_code_match_exec(v);
    match found {
        None => subvec(v, 0, v.len()),
        Some(i) => {
            proof {
                lemma_find_code_match_spec(v@, 0);
                lemma_ws_end(v@, i + outer_tag_len(v@, i as int));
            }
            let qpat = chars_of("<QuotedCode>");
            let ccpat = chars_of("</Code>");
            let q = matches_at(v, &qpat, i);
            let te = if q {
                i + qpat.len()
            } else {
                let gpat = chars_of("<GeneratedCode>");
                i + gpat.len()
            };
            assert(te as int == i + outer_tag_len(v@, i as int));
            let m = scan_ws(v, te);
            assert(code_open().len() == 6) by {
                reveal_strlit("<Code>");
            }
            let n = v.len();
            assert(m + 6 <= n);
            let cs = m + 6;
            assert(cs as int == payload_start(v@, i as int));
            let ce = match find_sub_from(v, &ccpat, cs) {
                Some(c) => {
                    proof {
                        lemma_find_from_spec(v@, ccpat@, cs as int);
                    }
                    c
                },
                None => v.len(),
            };
            assert(cs <= ce <= v@.len());
            let payload = subvec(v, cs, ce);
            let normalized = normalize_entities(&payload);
            let mut buf = subvec(v, 0, cs);
            push_all(&mut buf, &normalized);
            let tail = subvec(v, ce, v.len());
            push_all(&mut buf, &tail);
            let stripped = strip_partial_exec(&buf);
            let repaired = close_missing(stripped);
            assert(repaired@ == spec_fixup(v@));
            repaired
        },
    }
}

// ---------------------------------------------------------------------------
// Why tag repair is complete: appending a closing tag can never create a new
// opening tag, so each pass of the fixed closing order settles its tag for
// good.
// ---------------------------------------------------------------------------
/// A plausible tag name: nonempty, made of tag-name characters.
pub open spec fn word_seq(n: Seq<char>) -> bool {
    n.len() >= 1 && forall|i: int| 0 <= i < n.len() ==> crate::text::is_word(n[i])
}

/// Appending `</M>` to a buffer neither adds nor removes occurrences of
/// `<N>`: a new occurrence would need a `<` inside the appended text at a
/// position other than its start, or a `/` where the name begins.
proof fn lemma_append_close_keeps_opens(b: Seq<char>, m: Seq<char>, n: Seq<char>)
    requires
        word_seq(m),
        word_seq(n),
    ensures
        contains_seq(b + close_of(m), open_of(n)) == contains_seq(b, open_of(n)),
{
    let s = b + close_of(m);
    let p = open_of(n);
    crate::text::lemma_contains_iff(s, p);
    crate::text::lemma_contains_iff(b, p);
    if contains_seq(b, p) {
        crate::text::lemma_contains_monotone(b, close_of(m), p);
    }
    if contains_seq(s, p) {
        let j = choose|j: int| occurs_at(s, p, j);
        assert(forall|q: int| 1 <= q <= n.len() ==> p[q] == n[q - 1]);
        assert(p[0] == '<' && p[p.len() - 1] == '>');
        if j + p.len() <= b.len() {
            assert(occurs_at(b, p, j)) by {
                assert(b.subrange(j, j + p.len() as int) =~= s.subrange(j, j + p.len() as int));
            }
        } else if j < b.len() {
            let q = b.len() - j;
            assert(1 <= q < p.len());
            assert(s.subrange(j, j + p.len() as int)[q] == s[b.len() as int]);
            assert(s[b.len() as int] == '<');
            assert(p[q] == '<');
            if q < p.len() - 1 {
                assert(crate::text::is_word(n[q - 1]));
            }
            assert(false);
        } else {
            let q = j - b.len();
            assert(s[j] == p[0]);
            assert(s[j] == close_of(m)[q]);
            if q == 0 {
                assert(s[j + 1] == close_of(m)[1]);
                assert(close_of(m)[1] == '/');
                assert(p[1] == n[0]);
                assert(crate::text::is_word(n[0]));
                assert(false);
            } else {
                if q == 1 {
                    assert(close_of(m)[1] == '/');
                } else if q < close_of(m).len() - 1 {
                    assert(close_of(m)[q] == m[q - 2]);
                    assert(crate::text::is_word(m[q - 2]));
                } else {
                    assert(close_of(m)[close_of(m).len() - 1] == '>');
                    assert(q + p.len() <= s.len());
                    assert(false);
                }
                assert(false);
            }
        }
    }
}

/// After the closing passes from index `idx` on: every remaining tag whose
/// opening form occurs also has its closing form; which opening tags occur
/// never changes; and nothing already present is lost.
proof fn lemma_close_missing_completes(b: Seq<char>, idx: int)
    requires
        0 <= idx <= tag_names().len(),
    ensures
        forall|k: int|
            idx <= k < tag_names().len() && contains_seq(
                close_missing_from(b, idx),
                open_of(#[trigger] tag_names()[k]),
            ) ==> contains_seq(close_missing_from(b, idx), close_of(tag_names()[k])),
        forall|n: Seq<char>|
            word_seq(n) ==> contains_seq(close_missing_from(b, idx), #[trigger] open_of(n))
                == contains_seq(b, open_of(n)),
        forall|p: Seq<char>|
            #[trigger] contains_seq(b, p) ==> contains_seq(close_missing_from(b, idx), p),
    decreases tag_names().len() - idx,
{
    lemma_tag_names_words();
    if idx < tag_names().len() {
        let t = tag_names()[idx];
        let b2 = apply_close(b, t);
        lemma_close_missing_completes(b2, idx + 1);
        assert(word_seq(t));
        if contains_seq(b, open_of(t)) && !contains_seq(b, close_of(t)) {
            assert(b2 == b + close_of(t));
            assert(contains_seq(b2, close_of(t))) by {
                crate::text::lemma_contains_iff(b + close_of(t), close_of(t));
                assert(occurs_at(b + close_of(t), close_of(t), b.len() as int)) by {
                    assert((b + close_of(t)).subrange(
                        b.len() as int,
                        b.len() + close_of(t).len() as int,
                    ) =~= close_of(t));
                }
            }
            assert(contains_seq(close_missing_from(b2, idx + 1), close_of(t)));
            assert forall|p: Seq<char>| #[trigger] contains_seq(b, p) implies contains_seq(
                b2,
                p,
            ) by {
                crate::text::lemma_contains_monotone(b, close_of(t), p);
            }
            assert forall|n: Seq<char>| word_seq(n) implies #[trigger] contains_seq(
                b2,
                open_of(n),
            ) == contains_seq(b, open_of(n)) by {
                lemma_append_close_keeps_opens(b, t, n);
            }
        } else {
            assert(b2 == b);
        }
    }
}

proof fn lemma_tag_names_words()
    ensures
        forall|k: int| 0 <= k < tag_names().len() ==> word_seq(#[trigger] tag_names()[k]),
{
    reveal_strlit("Code");
    reveal_strlit("Language");
    reveal_strlit("Path");
    reveal_strlit("StartLine");
    reveal_strlit("EndLine");
    reveal_strlit("QuotedCode");
    reveal_strlit("GeneratedCode");
    assert(word_seq("Code"@));
    assert(word_seq("Language"@));
    assert(word_seq("Path"@));
    assert(word_seq("StartLine"@));
    assert(word_seq("EndLine"@));
    assert(word_seq("QuotedCode"@));
    assert(word_seq("GeneratedCode"@));
    assert forall|k: int| 0 <= k < tag_names().len() implies word_seq(
        #[trigger] tag_names()[k],
    ) by {
        if k == 0 {
            assert(tag_names()[k] == "Code"@);
        } else if k == 1 {
            assert(tag_names()[k] == "Language"@);
        } else if k == 2 {
            assert(tag_names()[k] == "Path"@);
        } else if k == 3 {
            assert(tag_names()[k] == "StartLine"@);
        } else if k == 4 {
            assert(tag_names()[k] == "EndLine"@);
        } else if k == 5 {
            assert(tag_names()[k] == "QuotedCode"@);
        } else {
            assert(tag_names()[k] == "GeneratedCode"@);
        }
    }
}

proof fn lemma_first_unclosed_none(b: Seq<char>, from: int)
    requires
        0 <= from,
        forall|i: int| 0 <= i < b.len() && b[i] == '<' ==> has_gt_after(b, i),
    ensures
        first_unclosed(b, from) is None,
    decreases b.len() - from,
{
    if from < b.len() {
        lemma_first_unclosed_none(b, from + 1);
    }
}

/// Text in which every `<` is followed by some `>` is not stripped at all.
pub proof fn lemma_strip_partial_id(b: Seq<char>)
    requires
        forall|i: int| 0 <= i < b.len() && b[i] == '<' ==> has_gt_after(b, i),
    ensures
        strip_partial(b) == b,
{
    lemma_first_unclosed_none(b, 0);
}

/// Law (repair completeness): whatever text tag repair is given — any
/// truncation of a tagged region included — every tag of the fixed
/// vocabulary whose opening form occurs in the repaired text also has its
/// closing form there, so a parse of the repaired text never fails for want
/// of a closing tag.
pub proof fn lemma_repair_closes_all(b: Seq<char>)
    ensures
        forall|k: int|
            0 <= k < tag_names().len() && contains_seq(
                repair_tags(b),
                open_of(#[trigger] tag_names()[k]),
            ) ==> contains_seq(repair_tags(b), close_of(tag_names()[k])),
{
    lemma_close_missing_completes(strip_partial(b), 0);
}

/// The fix-up as a segment transform: every segment is replaced.
pub open spec fn fixup_transform() -> spec_fn(Seq<char>) -> Option<Seq<char>> {
    |x: Seq<char>| Some(spec_fixup(x))
}

} // verus!
