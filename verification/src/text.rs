//! Character-sequence utilities: substring search, splicing and rewriting,
//! with exact specifications over `Seq<char>`.

use vstd::prelude::*;

verus! {

/// Whitespace as the scanners and trims here understand it: the Unicode
/// `White_Space` set, which is also what the usual whitespace character
/// class and string trimming cover.
pub open spec fn is_space(c: char) -> bool {
    ('\t' <= c && c <= '\r') || c == ' ' || c == '\u{85}' || c == '\u{a0}' || c == '\u{1680}' || (
    '\u{2000}' <= c && c <= '\u{200a}') || c == '\u{2028}' || c == '\u{2029}' || c == '\u{202f}'
        || c == '\u{205f}' || c == '\u{3000}'
}

/// Which characters beyond ASCII count as tag-name letters.
pub uninterp spec fn word_beyond_ascii(c: char) -> bool;

/// Characters allowed in a tag name: ASCII letters, digits and underscore,
/// and the alphanumeric characters beyond ASCII, so that a tag written in
/// other scripts opens a segment too. (Combining marks and connector
/// punctuation beyond ASCII are not tag-name characters here, where a
/// scanner built on the usual word-character class would take them.)
pub open spec fn is_word(c: char) -> bool {
    ('a' <= c && c <= 'z') || ('A' <= c && c <= 'Z') || ('0' <= c && c <= '9') || c == '_' || (c
        > '\x7f' && word_beyond_ascii(c))
}

pub fn char_is_space(c: char) -> (r: bool)
    ensures
        r == is_space(c),
{
    ('\t' <= c && c <= '\r') || c == ' ' || c == '\u{85}' || c == '\u{a0}' || c == '\u{1680}' || (
    '\u{2000}' <= c && c <= '\u{200a}') || c == '\u{2028}' || c == '\u{2029}' || c == '\u{202f}'
        || c == '\u{205f}' || c == '\u{3000}'
}

/// Relies on `char::is_alphanumeric`: which characters beyond ASCII are
/// letters or digits. The result depends on the character alone.
#[verifier::external_body]
fn alphanumeric_beyond_ascii(c: char) -> (r: bool)
    ensures
        r == word_beyond_ascii(c),
{
    c.is_alphanumeric()
}

pub fn char_is_word(c: char) -> (r: bool)
    ensures
        r == is_word(c),
{
    if ('a' <= c && c <= 'z') || ('A' <= c && c <= 'Z') || ('0' <= c && c <= '9') || c == '_' {
        true
    } else if c > '\x7f' {
        alphanumeric_beyond_ascii(c)
    } else {
        false
    }
}

/// The pattern `p` occurs in `s` starting at index `i`.
pub open spec fn occurs_at(s: Seq<char>, p: Seq<char>, i: int) -> bool {
    0 <= i && i + p.len() <= s.len() && s.subrange(i, i + p.len() as int) == p
}

/// The first index at or after `from` where `p` occurs in `s`.
pub open spec fn find_from(s: Seq<char>, p: Seq<char>, from: int) -> Option<int>
    decreases s.len() - from,
{
    if from < 0 || from + p.len() > s.len() {
        None
    } else if p.len() == 0 {
        Some(from)
    } else if s.subrange(from, from + p.len() as int) == p {
        Some(from)
    } else {
        find_from(s, p, from + 1)
    }
}

pub proof fn lemma_find_from_spec(s: Seq<char>, p: Seq<char>, from: int)
    requires
        0 <= from,
    ensures
        match find_from(s, p, from) {
            Some(i) => from <= i && occurs_at(s, p, i) && forall|j: int|
                from <= j < i ==> !occurs_at(s, p, j),
            None => forall|j: int| from <= j ==> !occurs_at(s, p, j),
        },
    decreases s.len() - from,
{
    if from + p.len() > s.len() {
        assert forall|j: int| from <= j implies !occurs_at(s, p, j) by {}
    } else if p.len() == 0 {
        assert(s.subrange(from, from) =~= p);
    } else if s.subrange(from, from + p.len() as int) == p {
    } else {
        lemma_find_from_spec(s, p, from + 1);
    }
}

/// `p` occurs somewhere in `s`.
pub open spec fn contains_seq(s: Seq<char>, p: Seq<char>) -> bool {
    find_from(s, p, 0) is Some
}

fn match_at(v: &Vec<char>, p: &Vec<char>, i: usize) -> (r: bool)
    requires
        i + p@.len() <= v@.len(),
    ensures
        r == occurs_at(v@, p@, i as int),
{
    let mut j: usize = 0;
    while j < p.len()
        invariant
            0 <= j <= p@.len(),
            i + p@.len() <= v@.len(),
            forall|k: int| 0 <= k < j ==> v@[i + k] == p@[k],
        decreases p@.len() - j,
    {
        let n = v.len();
        assert(i + j < n);
        if v[i + j] != p[j] {
            assert(v@.subrange(i as int, i + p@.len() as int)[j as int] != p@[j as int]);
            return false;
        }
        j += 1;
    }
    assert(v@.subrange(i as int, i + p@.len() as int) =~= p@);
    true
}

/// Does `p` occur in `v` at exactly position `i`?
pub fn matches_at(v: &Vec<char>, p: &Vec<char>, i: usize) -> (r: bool)
    ensures
        r == occurs_at(v@, p@, i as int),
{
    if p.len() > v.len() || i > v.len() - p.len() {
        return false;
    }
    match_at(v, p, i)
}

/// Character-wise equality of two vectors.
pub fn eq_chars(a: &Vec<char>, b: &Vec<char>) -> (r: bool)
    ensures
        r == (a@ == b@),
{
    if a.len() != b.len() {
        return false;
    }
    let r = match_at(a, b, 0);
    proof {
        assert(a@.subrange(0, a@.len() as int) =~= a@);
    }
    r
}

/// Find the first occurrence of `p` in `v` at or after `from`.
pub fn find_sub_from(v: &Vec<char>, p: &Vec<char>, from: usize) -> (r: Option<usize>)
    ensures
        match r {
            Some(i) => find_from(v@, p@, from as int) == Some(i as int),
            None => find_from(v@, p@, from as int) is None,
        },
{
    if p.len() > v.len() || from > v.len() - p.len() {
        proof {
            lemma_find_from_none(v@, p@, from as int);
        }
        return None;
    }
    if p.len() == 0 {
        assert(v@.subrange(from as int, from as int) =~= p@);
        return Some(from);
    }
    let mut i: usize = from;
    while i <= v.len() - p.len()
        invariant
            from <= i,
            1 <= p@.len() <= v@.len(),
            i <= v@.len() - p@.len() + 1,
            find_from(v@, p@, from as int) == find_from(v@, p@, i as int),
        decreases v@.len() - p@.len() + 1 - i,
    {
        if match_at(v, p, i) {
            return Some(i);
        }
        i += 1;
    }
    None
}

proof fn lemma_find_from_none(s: Seq<char>, p: Seq<char>, from: int)
    requires
        from + p.len() > s.len() || from < 0,
    ensures
        find_from(s, p, from) is None || from < 0,
{
}

pub fn contains_sub(v: &Vec<char>, p: &Vec<char>) -> (r: bool)
    ensures
        r == contains_seq(v@, p@),
{
    find_sub_from(v, p, 0).is_some()
}

/// Copy of `v[i..j]`.
pub fn subvec(v: &Vec<char>, i: usize, j: usize) -> (r: Vec<char>)
    requires
        i <= j <= v@.len(),
    ensures
        r@ == v@.subrange(i as int, j as int),
{
    let mut r: Vec<char> = Vec::new();
    let mut k: usize = i;
    while k < j
        invariant
            i <= k <= j <= v@.len(),
            r@ == v@.subrange(i as int, k as int),
        decreases j - k,
    {
        r.push(v[k]);
        assert(r@ =~= v@.subrange(i as int, k + 1));
        k += 1;
    }
    r
}

/// Replace every occurrence of `p` in `s` by `r`, left to right and without
/// overlap: after a replacement the scan resumes past the replaced text.
pub open spec fn replace_all_s(s: Seq<char>, p: Seq<char>, r: Seq<char>) -> Seq<char>
    decreases s.len(),
{
    if p.len() == 0 {
        s
    } else {
        match find_from(s, p, 0) {
            None => s,
            Some(i) => {
                proof {
                    lemma_find_from_spec(s, p, 0);
                }
                s.subrange(0, i) + r + replace_all_s(
                    s.subrange(i + p.len() as int, s.len() as int),
                    p,
                    r,
                )
            },
        }
    }
}

/// Replace every occurrence of `p` in `v` by `rep`.
pub fn replace_all(v: &Vec<char>, p: &Vec<char>, rep: &Vec<char>) -> (out: Vec<char>)
    ensures
        out@ == replace_all_s(v@, p@, rep@),
{
    if p.len() == 0 {
        return subvec(v, 0, v.len());
    }
    let mut out: Vec<char> = Vec::new();
    let mut rest: Vec<char> = subvec(v, 0, v.len());
    assert(rest@ =~= v@);
    let mut found = find_sub_from(&rest, p, 0);
    while found.is_some()
        invariant
            1 <= p@.len(),
            match found {
                Some(i) => find_from(rest@, p@, 0) == Some(i as int),
                None => find_from(rest@, p@, 0) is None,
            },
            out@ + replace_all_s(rest@, p@, rep@) == replace_all_s(v@, p@, rep@),
        decreases rest@.len(),
    {
        let i = found.unwrap();
        proof {
            lemma_find_from_spec(rest@, p@, 0);
        }
        let ghost prev = rest@;
        let rl = rest.len();
        assert(i + p@.len() <= rl);
        let pre = subvec(&rest, 0, i);
        push_all(&mut out, &pre);
        push_all(&mut out, rep);
        let newrest = subvec(&rest, i + p.len(), rest.len());
        rest = newrest;
        proof {
            assert(replace_all_s(prev, p@, rep@) == prev.subrange(0, i as int) + rep@
                + replace_all_s(rest@, p@, rep@));
            assert(out@ + replace_all_s(rest@, p@, rep@) =~= replace_all_s(v@, p@, rep@));
        }
        found = find_sub_from(&rest, p, 0);
    }
    push_all(&mut out, &rest);
    assert(out@ =~= replace_all_s(v@, p@, rep@));
    out
}

pub proof fn lemma_find_from_exact(s: Seq<char>, p: Seq<char>, from: int, k: int)
    requires
        0 <= from <= k,
        occurs_at(s, p, k),
        forall|j: int| from <= j < k ==> !occurs_at(s, p, j),
    ensures
        find_from(s, p, from) == Some(k),
    decreases k - from,
{
    if from == k {
        assert(s.subrange(from, from + p.len() as int) == p);
        if p.len() == 0 {
        }
    } else {
        assert(!occurs_at(s, p, from));
        if p.len() == 0 {
            assert(s.subrange(from, from) =~= p);
            assert(occurs_at(s, p, from));
        }
        lemma_find_from_exact(s, p, from + 1, k);
    }
}

pub proof fn lemma_contains_iff(s: Seq<char>, p: Seq<char>)
    ensures
        contains_seq(s, p) <==> exists|j: int| occurs_at(s, p, j),
{
    lemma_find_from_spec(s, p, 0);
    match find_from(s, p, 0) {
        Some(i) => {
            assert(occurs_at(s, p, i));
        },
        None => {
            assert forall|j: int| !occurs_at(s, p, j) by {}
        },
    }
}

/// Appending text never removes an occurrence.
pub proof fn lemma_contains_monotone(b: Seq<char>, x: Seq<char>, p: Seq<char>)
    requires
        contains_seq(b, p),
    ensures
        contains_seq(b + x, p),
{
    lemma_contains_iff(b, p);
    lemma_contains_iff(b + x, p);
    let j = choose|j: int| occurs_at(b, p, j);
    assert(occurs_at(b + x, p, j)) by {
        assert((b + x).subrange(j, j + p.len() as int) =~= b.subrange(j, j + p.len() as int));
    }
}

/// Replacement starts with a match at the very front.
pub proof fn lemma_replace_head_match(s: Seq<char>, p: Seq<char>, r: Seq<char>)
    requires
        p.len() >= 1,
        occurs_at(s, p, 0),
    ensures
        replace_all_s(s, p, r) == r + replace_all_s(s.skip(p.len() as int), p, r),
{
    assert(find_from(s, p, 0) == Some(0int));
    assert(s.subrange(0, 0) =~= Seq::<char>::empty());
    assert(s.subrange(p.len() as int, s.len() as int) =~= s.skip(p.len() as int));
    assert(replace_all_s(s, p, r) =~= r + replace_all_s(s.skip(p.len() as int), p, r));
}

/// A block with no occurrence of the pattern passes through a replacement
/// untouched.
pub proof fn lemma_replace_prepend(a: Seq<char>, t: Seq<char>, p: Seq<char>, r: Seq<char>)
    requires
        p.len() >= 1,
        forall|j: int| 0 <= j < a.len() ==> !occurs_at(a + t, p, j),
    ensures
        replace_all_s(a + t, p, r) == a + replace_all_s(t, p, r),
{
    let s = a + t;
    assert forall|i: int| 0 <= i && i + p.len() <= t.len() implies occurs_at(t, p, i)
        == occurs_at(s, p, a.len() + i) by {
        assert(t.subrange(i, i + p.len() as int) =~= s.subrange(
            a.len() + i,
            a.len() + i + p.len() as int,
        ));
    }
    lemma_find_from_spec(t, p, 0);
    lemma_find_from_spec(s, p, 0);
    match find_from(t, p, 0) {
        None => {
            match find_from(s, p, 0) {
                Some(k) => {
                    assert(occurs_at(s, p, k));
                    if k < a.len() {
                        assert(false);
                    } else {
                        assert(occurs_at(t, p, k - a.len()));
                        assert(false);
                    }
                },
                None => {
                    assert(replace_all_s(s, p, r) == s);
                    assert(replace_all_s(t, p, r) == t);
                },
            }
        },
        Some(i) => {
            assert(occurs_at(t, p, i));
            assert(occurs_at(s, p, a.len() + i));
            assert forall|j: int| 0 <= j < a.len() + i implies !occurs_at(s, p, j) by {
                if a.len() <= j {
                    assert(occurs_at(s, p, j) ==> occurs_at(t, p, j - a.len()));
                }
            }
            lemma_find_from_exact(s, p, 0, a.len() + i);
            assert(s.subrange(0, a.len() + i) =~= a + t.subrange(0, i));
            assert(s.subrange(a.len() + i + p.len() as int, s.len() as int) =~= t.subrange(
                i + p.len() as int,
                t.len() as int,
            ));
            assert(replace_all_s(s, p, r) =~= a + replace_all_s(t, p, r));
        },
    }
}

/// The end of the run of whitespace that starts at `i`.
pub open spec fn ws_end(s: Seq<char>, i: int) -> int
    decreases s.len() - i,
{
    if i < 0 {
        0
    } else if i >= s.len() {
        s.len() as int
    } else if is_space(s[i]) {
        ws_end(s, i + 1)
    } else {
        i
    }
}

pub proof fn lemma_ws_end(s: Seq<char>, i: int)
    requires
        0 <= i <= s.len(),
    ensures
        i <= ws_end(s, i) <= s.len(),
        forall|j: int| i <= j < ws_end(s, i) ==> is_space(s[j]),
        ws_end(s, i) < s.len() ==> !is_space(s[ws_end(s, i)]),
    decreases s.len() - i,
{
    if i < s.len() && is_space(s[i]) {
        lemma_ws_end(s, i + 1);
    }
}

/// Scan past whitespace starting at `i`.
pub fn scan_ws(v: &Vec<char>, i: usize) -> (r: usize)
    requires
        i <= v@.len(),
    ensures
        r as int == ws_end(v@, i as int),
        i <= r <= v@.len(),
{
    let mut j: usize = i;
    while j < v.len() && char_is_space(v[j])
        invariant
            i <= j <= v@.len(),
            ws_end(v@, i as int) == ws_end(v@, j as int),
        decreases v@.len() - j,
    {
        j += 1;
    }
    j
}

/// The end of the run of tag-name characters that starts at `i`.
pub open spec fn word_end(s: Seq<char>, i: int) -> int
    decreases s.len() - i,
{
    if i < 0 {
        0
    } else if i >= s.len() {
        s.len() as int
    } else if is_word(s[i]) {
        word_end(s, i + 1)
    } else {
        i
    }
}

pub proof fn lemma_word_end(s: Seq<char>, i: int)
    requires
        0 <= i <= s.len(),
    ensures
        i <= word_end(s, i) <= s.len(),
        forall|j: int| i <= j < word_end(s, i) ==> is_word(s[j]),
        word_end(s, i) < s.len() ==> !is_word(s[word_end(s, i)]),
    decreases s.len() - i,
{
    if i < s.len() && is_word(s[i]) {
        lemma_word_end(s, i + 1);
    }
}

pub proof fn lemma_word_end_run(s: Seq<char>, i: int, e: int)
    requires
        0 <= i <= e <= s.len(),
        forall|j: int| i <= j < e ==> is_word(s[j]),
        e == s.len() || !is_word(s[e]),
    ensures
        word_end(s, i) == e,
    decreases e - i,
{
    if i < e {
        lemma_word_end_run(s, i + 1, e);
    }
}

/// Scan past tag-name characters starting at `i`.
pub fn scan_word(v: &Vec<char>, i: usize) -> (r: usize)
    requires
        i <= v@.len(),
    ensures
        r as int == word_end(v@, i as int),
        i <= r <= v@.len(),
{
    let mut j: usize = i;
    while j < v.len() && char_is_word(v[j])
        invariant
            i <= j <= v@.len(),
            word_end(v@, i as int) == word_end(v@, j as int),
        decreases v@.len() - j,
    {
        j += 1;
    }
    j
}

/// Relies on `str::chars`: the characters of a string slice, in order, are
/// exactly its view.
#[verifier::external_body]
pub fn chars_of(s: &str) -> (r: Vec<char>)
    ensures
        r@ == s@,
{
    s.chars().collect()
}

/// Relies on `core::iter::Iterator::collect` for `String`: collecting the
/// characters in order builds the string whose view is that sequence.
#[verifier::external_body]
pub fn string_of(v: &Vec<char>) -> (r: String)
    ensures
        r@ == v@,
{
    v.iter().collect()
}

/// Append all of `src` onto `dst`.
pub fn push_all(dst: &mut Vec<char>, src: &Vec<char>)
    ensures
        final(dst)@ == old(dst)@ + src@,
{
    let mut k: usize = 0;
    while k < src.len()
        invariant
            0 <= k <= src@.len(),
            dst@ == old(dst)@ + src@.subrange(0, k as int),
        decreases src@.len() - k,
    {
        dst.push(src[k]);
        assert(dst@ =~= old(dst)@ + src@.subrange(0, k + 1));
        k += 1;
    }
    assert(dst@ =~= old(dst)@ + src@);
}

} // verus!
