//! Transcoder between the generator's tagged pseudo-XML article format and
//! Markdown with annotated fenced code blocks, tolerant of truncated and
//! badly escaped input, with a footnote-borne conclusion channel and a
//! token-budgeted redacted form.

use vstd::prelude::*;

pub mod chunk;
pub mod escape;
pub mod md;
pub mod repair;
pub mod segment;
pub mod text;
pub mod tokens;

pub use crate::chunk::CodeChunk;
use crate::chunk::{md_transform, segment_to_md, segment_to_trimmed, trim_transform};
use crate::md::{
    md_footnote_scan, md_render_dropping, md_render_first_child, md_render_replacing, md_code_scan,
    render_dropping, render_first_child, render_replacing, scan_code_blocks, scan_footnotes,
    view_opt_str, view_opt_strs,
};
use crate::repair::{fixup_chars, fixup_transform, spec_fixup};
use crate::segment::{rewrite_segments, rewrite_segments_with};
use crate::text::{
    chars_of, find_from, lemma_find_from_spec, push_all, string_of, subvec,
};
use crate::tokens::{model_known, truncate_to_budget, TokenBudgetOutcome};

verus! {

/// The token budget of the summarized form.
pub const TOKEN_BUDGET: usize = 500;

/// The failures this library can report: a tagged region that cannot be
/// mapped onto a chunk (always recovered locally), a tokenizer model name
/// the token counter does not know, and a tokenizer run that failed on the
/// text (its regex engine gives up on pathological input); only the last
/// two reach a caller, through the summarized form.
#[derive(Debug, PartialEq, Eq, Structural)]
pub enum TranscodeError {
    SegmentParse,
    ModelLookup,
    Tokenizer,
}

// ---------------------------------------------------------------------------
// Comment stripping
// ---------------------------------------------------------------------------
/// A `\n` somewhere in `[a, b)`.
pub open spec fn has_nl_between(s: Seq<char>, a: int, b: int) -> bool {
    exists|q: int| a <= q < b && 0 <= q < s.len() && s[q] == '\n'
}

/// The first single-line comment at or after `from`: a `<!--`, then the
/// nearest `-->` with no newline in between; a candidate opener with a
/// newline before its closer matches nothing and the scan moves on.
pub open spec fn find_comment(s: Seq<char>, from: int) -> Option<(int, int)>
    decreases s.len() - from,
{
    if from < 0 || from > s.len() {
        None
    } else {
        match find_from(s, "<!--"@, from) {
            None => None,
            Some(i) => {
                proof {
                    lemma_find_from_spec(s, "<!--"@, from);
                    reveal_strlit("<!--");
                    reveal_strlit("-->");
                }
                match find_from(s, "-->"@, i + "<!--"@.len()) {
                    None => find_comment(s, i + 1),
                    Some(j) => {
                        if has_nl_between(s, i + "<!--"@.len(), j) {
                            find_comment(s, i + 1)
                        } else {
                            Some((i, j + "-->"@.len()))
                        }
                    },
                }
            },
        }
    }
}

pub proof fn lemma_find_comment_bounds(s: Seq<char>, from: int)
    requires
        0 <= from,
    ensures
        match find_comment(s, from) {
            Some(p) => from <= p.0 && p.0 + "<!--"@.len() <= p.1 <= s.len(),
            None => true,
        },
    decreases s.len() - from,
{
    if 0 <= from <= s.len() {
        reveal_strlit("<!--");
        reveal_strlit("-->");
        lemma_find_from_spec(s, "<!--"@, from);
        match find_from(s, "<!--"@, from) {
            None => {},
            Some(i) => {
                lemma_find_from_spec(s, "-->"@, i + "<!--"@.len());
                match find_from(s, "-->"@, i + "<!--"@.len()) {
                    None => {
                        lemma_find_comment_bounds(s, i + 1);
                    },
                    Some(j) => {
                        if has_nl_between(s, i + "<!--"@.len(), j) {
                            lemma_find_comment_bounds(s, i + 1);
                        }
                    },
                }
            },
        }
    }
}

/// `s` with every single-line comment removed, left to right.
pub open spec fn strip_comments_s(s: Seq<char>) -> Seq<char>
    decreases s.len(),
{
    match find_comment(s, 0) {
        None => s,
        Some(p) => {
            proof {
                lemma_find_comment_bounds(s, 0);
                reveal_strlit("<!--");
            }
            s.subrange(0, p.0) + strip_comments_s(s.subrange(p.1, s.len() as int))
        },
    }
}

fn has_nl_exec(v: &Vec<char>, a: usize, b: usize) -> (r: bool)
    requires
        b <= v@.len(),
    ensures
        r == has_nl_between(v@, a as int, b as int),
{
    let mut q: usize = a;
    while q < b
        invariant
            a <= q,
            b <= v@.len(),
            forall|t: int| a <= t < q ==> v@[t] != '\n',
        decreases b - q,
    {
        if v[q] == '\n' {
            return true;
        }
        q += 1;
    }
    false
}

fn find_comment_exec(v: &Vec<char>) -> (r: Option<(usize, usize)>)
    ensures
        match r {
            Some(p) => find_comment(v@, 0) == Some((p.0 as int, p.1 as int)) && p.0 <= p.1
                <= v@.len(),
            None => find_comment(v@, 0) is None,
        },
{
    let opn = chars_of("<!--");
    let cls = chars_of("-->");
    let mut pos: usize = 0;
    loop
        invariant
            pos <= v@.len(),
            opn@ == "<!--"@,
            cls@ == "-->"@,
            find_comment(v@, 0) == find_comment(v@, pos as int),
        decreases v@.len() - pos,
    {
        let i = match crate::text::find_sub_from(v, &opn, pos) {
            None => {
                return None;
            },
            Some(i) => i,
        };
        proof {
            lemma_find_from_spec(v@, opn@, pos as int);
            reveal_strlit("<!--");
            reveal_strlit("-->");
        }
        let n = v.len();
        assert(opn@.len() == 4);
        assert(i + 4 <= n);
        match crate::text::find_sub_from(v, &cls, i + opn.len()) {
            None => {
                assert(find_comment(v@, pos as int) == find_comment(v@, i + 1));
                pos = i + 1;
            },
            Some(j) => {
                proof {
                    lemma_find_from_spec(v@, cls@, i + opn@.len());
                }
                if has_nl_exec(v, i + opn.len(), j) {
                    assert(find_comment(v@, pos as int) == find_comment(v@, i + 1));
                    pos = i + 1;
                } else {
                    assert(j + cls@.len() <= n);
                    proof {
                        lemma_find_comment_bounds(v@, 0);
                    }
                    return Some((i, j + cls.len()));
                }
            },
        }
    }
}

fn strip_comments_exec(v: &Vec<char>) -> (out: Vec<char>)
    ensures
        out@ == strip_comments_s(v@),
{
    let mut out: Vec<char> = Vec::new();
    let mut rest: Vec<char> = subvec(v, 0, v.len());
    assert(rest@ =~= v@);
    loop
        invariant
            strip_comments_s(v@) == out@ + strip_comments_s(rest@),
        decreases rest@.len(),
    {
        match find_comment_exec(&rest) {
            None => {
                push_all(&mut out, &rest);
                assert(out@ =~= strip_comments_s(v@));
                return out;
            },
            Some((a, e)) => {
                proof {
                    lemma_find_comment_bounds(rest@, 0);
                    reveal_strlit("<!--");
                }
                let ghost prev = rest@;
                let pre = subvec(&rest, 0, a);
                push_all(&mut out, &pre);
                let newrest = subvec(&rest, e, rest.len());
                rest = newrest;
                proof {
                    assert(strip_comments_s(prev) == prev.subrange(0, a as int)
                        + strip_comments_s(rest@));
                    assert(out@ + strip_comments_s(rest@) =~= strip_comments_s(v@));
                }
            },
        }
    }
}

// ---------------------------------------------------------------------------
// The three directions
// ---------------------------------------------------------------------------
/// Sanitizing a raw article: fix up every tagged segment, then drop
/// single-line comments.
pub open spec fn spec_sanitize(s: Seq<char>) -> Seq<char> {
    strip_comments_s(rewrite_segments(s, fixup_transform()))
}

/// The document handed to the Markdown engine by `decode`: the sanitized
/// text with every chunk segment turned into its fenced-block form, behind
/// a sentinel reference that keeps the summary footnote alive.
pub open spec fn spec_decode_doc(input: Seq<char>) -> Seq<char> {
    "[^summary]\n\n"@ + rewrite_segments(spec_sanitize(input), md_transform())
}

/// The first block at or after `from` that is a footnote definition labeled
/// `summary` whose first child is a paragraph.
pub open spec fn summary_index(blocks: Seq<(Option<Seq<char>>, bool)>, from: int) -> Option<int>
    decreases blocks.len() - from,
{
    if from < 0 || from >= blocks.len() {
        None
    } else if blocks[from].0 == Some("summary"@) && blocks[from].1 {
        Some(from)
    } else {
        summary_index(blocks, from + 1)
    }
}

/// What `decode` returns: the rendered body without the sentinel and without
/// the summary definition, and the summary's paragraph when there is one.
pub open spec fn spec_decode(input: Seq<char>) -> (Seq<char>, Option<Seq<char>>) {
    let doc = spec_decode_doc(input);
    let blocks = md_footnote_scan(doc);
    match summary_index(blocks, 1) {
        Some(i) => (
            md_render_dropping(doc, seq![0usize, i as usize]),
            Some(md_render_first_child(doc, i as usize)),
        ),
        None => (md_render_dropping(doc, seq![0usize]), None),
    }
}

/// The per-block replacements `encode` makes: each fenced block whose header
/// matches becomes its tagged form.
pub open spec fn xml_repl(blocks: Seq<Option<(Seq<char>, Seq<char>)>>) -> Seq<Option<Seq<char>>> {
    blocks.map_values(
        |b: Option<(Seq<char>, Seq<char>)>|
            match b {
                Some(p) => crate::chunk::fence_xml(p.0, p.1),
                None => None,
            },
    )
}

/// What `encode` returns: the document rendered with matching fenced blocks
/// turned back into tagged regions, and the conclusion appended as a
/// footnote definition.
pub open spec fn spec_encode(markdown: Seq<char>, conclusion: Option<Seq<char>>) -> Seq<char> {
    let body = md_render_replacing(markdown, xml_repl(md_code_scan(markdown)));
    match conclusion {
        Some(c) => body + "\n\n[^summary]: "@ + c,
        None => body,
    }
}

/// What `encode_summarized` produces before truncation: the encoded article
/// with every chunk segment redacted.
pub open spec fn spec_summarized(markdown: Seq<char>, conclusion: Option<Seq<char>>) -> Seq<char> {
    rewrite_segments(spec_encode(markdown, conclusion), trim_transform())
}

/// The fix-up as a segment transform.
fn fixup_segment_opt(seg: &Vec<char>) -> (r: Option<Vec<char>>)
    ensures
        (match r {
            Some(out) => fixup_transform()(seg@) == Some(out@),
            None => fixup_transform()(seg@) is None,
        }),
{
    Some(fixup_chars(seg))
}

/// Fix up one tagged region: normalize the escaping of its code payload,
/// drop a trailing half-written tag, and append missing closing tags.
pub fn fixup_xml_code(xml: &str) -> (r: String)
    ensures
        r@ == spec_fixup(xml@),
{
    let v = chars_of(xml);
    let fixed = fixup_chars(&v);
    string_of(&fixed)
}

/// Sanitize a raw article: fix up every tagged segment and drop comments.
pub fn sanitize(article: &str) -> (r: String)
    ensures
        r@ == spec_sanitize(article@),
{
    let v = chars_of(article);
    let fixed = rewrite_segments_with(
        &v,
        fixup_segment_opt,
        Ghost(fixup_transform()),
    );
    let stripped = strip_comments_exec(&fixed);
    string_of(&stripped)
}

/// Map one tagged region to its fenced-block form; a region that cannot be
/// parsed as a chunk is reported, and its caller leaves it unchanged.
pub fn xml_to_markdown(xml: &str) -> (r: Result<String, TranscodeError>)
    ensures
        match r {
            Ok(s) => md_transform()(xml@) == Some(s@),
            Err(e) => md_transform()(xml@) is None && e == TranscodeError::SegmentParse,
        },
{
    let v = chars_of(xml);
    match segment_to_md(&v) {
        Some(out) => Ok(string_of(&out)),
        None => Err(TranscodeError::SegmentParse),
    }
}

/// Redact one tagged region: fix it up, parse it, and rebuild it with the
/// code payload replaced by the redaction marker; a region that cannot be
/// parsed is reported, and its caller leaves it unchanged.
pub fn try_trim_code_xml(xml: &str) -> (r: Result<String, TranscodeError>)
    ensures
        match r {
            Ok(s) => trim_transform()(xml@) == Some(s@),
            Err(e) => trim_transform()(xml@) is None && e == TranscodeError::SegmentParse,
        },
{
    let v = chars_of(xml);
    match segment_to_trimmed(&v) {
        Some(out) => Ok(string_of(&out)),
        None => Err(TranscodeError::SegmentParse),
    }
}

/// Decode a raw article into `(body, conclusion)`. Never fails: malformed
/// segments and unparseable text pass through as ordinary Markdown.
pub fn decode(llm_message: &str) -> (r: (String, Option<String>))
    ensures
        r.0@ == spec_decode(llm_message@).0,
        view_opt_str(r.1) == spec_decode(llm_message@).1,
{
    let v = chars_of(llm_message);
    let fixed = rewrite_segments_with(
        &v,
        fixup_segment_opt,
        Ghost(fixup_transform()),
    );
    let sanitized = strip_comments_exec(&fixed);
    let mapped = rewrite_segments_with(
        &sanitized,
        segment_to_md,
        Ghost(md_transform()),
    );
    let mut doc: Vec<char> = chars_of("[^summary]\n\n");
    push_all(&mut doc, &mapped);
    let doc_s = string_of(&doc);
    assert(doc_s@ == spec_decode_doc(llm_message@));
    let blocks = scan_footnotes(doc_s.as_str());
    let ghost scan = md_footnote_scan(doc_s@);
    let lbl: String = "summary".to_owned();
    let mut i: usize = 1;
    while i < blocks.len()
        invariant
            1 <= i,
            scan == md_footnote_scan(doc_s@),
            doc_s@ == spec_decode_doc(llm_message@),
            blocks@.len() == scan.len(),
            forall|q: int|
                0 <= q < blocks@.len() ==> #[trigger] scan[q] == (
                    view_opt_str(blocks@[q].0),
                    blocks@[q].1,
                ),
            lbl@ == "summary"@,
            summary_index(scan, 1) == summary_index(scan, i as int),
        decreases blocks@.len() - i,
    {
        let b = &blocks[i];
        let hit = match &b.0 {
            Some(s) => b.1 && s.eq(&lbl),
            None => false,
        };
        if hit {
            assert(summary_index(scan, i as int) == Some(i as int));
            let mut drop: Vec<usize> = Vec::new();
            drop.push(0);
            drop.push(i);
            assert(drop@ =~= seq![0usize, i]);
            let body = render_dropping(doc_s.as_str(), &drop);
            let concl = render_first_child(doc_s.as_str(), i);
            assert(concl is Some);
            return (body, concl);
        }
        assert(summary_index(scan, i as int) == summary_index(scan, i + 1));
        i += 1;
    }
    assert(summary_index(scan, 1) is None);
    let mut drop: Vec<usize> = Vec::new();
    drop.push(0);
    assert(drop@ =~= seq![0usize]);
    let body = render_dropping(doc_s.as_str(), &drop);
    (body, None)
}

/// Encode an article back into the tagged format: each fenced block whose
/// header carries the expected attributes becomes a tagged region, and the
/// conclusion, when given, is appended as a footnote definition.
pub fn encode(markdown: &str, conclusion: Option<&str>) -> (r: String)
    ensures
        r@ == spec_encode(
            markdown@,
            match conclusion {
                Some(c) => Some(c@),
                None => None,
            },
        ),
{
    let blocks = scan_code_blocks(markdown);
    let ghost scan = md_code_scan(markdown@);
    let mut repl: Vec<Option<String>> = Vec::new();
    let mut i: usize = 0;
    while i < blocks.len()
        invariant
            0 <= i <= blocks@.len(),
            blocks@.len() == scan.len(),
            forall|q: int|
                0 <= q < blocks@.len() ==> #[trigger] scan[q] == (match blocks@[q] {
                    Some(p) => Some((p.0@, p.1@)),
                    None => None,
                }),
            repl@.len() == i,
            view_opt_strs(repl@) =~= xml_repl(scan).take(i as int),
        decreases blocks@.len() - i,
    {
        let ghost before = repl@;
        match &blocks[i] {
            Some(p) => {
                let info = chars_of(p.0.as_str());
                let lit = chars_of(p.1.as_str());
                match crate::chunk::fence_to_xml(&info, &lit) {
                    Some(x) => repl.push(Some(string_of(&x))),
                    None => repl.push(None),
                }
            },
            None => {
                repl.push(None);
            },
        }
        proof {
            assert(xml_repl(scan)[i as int] == view_opt_str(repl@[i as int]));
            assert(view_opt_strs(repl@) =~= xml_repl(scan).take(i + 1));
        }
        i += 1;
    }
    assert(xml_repl(scan).take(scan.len() as int) =~= xml_repl(scan));
    let body = render_replacing(markdown, &repl);
    match conclusion {
        Some(c) => {
            let mut out = chars_of(body.as_str());
            let sep = chars_of("\n\n[^summary]: ");
            push_all(&mut out, &sep);
            let cv = chars_of(c);
            push_all(&mut out, &cv);
            string_of(&out)
        },
        None => body,
    }
}

/// Produce the compact summarized form: encode, redact every chunk segment,
/// and truncate to the token budget. Fails exactly when the model name is
/// unknown to the token counter.
pub fn encode_summarized(markdown: &str, conclusion: Option<&str>, model: &str) -> (r: Result<
    String,
    TranscodeError,
>)
    ensures
        r == Err::<String, TranscodeError>(TranscodeError::ModelLookup) <==> !model_known(
            model@,
        ),
        r matches Ok(s) ==> {
            let full = spec_summarized(
                markdown@,
                match conclusion {
                    Some(c) => Some(c@),
                    None => None,
                },
            );
            &&& s@ == crate::tokens::truncated_of(full, model@, TOKEN_BUDGET as int)
            &&& s@ == full.take(s@.len() as int)
        },
        r matches Err(e) ==> e == TranscodeError::ModelLookup || e == TranscodeError::Tokenizer,
{
    let encoded = encode(markdown, conclusion);
    let ev = chars_of(encoded.as_str());
    let trimmed = rewrite_segments_with(
        &ev,
        segment_to_trimmed,
        Ghost(trim_transform()),
    );
    let article = string_of(&trimmed);
    match truncate_to_budget(article.as_str(), model, TOKEN_BUDGET) {
        TokenBudgetOutcome::Text(s) => Ok(s),
        TokenBudgetOutcome::UnknownModel => Err(TranscodeError::ModelLookup),
        TokenBudgetOutcome::TokenizerFailed => Err(TranscodeError::Tokenizer),
    }
}

/// Law (no-definition case): when the prepared document carries no footnote
/// definition labeled `summary` with a leading paragraph, decoding yields no
/// conclusion, and the body is the full rendering of the document with only
/// the sentinel reference dropped.
pub proof fn lemma_no_summary_definition(input: Seq<char>)
    requires
        summary_index(md_footnote_scan(spec_decode_doc(input)), 1) is None,
    ensures
        spec_decode(input).1 is None,
        spec_decode(input).0 == md_render_dropping(spec_decode_doc(input), seq![0usize]),
{
}

/// Law (summary isolation): when the prepared document carries a footnote
/// definition labeled `summary` whose first child is a paragraph, that
/// paragraph's rendering alone becomes the conclusion, and the body drops
/// exactly the sentinel reference and that definition.
pub proof fn lemma_summary_isolation(input: Seq<char>, i: int)
    requires
        summary_index(md_footnote_scan(spec_decode_doc(input)), 1) == Some(i),
    ensures
        spec_decode(input).1 == Some(md_render_first_child(spec_decode_doc(input), i as usize)),
        spec_decode(input).0 == md_render_dropping(
            spec_decode_doc(input),
            seq![0usize, i as usize],
        ),
{
}

/// The replacement is one of the transform's possible answers for a
/// segment with the given text.
pub open spec fn transform_answers<F: Fn(&str) -> Option<String>>(
    f: F,
    t: Seq<char>,
    rep: Option<String>,
) -> bool {
    exists|x: &str| #![trigger x@] x@ == t && call_ensures(f, (x,), rep)
}

/// Rewrite every tagged segment of a document with the given transform,
/// left to right: the text outside segments is copied verbatim, and each
/// segment is replaced by what the transform returned for that segment's
/// text, or kept when it returned nothing. The contract says exactly that:
/// the output is the splice of the document against one replacement per
/// segment, each replacement a possible answer of `f` on that segment.
pub fn xml_for_each<F: Fn(&str) -> Option<String>>(article: &str, f: F) -> (out: String)
    requires
        forall|x: &str| #[trigger] call_requires(f, (x,)),
    ensures
        exists|reps: Seq<Option<String>>|
            {
                &&& reps.len() == crate::segment::seg_texts(article@, 0).len()
                &&& (forall|k: int|
                    #![trigger reps[k]]
                    0 <= k < reps.len() ==> transform_answers(
                        f,
                        crate::segment::seg_texts(article@, 0)[k],
                        reps[k],
                    ))
                &&& out@ == crate::segment::rewrite_with_reps(article@, 0, view_opt_strs(reps))
            },
{
    let v = chars_of(article);
    let mut out: Vec<char> = Vec::new();
    let ghost mut reps: Seq<Option<String>> = Seq::empty();
    let ghost mut texts: Seq<Seq<char>> = Seq::empty();
    let mut pos: usize = 0;
    let mut nxt = crate::segment::find_seg_open(&v, 0);
    proof {
        assert(texts + crate::segment::seg_texts(v@, 0int) =~= crate::segment::seg_texts(
            v@,
            0int,
        ));
        assert forall|rest: Seq<Option<Seq<char>>>|
            #[trigger] crate::segment::rewrite_with_reps(v@, pos as int, rest)
                == crate::segment::rewrite_with_reps(v@, pos as int, rest) implies crate
            ::segment::rewrite_with_reps(v@, 0int, view_opt_strs(reps) + rest) == out@
            + crate::segment::rewrite_with_reps(v@, pos as int, rest) by {
            assert(view_opt_strs(reps) + rest =~= rest);
            assert(out@ + crate::segment::rewrite_with_reps(v@, pos as int, rest)
                =~= crate::segment::rewrite_with_reps(v@, pos as int, rest));
        }
    }
    while nxt.is_some()
        invariant
            pos <= v@.len(),
            v@ == article@,
            forall|x: &str| #[trigger] call_requires(f, (x,)),
            match nxt {
                Some((p, m, k)) => {
                    &&& crate::segment::seg_open(v@, pos as int) == Some(p as int)
                    &&& m as int == crate::segment::seg_tag_start(v@, p as int)
                    &&& k as int == crate::segment::seg_name_end(v@, p as int)
                    &&& pos <= p && p + 1 <= m && m + 1 < k && k < v@.len()
                },
                None => crate::segment::seg_open(v@, pos as int) is None,
            },
            reps.len() == texts.len(),
            crate::segment::seg_texts(v@, 0int) == texts + crate::segment::seg_texts(
                v@,
                pos as int,
            ),
            forall|k: int|
                #![trigger reps[k]]
                0 <= k < reps.len() ==> transform_answers(f, texts[k], reps[k]),
            forall|rest: Seq<Option<Seq<char>>>|
                #[trigger] crate::segment::rewrite_with_reps(v@, pos as int, rest)
                    == crate::segment::rewrite_with_reps(v@, pos as int, rest) ==> crate
                    ::segment::rewrite_with_reps(v@, 0int, view_opt_strs(reps) + rest) == out@
                    + crate::segment::rewrite_with_reps(v@, pos as int, rest),
        decreases v@.len() - pos,
    {
        let (p, m, k) = nxt.unwrap();
        proof {
            crate::segment::lemma_seg_open_spec(v@, pos as int);
        }
        let e = crate::segment::find_seg_end(&v, p, m, k);
        let ghost out_old = out@;
        let ghost reps_old = reps;
        let ghost texts_old = texts;
        let pre = subvec(&v, pos, m);
        let seg = subvec(&v, m, e);
        let seg_s = string_of(&seg);
        let seg_str = seg_s.as_str();
        let res = f(seg_str);
        let ghost cur = res;
        push_all(&mut out, &pre);
        match res {
            Some(r) => {
                let rv = chars_of(r.as_str());
                push_all(&mut out, &rv);
            },
            None => {
                push_all(&mut out, &seg);
            },
        }
        proof {
            reps = reps.push(cur);
            texts = texts.push(seg@);
            assert(crate::segment::seg_texts(v@, pos as int) == seq![v@.subrange(
                m as int,
                e as int,
            )] + crate::segment::seg_texts(v@, e as int));
            assert(crate::segment::seg_texts(v@, 0int) =~= texts + crate::segment::seg_texts(
                v@,
                e as int,
            ));
            assert forall|k2: int|
                #![trigger reps[k2]]
                0 <= k2 < reps.len() implies transform_answers(f, texts[k2], reps[k2]) by {
                if k2 < reps_old.len() {
                    assert(texts[k2] == texts_old[k2]);
                    assert(reps[k2] == reps_old[k2]);
                    assert(transform_answers(f, texts_old[k2], reps_old[k2]));
                } else {
                    assert(texts[k2] == seg@);
                    assert(reps[k2] == cur);
                    assert(seg_str@ == seg@);
                    assert(seg_str@ == texts[k2] && call_ensures(f, (seg_str,), reps[k2]));
                    assert(transform_answers(f, texts[k2], reps[k2]));
                }
            }
            let ghost curv = view_opt_str(cur);
            assert(view_opt_strs(reps) =~= view_opt_strs(reps_old).push(curv));
            assert forall|rest: Seq<Option<Seq<char>>>|
                #[trigger] crate::segment::rewrite_with_reps(v@, e as int, rest)
                    == crate::segment::rewrite_with_reps(v@, e as int, rest) implies crate
                ::segment::rewrite_with_reps(v@, 0int, view_opt_strs(reps) + rest) == out@
                + crate::segment::rewrite_with_reps(v@, e as int, rest) by {
                let extended = seq![curv] + rest;
                assert(view_opt_strs(reps_old) + extended =~= view_opt_strs(reps) + rest);
                assert(crate::segment::rewrite_with_reps(v@, 0int, view_opt_strs(reps_old)
                    + extended) == out_old + crate::segment::rewrite_with_reps(
                    v@,
                    pos as int,
                    extended,
                ));
                assert(extended.len() > 0);
                assert(extended[0] == curv);
                assert(extended.drop_first() =~= rest);
                assert(crate::segment::rewrite_with_reps(v@, pos as int, extended) == v@.subrange(
                    pos as int,
                    m as int,
                ) + (match curv {
                    Some(r) => r,
                    None => v@.subrange(m as int, e as int),
                }) + crate::segment::rewrite_with_reps(v@, e as int, rest));
                assert(out@ =~= out_old + v@.subrange(pos as int, m as int) + (match curv {
                    Some(r) => r,
                    None => v@.subrange(m as int, e as int),
                }));
            }
        }
        pos = e;
        nxt = crate::segment::find_seg_open(&v, pos);
    }
    let tail = subvec(&v, pos, v.len());
    push_all(&mut out, &tail);
    proof {
        let empty = Seq::<Option<Seq<char>>>::empty();
        assert(crate::segment::rewrite_with_reps(v@, pos as int, empty)
            == crate::segment::rewrite_with_reps(v@, pos as int, empty));
        assert(view_opt_strs(reps) + empty =~= view_opt_strs(reps));
        assert(crate::segment::rewrite_with_reps(v@, pos as int, empty) == v@.subrange(
            pos as int,
            v@.len() as int,
        ));
        assert(out@ =~= crate::segment::rewrite_with_reps(v@, 0int, view_opt_strs(reps)));
        assert(crate::segment::seg_texts(v@, pos as int) =~= Seq::<Seq<char>>::empty());
        assert(texts =~= crate::segment::seg_texts(v@, 0int));
    }
    let r = string_of(&out);
    proof {
        assert(reps.len() == crate::segment::seg_texts(article@, 0).len());
        assert forall|k: int|
            #![trigger reps[k]]
            0 <= k < reps.len() implies transform_answers(
            f,
            crate::segment::seg_texts(article@, 0)[k],
            reps[k],
        ) by {
            assert(transform_answers(f, texts[k], reps[k]));
            assert(texts[k] == crate::segment::seg_texts(article@, 0)[k]);
        }
        assert(r@ == crate::segment::rewrite_with_reps(article@, 0, view_opt_strs(reps)));
        assert({
            &&& reps.len() == crate::segment::seg_texts(article@, 0).len()
            &&& (forall|k: int|
                #![trigger reps[k]]
                0 <= k < reps.len() ==> transform_answers(
                    f,
                    crate::segment::seg_texts(article@, 0)[k],
                    reps[k],
                ))
            &&& r@ == crate::segment::rewrite_with_reps(article@, 0, view_opt_strs(reps))
        });
    }
    r
}

} // verus!
