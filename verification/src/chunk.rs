//! The code-chunk model: the typed representation of a quoted or generated
//! code excerpt, its parser from a repaired tagged region, its Markdown
//! fenced-block form, and its redacted tagged form.

use vstd::prelude::*;

use crate::escape::{unescape3, unescape_xml};
use crate::repair::{close_of, code_close, generated_open, quoted_open};
use crate::text::{
    chars_of, eq_chars, find_from, find_sub_from, is_space, lemma_find_from_spec, lemma_word_end,
    lemma_ws_end, matches_at, occurs_at, push_all, scan_word, scan_ws, string_of, subvec, word_end,
    ws_end,
};

verus! {

// ---------------------------------------------------------------------------
// Decimal numbers
// ---------------------------------------------------------------------------
pub open spec fn digit_char(d: int) -> char {
    if d == 0 {
        '0'
    } else if d == 1 {
        '1'
    } else if d == 2 {
        '2'
    } else if d == 3 {
        '3'
    } else if d == 4 {
        '4'
    } else if d == 5 {
        '5'
    } else if d == 6 {
        '6'
    } else if d == 7 {
        '7'
    } else if d == 8 {
        '8'
    } else {
        '9'
    }
}

/// The decimal digits of `n`, most significant first.
pub open spec fn dec_rec(n: int) -> Seq<char>
    decreases n,
{
    if n < 10 {
        seq![digit_char(n)]
    } else {
        dec_rec(n / 10) + seq![digit_char(n % 10)]
    }
}

fn digit_exec(d: u32) -> (r: char)
    requires
        d < 10,
    ensures
        r == digit_char(d as int),
{
    match d {
        0 => '0',
        1 => '1',
        2 => '2',
        3 => '3',
        4 => '4',
        5 => '5',
        6 => '6',
        7 => '7',
        8 => '8',
        _ => '9',
    }
}

/// Decimal rendering of a 32-bit number.
pub fn u32_to_chars(n: u32) -> (r: Vec<char>)
    ensures
        r@ == dec_rec(n as int),
    decreases n,
{
    if n < 10 {
        let mut v: Vec<char> = Vec::new();
        v.push(digit_exec(n));
        assert(v@ =~= dec_rec(n as int));
        v
    } else {
        let mut v = u32_to_chars(n / 10);
        v.push(digit_exec(n % 10));
        assert(v@ =~= dec_rec(n as int));
        v
    }
}

pub open spec fn is_digit(c: char) -> bool {
    '0' <= c && c <= '9'
}

pub open spec fn digit_val(c: char) -> int {
    c as int - '0' as int
}

pub open spec fn all_digits(t: Seq<char>) -> bool {
    forall|i: int| 0 <= i < t.len() ==> is_digit(t[i])
}

/// A decimal digit is plain text to every scanner here: not whitespace, not
/// markup, none of the header delimiters.
proof fn lemma_digit_plain(c: char)
    requires
        is_digit(c),
    ensures
        !is_space(c),
        c != '<' && c != '&' && c != ',' && c != ':' && c != '-',
{
}

/// The value of a digit string, most significant first.
pub open spec fn dec_val(t: Seq<char>) -> int
    decreases t.len(),
{
    if t.len() == 0 {
        0
    } else {
        dec_val(t.drop_last()) * 10 + digit_val(t.last())
    }
}

/// The number a string denotes: an optional `+` sign, then decimal digits,
/// the value fitting in 32 bits; anything else denotes nothing.
pub open spec fn parse_u32_s(s: Seq<char>) -> Option<u32> {
    let t = if s.len() > 0 && s[0] == '+' {
        s.skip(1)
    } else {
        s
    };
    if t.len() == 0 || !all_digits(t) || dec_val(t) > u32::MAX {
        None
    } else {
        Some(dec_val(t) as u32)
    }
}

/// Parse a 32-bit decimal number, accepting a leading `+`.
pub fn parse_u32_chars(s: &Vec<char>) -> (r: Option<u32>)
    ensures
        r == parse_u32_s(s@),
{
    let start: usize = if s.len() > 0 && s[0] == '+' {
        1
    } else {
        0
    };
    let ghost t = if s@.len() > 0 && s@[0] == '+' {
        s@.skip(1)
    } else {
        s@
    };
    assert(t =~= s@.subrange(start as int, s@.len() as int));
    if s.len() == start {
        return None;
    }
    let mut acc: u64 = 0;
    let mut i: usize = start;
    while i < s.len()
        invariant
            start <= i <= s@.len(),
            t == (if s@.len() > 0 && s@[0] == '+' {
                s@.skip(1)
            } else {
                s@
            }),
            t =~= s@.subrange(start as int, s@.len() as int),
            t.len() > 0,
            acc <= u32::MAX,
            all_digits(t.take(i - start)),
            acc == dec_val(t.take(i - start)),
        decreases s@.len() - i,
    {
        let c = s[i];
        if !('0' <= c && c <= '9') {
            assert(!all_digits(t)) by {
                assert(0 <= i - start < t.len());
                assert(t[i - start] == c);
                assert(!is_digit(c));
            }
            return None;
        }
        let d: u64 = (c as u32 as u64) - ('0' as u32 as u64);
        assert(d == digit_val(c));
        assert(d <= 9);
        let next: u64 = acc * 10 + d;
        proof {
            assert(t.take(i + 1 - start).drop_last() =~= t.take(i - start));
            assert(t.take(i + 1 - start).last() == c);
        }
        if next > 0xffff_ffff {
            proof {
                assert(all_digits(t.take(i + 1 - start))) by {
                    assert(forall|q: int|
                        0 <= q < i - start ==> #[trigger] t.take(i + 1 - start)[q] == t.take(
                            i - start,
                        )[q]);
                    assert(t.take(i + 1 - start)[i - start] == c);
                }
                if all_digits(t) {
                    lemma_dec_val_grows(t, i + 1 - start);
                }
            }
            return None;
        }
        acc = next;
        i += 1;
    }
    assert(t.take(i - start) =~= t);
    Some(acc as u32)
}

proof fn lemma_dec_rec_value(n: int)
    requires
        n >= 0,
    ensures
        all_digits(dec_rec(n)),
        dec_val(dec_rec(n)) == n,
        dec_rec(n).len() >= 1,
        is_digit(dec_rec(n)[0]),
    decreases n,
{
    if n < 10 {
        assert(dec_rec(n) =~= seq![digit_char(n)]);
        assert(dec_rec(n).drop_last() =~= Seq::<char>::empty());
        assert(dec_rec(n).last() == digit_char(n));
        assert(dec_val(dec_rec(n)) == dec_val(Seq::<char>::empty()) * 10 + digit_val(
            digit_char(n),
        ));
        assert(dec_val(Seq::<char>::empty()) == 0);
        assert('0' as int == 48);
        assert('1' as int == 49 && '2' as int == 50 && '3' as int == 51 && '4' as int == 52);
        assert('5' as int == 53 && '6' as int == 54 && '7' as int == 55 && '8' as int == 56);
        assert('9' as int == 57);
        assert(digit_val(digit_char(n)) == n);
    } else {
        lemma_dec_rec_value(n / 10);
        assert(dec_rec(n).drop_last() =~= dec_rec(n / 10));
        assert(dec_rec(n).last() == digit_char(n % 10));
        assert(dec_val(dec_rec(n)) == dec_val(dec_rec(n / 10)) * 10 + digit_val(
            digit_char(n % 10),
        ));
        assert forall|i: int| 0 <= i < dec_rec(n).len() implies is_digit(dec_rec(n)[i]) by {
            if i < dec_rec(n).len() - 1 {
                assert(dec_rec(n)[i] == dec_rec(n / 10)[i]);
            }
        }
    }
}

/// Law (line numbers survive the round trip): the decimal text written for a
/// line number parses back to exactly that number.
pub proof fn lemma_lineno_round_trip(n: u32)
    ensures
        parse_u32_s(dec_rec(n as int)) == Some(n),
{
    lemma_dec_rec_value(n as int);
    assert(dec_rec(n as int)[0] != '+');
}

/// Once a digit-string prefix exceeds `u32::MAX`, the whole string does.
proof fn lemma_dec_val_grows(t: Seq<char>, k: int)
    requires
        0 <= k <= t.len(),
        all_digits(t),
        dec_val(t.take(k)) > u32::MAX,
    ensures
        dec_val(t) > u32::MAX,
    decreases t.len() - k,
{
    if k < t.len() {
        assert(t.take(k + 1).drop_last() =~= t.take(k));
        assert(is_digit(t.take(k + 1).last()));
        assert(dec_val(t.take(k + 1)) == dec_val(t.take(k)) * 10 + digit_val(t.take(k + 1).last()));
        lemma_dec_val_grows(t, k + 1);
    } else {
        assert(t.take(k) =~= t);
    }
}

// ---------------------------------------------------------------------------
// Whitespace trimming
// ---------------------------------------------------------------------------
/// The position before which, counting back from `e`, everything is space.
pub open spec fn rtrim_end(s: Seq<char>, e: int) -> int
    decreases e,
{
    if e <= 0 {
        0
    } else if is_space(s[e - 1]) {
        rtrim_end(s, e - 1)
    } else {
        e
    }
}

/// `s` without leading and trailing whitespace.
pub open spec fn trim_s(s: Seq<char>) -> Seq<char> {
    let b = ws_end(s, 0);
    let e = rtrim_end(s, s.len() as int);
    if b <= e {
        s.subrange(b, e)
    } else {
        Seq::empty()
    }
}

proof fn lemma_rtrim_end(s: Seq<char>, e: int)
    requires
        0 <= e <= s.len(),
    ensures
        0 <= rtrim_end(s, e) <= e,
    decreases e,
{
    if e > 0 && is_space(s[e - 1]) {
        lemma_rtrim_end(s, e - 1);
    }
}

/// Trim whitespace from both ends.
pub fn trim_chars(v: &Vec<char>) -> (r: Vec<char>)
    ensures
        r@ == trim_s(v@),
{
    let b = scan_ws(v, 0);
    let mut e: usize = v.len();
    while e > 0 && char_is_space_local(v[e - 1])
        invariant
            0 <= e <= v@.len(),
            rtrim_end(v@, v@.len() as int) == rtrim_end(v@, e as int),
        decreases e,
    {
        e -= 1;
    }
    proof {
        lemma_rtrim_end(v@, e as int);
    }
    if b <= e {
        subvec(v, b, e)
    } else {
        let r: Vec<char> = Vec::new();
        r
    }
}

fn char_is_space_local(c: char) -> (r: bool)
    ensures
        r == is_space(c),
{
    crate::text::char_is_space(c)
}

// ---------------------------------------------------------------------------
// The chunk type
// ---------------------------------------------------------------------------
/// A code excerpt from the generator: either quoted from an existing source
/// location, or freshly generated.
pub enum CodeChunk {
    QuotedCode {
        code: String,
        language: String,
        path: String,
        start_line: Option<u32>,
        end_line: Option<u32>,
    },
    GeneratedCode { code: String, language: String },
}

/// The mathematical shadow of `CodeChunk`.
pub enum ChunkView {
    Quoted {
        code: Seq<char>,
        language: Seq<char>,
        path: Seq<char>,
        start_line: Option<u32>,
        end_line: Option<u32>,
    },
    Generated { code: Seq<char>, language: Seq<char> },
}

impl View for CodeChunk {
    type V = ChunkView;

    open spec fn view(&self) -> ChunkView {
        match self {
            CodeChunk::QuotedCode { code, language, path, start_line, end_line } => {
                ChunkView::Quoted {
                    code: code@,
                    language: language@,
                    path: path@,
                    start_line: *start_line,
                    end_line: *end_line,
                }
            },
            CodeChunk::GeneratedCode { code, language } => {
                ChunkView::Generated { code: code@, language: language@ }
            },
        }
    }
}

// ---------------------------------------------------------------------------
// Parsing a repaired tagged region
// ---------------------------------------------------------------------------
/// The raw text of each field seen so far while parsing.
pub struct FieldsV {
    pub code: Option<Seq<char>>,
    pub language: Option<Seq<char>>,
    pub path: Option<Seq<char>>,
    pub start_line: Option<Seq<char>>,
    pub end_line: Option<Seq<char>>,
}

pub open spec fn empty_fields() -> FieldsV {
    FieldsV { code: None, language: None, path: None, start_line: None, end_line: None }
}

/// The inner tags that map onto fields of the variant being parsed; any other
/// inner tag is ignored.
pub open spec fn is_known_field(quoted: bool, name: Seq<char>) -> bool {
    ||| name == "Code"@
    ||| name == "Language"@
    ||| (quoted && (name == "Path"@ || name == "StartLine"@ || name == "EndLine"@))
}

pub open spec fn field_of(acc: FieldsV, name: Seq<char>) -> Option<Seq<char>> {
    if name == "Code"@ {
        acc.code
    } else if name == "Language"@ {
        acc.language
    } else if name == "Path"@ {
        acc.path
    } else if name == "StartLine"@ {
        acc.start_line
    } else {
        acc.end_line
    }
}

pub open spec fn set_field(acc: FieldsV, name: Seq<char>, v: Seq<char>) -> FieldsV {
    if name == "Code"@ {
        FieldsV { code: Some(v), ..acc }
    } else if name == "Language"@ {
        FieldsV { language: Some(v), ..acc }
    } else if name == "Path"@ {
        FieldsV { path: Some(v), ..acc }
    } else if name == "StartLine"@ {
        FieldsV { start_line: Some(v), ..acc }
    } else {
        FieldsV { end_line: Some(v), ..acc }
    }
}

pub open spec fn has_lt(t: Seq<char>) -> bool {
    exists|i: int| 0 <= i < t.len() && t[i] == '<'
}

pub open spec fn outer_close(quoted: bool) -> Seq<char> {
    if quoted {
        "</QuotedCode>"@
    } else {
        "</GeneratedCode>"@
    }
}

/// Parse the fields of a tagged region from position `i` up to the outer
/// closing tag: whitespace between elements is skipped, a known field is
/// collected (its text trimmed, the five named entities decoded), an
/// unknown element is skipped,
/// and anything else — stray text, a half-written tag, a nested element
/// inside a field, a duplicated field, a missing closing tag — fails.
pub open spec fn parse_fields(x: Seq<char>, i: int, quoted: bool, acc: FieldsV) -> Option<FieldsV>
    decreases x.len() - i,
{
    if i < 0 || i > x.len() {
        None
    } else {
        let j = ws_end(x, i);
        proof {
            lemma_ws_end(x, i);
        }
        if j >= x.len() {
            None
        } else if occurs_at(x, outer_close(quoted), j) {
            if ws_end(x, j + outer_close(quoted).len()) == x.len() {
                Some(acc)
            } else {
                None
            }
        } else if x[j] == '<' {
            let k = word_end(x, j + 1);
            proof {
                lemma_word_end(x, j + 1);
            }
            if k == j + 1 || k >= x.len() || x[k] != '>' {
                None
            } else {
                let name = x.subrange(j + 1, k);
                match find_from(x, close_of(name), k + 1) {
                    None => None,
                    Some(c) => {
                        proof {
                            lemma_find_from_spec(x, close_of(name), k + 1);
                        }
                        let content = x.subrange(k + 1, c);
                        let nxt = c + close_of(name).len();
                        if is_known_field(quoted, name) {
                            if has_lt(content) || field_of(acc, name) is Some {
                                None
                            } else {
                                parse_fields(
                                    x,
                                    nxt,
                                    quoted,
                                    set_field(acc, name, trim_s(unescape_xml(content))),
                                )
                            }
                        } else {
                            parse_fields(x, nxt, quoted, acc)
                        }
                    },
                }
            }
        } else {
            None
        }
    }
}

/// A line-number field's value: absent stays absent, empty text is zero, and
/// otherwise the text must denote a 32-bit number or the value is dropped.
pub open spec fn lineno_of(raw: Option<Seq<char>>) -> Option<u32> {
    match raw {
        None => None,
        Some(t) => if t.len() == 0 {
            Some(0)
        } else {
            parse_u32_s(t)
        },
    }
}

pub open spec fn or_empty(o: Option<Seq<char>>) -> Seq<char> {
    match o {
        Some(s) => s,
        None => Seq::empty(),
    }
}

/// Parse a repaired tagged region into a chunk: the outer tag picks the
/// variant, missing fields default to empty text or absent line numbers.
pub open spec fn parse_chunk(x: Seq<char>) -> Option<ChunkView> {
    if occurs_at(x, quoted_open(), 0) {
        match parse_fields(x, quoted_open().len() as int, true, empty_fields()) {
            None => None,
            Some(f) => Some(
                ChunkView::Quoted {
                    code: or_empty(f.code),
                    language: or_empty(f.language),
                    path: or_empty(f.path),
                    start_line: lineno_of(f.start_line),
                    end_line: lineno_of(f.end_line),
                },
            ),
        }
    } else if occurs_at(x, generated_open(), 0) {
        match parse_fields(x, generated_open().len() as int, false, empty_fields()) {
            None => None,
            Some(f) => Some(
                ChunkView::Generated { code: or_empty(f.code), language: or_empty(f.language) },
            ),
        }
    } else {
        None
    }
}

pub open spec fn view_opt_vec(o: Option<Vec<char>>) -> Option<Seq<char>> {
    match o {
        Some(v) => Some(v@),
        None => None,
    }
}

fn has_lt_exec(t: &Vec<char>) -> (r: bool)
    ensures
        r == has_lt(t@),
{
    let mut i: usize = 0;
    while i < t.len()
        invariant
            0 <= i <= t@.len(),
            forall|q: int| 0 <= q < i ==> t@[q] != '<',
        decreases t@.len() - i,
    {
        if t[i] == '<' {
            return true;
        }
        i += 1;
    }
    false
}

fn lineno_exec(o: &Option<Vec<char>>) -> (r: Option<u32>)
    ensures
        r == lineno_of(view_opt_vec(*o)),
{
    match o {
        None => None,
        Some(t) => {
            if t.len() == 0 {
                Some(0)
            } else {
                parse_u32_chars(t)
            }
        },
    }
}

fn or_empty_exec(o: Option<Vec<char>>) -> (r: String)
    ensures
        r@ == or_empty(view_opt_vec(o)),
{
    match o {
        Some(v) => string_of(&v),
        None => String::new(),
    }
}

proof fn lemma_field_names()
    ensures
        "Code"@ != "Language"@,
        "Code"@ != "Path"@,
        "Code"@ != "StartLine"@,
        "Code"@ != "EndLine"@,
        "Language"@ != "Path"@,
        "Language"@ != "StartLine"@,
        "Language"@ != "EndLine"@,
        "Path"@ != "StartLine"@,
        "Path"@ != "EndLine"@,
        "StartLine"@ != "EndLine"@,
{
    reveal_strlit("Code");
    reveal_strlit("Language");
    reveal_strlit("Path");
    reveal_strlit("StartLine");
    reveal_strlit("EndLine");
    assert("Code"@.len() == 4);
    assert("Language"@.len() == 8);
    assert("Path"@.len() == 4);
    assert("StartLine"@.len() == 9);
    assert("EndLine"@.len() == 7);
    assert("Code"@[0] == 'C' && "Path"@[0] == 'P');
}

/// Collect the fields of the region, then build the chunk for the variant.
fn parse_fields_exec(v: &Vec<char>, start: usize, quoted: bool) -> (r: Option<CodeChunk>)
    requires
        start <= v@.len(),
    ensures
        match r {
            Some(c) => {
                &&& parse_fields(v@, start as int, quoted, empty_fields()) matches Some(f)
                &&& c@ == (if quoted {
                    ChunkView::Quoted {
                        code: or_empty(f.code),
                        language: or_empty(f.language),
                        path: or_empty(f.path),
                        start_line: lineno_of(f.start_line),
                        end_line: lineno_of(f.end_line),
                    }
                } else {
                    ChunkView::Generated { code: or_empty(f.code), language: or_empty(f.language) }
                })
            },
            None => parse_fields(v@, start as int, quoted, empty_fields()) is None,
        },
{
    let cls_outer = if quoted {
        chars_of("</QuotedCode>")
    } else {
        chars_of("</GeneratedCode>")
    };
    assert(cls_outer@ == outer_close(quoted));
    let pat_code = chars_of("Code");
    let pat_lang = chars_of("Language");
    let pat_path = chars_of("Path");
    let pat_sl = chars_of("StartLine");
    let pat_el = chars_of("EndLine");
    let mut f_code: Option<Vec<char>> = None;
    let mut f_lang: Option<Vec<char>> = None;
    let mut f_path: Option<Vec<char>> = None;
    let mut f_sl: Option<Vec<char>> = None;
    let mut f_el: Option<Vec<char>> = None;
    let mut i: usize = start;
    loop
        invariant
            i <= v@.len(),
            cls_outer@ == outer_close(quoted),
            pat_code@ == "Code"@,
            pat_lang@ == "Language"@,
            pat_path@ == "Path"@,
            pat_sl@ == "StartLine"@,
            pat_el@ == "EndLine"@,
            parse_fields(v@, start as int, quoted, empty_fields()) == parse_fields(
                v@,
                i as int,
                quoted,
                FieldsV {
                    code: view_opt_vec(f_code),
                    language: view_opt_vec(f_lang),
                    path: view_opt_vec(f_path),
                    start_line: view_opt_vec(f_sl),
                    end_line: view_opt_vec(f_el),
                },
            ),
        decreases v@.len() - i,
    {
        let ghost acc = FieldsV {
            code: view_opt_vec(f_code),
            language: view_opt_vec(f_lang),
            path: view_opt_vec(f_path),
            start_line: view_opt_vec(f_sl),
            end_line: view_opt_vec(f_el),
        };
        let j = scan_ws(v, i);
        if j == v.len() {
            return None;
        }
        if matches_at(v, &cls_outer, j) {
            let t = scan_ws(v, j + cls_outer.len());
            if t == v.len() {
                let ghost fin = parse_fields(v@, start as int, quoted, empty_fields());
                assert(fin == Some(acc));
                if quoted {
                    let start_line = lineno_exec(&f_sl);
                    let end_line = lineno_exec(&f_el);
                    return Some(
                        CodeChunk::QuotedCode {
                            code: or_empty_exec(f_code),
                            language: or_empty_exec(f_lang),
                            path: or_empty_exec(f_path),
                            start_line,
                            end_line,
                        },
                    );
                } else {
                    return Some(
                        CodeChunk::GeneratedCode {
                            code: or_empty_exec(f_code),
                            language: or_empty_exec(f_lang),
                        },
                    );
                }
            } else {
                return None;
            }
        }
        if v[j] != '<' {
            return None;
        }
        let k = scan_word(v, j + 1);
        if k == j + 1 || k == v.len() || v[k] != '>' {
            return None;
        }
        let name = subvec(v, j + 1, k);
        let mut cls: Vec<char> = Vec::new();
        cls.push('<');
        cls.push('/');
        push_all(&mut cls, &name);
        cls.push('>');
        assert(cls@ =~= close_of(name@));
        let c = match find_sub_from(v, &cls, k + 1) {
            None => {
                return None;
            },
            Some(c) => c,
        };
        proof {
            lemma_find_from_spec(v@, cls@, k + 1);
        }
        let n = v.len();
        assert(c + cls@.len() <= n);
        let content = subvec(v, k + 1, c);
        let nxt = c + cls.len();
        let is_code = eq_chars(&name, &pat_code);
        let is_lang = eq_chars(&name, &pat_lang);
        let is_path = quoted && eq_chars(&name, &pat_path);
        let is_sl = quoted && eq_chars(&name, &pat_sl);
        let is_el = quoted && eq_chars(&name, &pat_el);
        proof {
            lemma_field_names();
        }
        if is_code || is_lang || is_path || is_sl || is_el {
            assert(is_known_field(quoted, name@));
            if has_lt_exec(&content) {
                return None;
            }
            let already = if is_code {
                f_code.is_some()
            } else if is_lang {
                f_lang.is_some()
            } else if is_path {
                f_path.is_some()
            } else if is_sl {
                f_sl.is_some()
            } else {
                f_el.is_some()
            };
            if already {
                assert(field_of(acc, name@) is Some);
                return None;
            }
            assert(field_of(acc, name@) is None);
            let unescaped = crate::escape::unescape_xml_entities(&content);
            let val = trim_chars(&unescaped);
            if is_code {
                f_code = Some(val);
            } else if is_lang {
                f_lang = Some(val);
            } else if is_path {
                f_path = Some(val);
            } else if is_sl {
                f_sl = Some(val);
            } else {
                f_el = Some(val);
            }
            proof {
                let acc2 = FieldsV {
                    code: view_opt_vec(f_code),
                    language: view_opt_vec(f_lang),
                    path: view_opt_vec(f_path),
                    start_line: view_opt_vec(f_sl),
                    end_line: view_opt_vec(f_el),
                };
                assert(acc2 == set_field(acc, name@, trim_s(unescape_xml(content@))));
            }
        } else {
            assert(!is_known_field(quoted, name@));
        }
        i = nxt;
    }
}

/// Parse a repaired tagged region into a chunk.
pub fn parse_chunk_chars(v: &Vec<char>) -> (r: Option<CodeChunk>)
    ensures
        match r {
            Some(c) => parse_chunk(v@) == Some(c@),
            None => parse_chunk(v@) is None,
        },
{
    let qpat = chars_of("<QuotedCode>");
    let gpat = chars_of("<GeneratedCode>");
    if matches_at(v, &qpat, 0) {
        parse_fields_exec(v, qpat.len(), true)
    } else if matches_at(v, &gpat, 0) {
        parse_fields_exec(v, gpat.len(), false)
    } else {
        None
    }
}

// ---------------------------------------------------------------------------
// Markdown fenced-block form
// ---------------------------------------------------------------------------
pub open spec fn line_or_zero(n: Option<u32>) -> int {
    match n {
        Some(v) => v as int,
        None => 0,
    }
}

/// The fenced code block a chunk serializes to: an attribute header of
/// comma-separated `key:value` pairs, then the raw code.
pub open spec fn chunk_md(c: ChunkView) -> Seq<char> {
    match c {
        ChunkView::Quoted { code, language, path, start_line, end_line } => {
            "```type:Quoted,lang:"@ + language + ",path:"@ + path + ",lines:"@ + dec_rec(
                line_or_zero(start_line),
            ) + seq!['-'] + dec_rec(line_or_zero(end_line)) + seq!['\n'] + code + "\n```"@
        },
        ChunkView::Generated { code, language } => {
            "```type:Generated,lang:"@ + language + ",path:,lines:"@ + dec_rec(0) + seq!['-']
                + dec_rec(0) + seq!['\n'] + code + "\n```"@
        },
    }
}

fn push_str(dst: &mut Vec<char>, s: &str)
    ensures
        final(dst)@ == old(dst)@ + s@,
{
    let v = chars_of(s);
    push_all(dst, &v);
}

impl CodeChunk {
    /// Serialize to a Markdown fenced block with the attribute header.
    pub fn to_markdown(&self) -> (r: String)
        ensures
            r@ == chunk_md(self@),
    {
        string_of(&chunk_md_chars(self))
    }
}

/// The fenced-block serialization, as a character vector.
pub fn chunk_md_chars(c: &CodeChunk) -> (r: Vec<char>)
    ensures
        r@ == chunk_md(c@),
{
    {
        let mut out: Vec<char> = Vec::new();
        match c {
            CodeChunk::QuotedCode { code, language, path, start_line, end_line } => {
                push_str(&mut out, "```type:Quoted,lang:");
                push_str(&mut out, language.as_str());
                push_str(&mut out, ",path:");
                push_str(&mut out, path.as_str());
                push_str(&mut out, ",lines:");
                let s = match start_line {
                    Some(v) => *v,
                    None => 0,
                };
                let sd = u32_to_chars(s);
                push_all(&mut out, &sd);
                out.push('-');
                let e = match end_line {
                    Some(v) => *v,
                    None => 0,
                };
                let ed = u32_to_chars(e);
                push_all(&mut out, &ed);
                out.push('\n');
                push_str(&mut out, code.as_str());
                push_str(&mut out, "\n```");
                assert(out@ =~= chunk_md(c@));
            },
            CodeChunk::GeneratedCode { code, language } => {
                push_str(&mut out, "```type:Generated,lang:");
                push_str(&mut out, language.as_str());
                push_str(&mut out, ",path:,lines:");
                let sd = u32_to_chars(0);
                push_all(&mut out, &sd);
                out.push('-');
                let ed = u32_to_chars(0);
                push_all(&mut out, &ed);
                out.push('\n');
                push_str(&mut out, code.as_str());
                push_str(&mut out, "\n```");
                assert(out@ =~= chunk_md(c@));
            },
        }
        out
    }
}

// ---------------------------------------------------------------------------
// Fence attributes and the tagged form they rebuild (encode direction)
// ---------------------------------------------------------------------------
/// One `key:value` pair from a fence header parameter, if the parameter has
/// a colon; the value runs to the second colon or to the end.
pub open spec fn pair_of(param: Seq<char>) -> Seq<(Seq<char>, Seq<char>)> {
    let t = trim_s(param);
    match find_from(t, seq![':'], 0) {
        None => Seq::empty(),
        Some(c1) => {
            let key = t.subrange(0, c1);
            let value = match find_from(t, seq![':'], c1 + 1) {
                Some(c2) => t.subrange(c1 + 1, c2),
                None => t.subrange(c1 + 1, t.len() as int),
            };
            seq![(key, value)]
        },
    }
}

/// The `key:value` pairs of a fence header: comma-separated parameters, each
/// trimmed; parameters without a colon are dropped.
pub open spec fn attr_pairs(info: Seq<char>, from: int) -> Seq<(Seq<char>, Seq<char>)>
    decreases info.len() - from,
{
    if from < 0 || from > info.len() {
        Seq::empty()
    } else {
        let e = match find_from(info, seq![','], from) {
            Some(c) => c,
            None => info.len() as int,
        };
        proof {
            lemma_find_from_spec(info, seq![','], from);
        }
        let this = pair_of(info.subrange(from, e));
        if e < info.len() {
            this + attr_pairs(info, e + 1)
        } else {
            this
        }
    }
}

/// The value for `key`, the last occurrence winning.
pub open spec fn lookup_attr(ps: Seq<(Seq<char>, Seq<char>)>, key: Seq<char>) -> Option<Seq<char>>
    decreases ps.len(),
{
    if ps.len() == 0 {
        None
    } else if ps.last().0 == key {
        Some(ps.last().1)
    } else {
        lookup_attr(ps.drop_last(), key)
    }
}

pub open spec fn quoted_xml_parts(
    literal: Seq<char>,
    lang: Seq<char>,
    path: Seq<char>,
    start: Seq<char>,
    end: Seq<char>,
) -> Seq<char> {
    "<QuotedCode>\n<Code>\n"@ + literal + "</Code>\n<Language>"@ + lang + "</Language>\n<Path>"@
        + path + "</Path>\n<StartLine>"@ + start + "</StartLine>\n<EndLine>"@ + end
        + "</EndLine>\n</QuotedCode>"@
}

pub open spec fn generated_xml_parts(literal: Seq<char>, lang: Seq<char>) -> Seq<char> {
    "<GeneratedCode>\n<Code>\n"@ + literal + "</Code>\n<Language>"@ + lang
        + "</Language>\n</GeneratedCode>"@
}

/// The tagged region a fenced block rebuilds to, when its header carries a
/// recognized `type` and the attributes that type needs; otherwise nothing,
/// and the block stays an ordinary code block.
pub open spec fn fence_xml(info: Seq<char>, literal: Seq<char>) -> Option<Seq<char>> {
    let ps = attr_pairs(info, 0);
    match lookup_attr(ps, "type"@) {
        None => None,
        Some(ty) => {
            if ty == "Quoted"@ {
                match (lookup_attr(ps, "path"@), lookup_attr(ps, "lang"@), lookup_attr(
                    ps,
                    "lines"@,
                )) {
                    (Some(path), Some(lang), Some(lines)) => {
                        match find_from(lines, seq!['-'], 0) {
                            None => None,
                            Some(d) => {
                                let start = lines.subrange(0, d);
                                let end = match find_from(lines, seq!['-'], d + 1) {
                                    Some(d2) => lines.subrange(d + 1, d2),
                                    None => lines.subrange(d + 1, lines.len() as int),
                                };
                                Some(quoted_xml_parts(literal, lang, path, start, end))
                            },
                        }
                    },
                    _ => None,
                }
            } else if ty == "Generated"@ {
                match lookup_attr(ps, "lang"@) {
                    Some(lang) => Some(generated_xml_parts(literal, lang)),
                    None => None,
                }
            } else {
                None
            }
        },
    }
}

pub open spec fn pairs_view(ps: Seq<(Vec<char>, Vec<char>)>) -> Seq<(Seq<char>, Seq<char>)> {
    ps.map_values(|p: (Vec<char>, Vec<char>)| (p.0@, p.1@))
}

fn parse_attrs(info: &Vec<char>) -> (out: Vec<(Vec<char>, Vec<char>)>)
    ensures
        pairs_view(out@) == attr_pairs(info@, 0),
{
    let comma = chars_of(",");
    let colon = chars_of(":");
    proof {
        reveal_strlit(",");
        reveal_strlit(":");
        assert(comma@ =~= seq![',']);
        assert(colon@ =~= seq![':']);
    }
    let mut out: Vec<(Vec<char>, Vec<char>)> = Vec::new();
    let mut pos: usize = 0;
    let mut done = false;
    while !done
        invariant
            pos <= info@.len(),
            comma@ == seq![','],
            colon@ == seq![':'],
            attr_pairs(info@, 0) == pairs_view(out@) + (if done {
                Seq::<(Seq<char>, Seq<char>)>::empty()
            } else {
                attr_pairs(info@, pos as int)
            }),
        decreases info@.len() - pos + (if done {
            0int
        } else {
            1int
        }),
    {
        let ghost before = out@;
        let e = match find_sub_from(info, &comma, pos) {
            Some(c) => {
                proof {
                    lemma_find_from_spec(info@, comma@, pos as int);
                }
                c
            },
            None => info.len(),
        };
        let param = subvec(info, pos, e);
        let t = trim_chars(&param);
        match find_sub_from(&t, &colon, 0) {
            None => {
                assert(pair_of(param@) =~= Seq::<(Seq<char>, Seq<char>)>::empty());
            },
            Some(c1) => {
                proof {
                    lemma_find_from_spec(t@, colon@, 0);
                    lemma_find_from_spec(t@, colon@, c1 + 1);
                }
                let tn = t.len();
                assert(c1 + 1 <= tn);
                let key = subvec(&t, 0, c1);
                let value = match find_sub_from(&t, &colon, c1 + 1) {
                    Some(c2) => subvec(&t, c1 + 1, c2),
                    None => subvec(&t, c1 + 1, t.len()),
                };
                out.push((key, value));
                assert(pairs_view(out@) =~= pairs_view(before) + pair_of(param@));
            },
        }
        if e < info.len() {
            pos = e + 1;
        } else {
            pos = e;
            done = true;
        }
        assert(pairs_view(out@) + (if done {
            Seq::<(Seq<char>, Seq<char>)>::empty()
        } else {
            attr_pairs(info@, pos as int)
        }) =~= attr_pairs(info@, 0));
    }
    out
}

fn lookup_attr_exec(ps: &Vec<(Vec<char>, Vec<char>)>, key: &Vec<char>) -> (r: Option<Vec<char>>)
    ensures
        view_opt_vec(r) == lookup_attr(pairs_view(ps@), key@),
{
    let mut res: Option<Vec<char>> = None;
    let mut i: usize = 0;
    while i < ps.len()
        invariant
            0 <= i <= ps@.len(),
            view_opt_vec(res) == lookup_attr(pairs_view(ps@).take(i as int), key@),
        decreases ps@.len() - i,
    {
        proof {
            assert(pairs_view(ps@).take(i + 1).drop_last() =~= pairs_view(ps@).take(i as int));
            assert(pairs_view(ps@).take(i + 1).last() == (ps@[i as int].0@, ps@[i as int].1@));
        }
        if eq_chars(&ps[i].0, key) {
            let v = &ps[i].1;
            res = Some(subvec(v, 0, v.len()));
            assert(view_opt_vec(res) == Some(ps@[i as int].1@.subrange(0, ps@[i as int].1@.len() as int)));
            assert(ps@[i as int].1@.subrange(0, ps@[i as int].1@.len() as int) =~= ps@[i as int].1@);
        }
        i += 1;
    }
    assert(pairs_view(ps@).take(ps@.len() as int) =~= pairs_view(ps@));
    res
}

/// Rebuild the tagged region a fenced block stands for, if its header
/// matches.
pub fn fence_to_xml(info: &Vec<char>, literal: &Vec<char>) -> (r: Option<Vec<char>>)
    ensures
        match r {
            Some(x) => fence_xml(info@, literal@) == Some(x@),
            None => fence_xml(info@, literal@) is None,
        },
{
    let ps = parse_attrs(info);
    let key_type = chars_of("type");
    let key_path = chars_of("path");
    let key_lang = chars_of("lang");
    let key_lines = chars_of("lines");
    let ty = match lookup_attr_exec(&ps, &key_type) {
        None => {
            return None;
        },
        Some(t) => t,
    };
    let ty_quoted = chars_of("Quoted");
    let ty_generated = chars_of("Generated");
    if eq_chars(&ty, &ty_quoted) {
        let path = lookup_attr_exec(&ps, &key_path);
        let lang = lookup_attr_exec(&ps, &key_lang);
        let lines = lookup_attr_exec(&ps, &key_lines);
        match (path, lang, lines) {
            (Some(path), Some(lang), Some(lines)) => {
                let dash = chars_of("-");
                proof {
                    reveal_strlit("-");
                    assert(dash@ =~= seq!['-']);
                }
                let d = match find_sub_from(&lines, &dash, 0) {
                    None => {
                        return None;
                    },
                    Some(d) => d,
                };
                proof {
                    lemma_find_from_spec(lines@, dash@, 0);
                    lemma_find_from_spec(lines@, dash@, d + 1);
                }
                let ln = lines.len();
                assert(d + 1 <= ln);
                let start = subvec(&lines, 0, d);
                let end = match find_sub_from(&lines, &dash, d + 1) {
                    Some(d2) => subvec(&lines, d + 1, d2),
                    None => subvec(&lines, d + 1, lines.len()),
                };
                let mut out: Vec<char> = Vec::new();
                push_str(&mut out, "<QuotedCode>\n<Code>\n");
                push_all(&mut out, literal);
                push_str(&mut out, "</Code>\n<Language>");
                push_all(&mut out, &lang);
                push_str(&mut out, "</Language>\n<Path>");
                push_all(&mut out, &path);
                push_str(&mut out, "</Path>\n<StartLine>");
                push_all(&mut out, &start);
                push_str(&mut out, "</StartLine>\n<EndLine>");
                push_all(&mut out, &end);
                push_str(&mut out, "</EndLine>\n</QuotedCode>");
                assert(out@ =~= quoted_xml_parts(literal@, lang@, path@, start@, end@));
                Some(out)
            },
            _ => None,
        }
    } else if eq_chars(&ty, &ty_generated) {
        match lookup_attr_exec(&ps, &key_lang) {
            Some(lang) => {
                let mut out: Vec<char> = Vec::new();
                push_str(&mut out, "<GeneratedCode>\n<Code>\n");
                push_all(&mut out, literal);
                push_str(&mut out, "</Code>\n<Language>");
                push_all(&mut out, &lang);
                push_str(&mut out, "</Language>\n</GeneratedCode>");
                assert(out@ =~= generated_xml_parts(literal@, lang@));
                Some(out)
            },
            None => None,
        }
    } else {
        None
    }
}

// ---------------------------------------------------------------------------
// Redacted tagged form
// ---------------------------------------------------------------------------
/// The fixed marker that replaces a code payload under redaction.
pub open spec fn redaction_marker() -> Seq<char> {
    "[REDACTED]"@
}

/// The tagged form of a chunk with its code replaced by the marker; line
/// number fields appear only when present.
pub open spec fn redacted_xml(c: ChunkView) -> Seq<char> {
    match c {
        ChunkView::Quoted { code, language, path, start_line, end_line } => {
            "<QuotedCode>\n<Code>[REDACTED]</Code>\n<Language>"@ + language + "</Language>\n<Path>"@
                + path + "</Path>\n"@ + (match start_line {
                Some(n) => "<StartLine>"@ + dec_rec(n as int) + "</StartLine>\n"@,
                None => Seq::<char>::empty(),
            }) + (match end_line {
                Some(n) => "<EndLine>"@ + dec_rec(n as int) + "</EndLine>\n"@,
                None => Seq::<char>::empty(),
            }) + "</QuotedCode>"@
        },
        ChunkView::Generated { code, language } => {
            "<GeneratedCode>\n<Code>[REDACTED]</Code>\n<Language>"@ + language
                + "</Language>\n</GeneratedCode>"@
        },
    }
}

/// Render the redacted tagged form.
pub fn redact_chunk(c: &CodeChunk) -> (r: Vec<char>)
    ensures
        r@ == redacted_xml(c@),
{
    let mut out: Vec<char> = Vec::new();
    match c {
        CodeChunk::QuotedCode { code, language, path, start_line, end_line } => {
            push_str(&mut out, "<QuotedCode>\n<Code>[REDACTED]</Code>\n<Language>");
            push_str(&mut out, language.as_str());
            push_str(&mut out, "</Language>\n<Path>");
            push_str(&mut out, path.as_str());
            push_str(&mut out, "</Path>\n");
            match start_line {
                Some(n) => {
                    push_str(&mut out, "<StartLine>");
                    let d = u32_to_chars(*n);
                    push_all(&mut out, &d);
                    push_str(&mut out, "</StartLine>\n");
                },
                None => {},
            }
            match end_line {
                Some(n) => {
                    push_str(&mut out, "<EndLine>");
                    let d = u32_to_chars(*n);
                    push_all(&mut out, &d);
                    push_str(&mut out, "</EndLine>\n");
                },
                None => {},
            }
            push_str(&mut out, "</QuotedCode>");
            assert(out@ =~= redacted_xml(c@));
        },
        CodeChunk::GeneratedCode { code, language } => {
            push_str(&mut out, "<GeneratedCode>\n<Code>[REDACTED]</Code>\n<Language>");
            push_str(&mut out, language.as_str());
            push_str(&mut out, "</Language>\n</GeneratedCode>");
            assert(out@ =~= redacted_xml(c@));
        },
    }
    out
}

/// Law (redaction): the redacted form of a chunk does not depend on its code
/// at all — two chunks that agree on everything but the code redact to the
/// same text, so nothing of the code can reach the redacted output.
pub proof fn lemma_redaction_ignores_code(c1: ChunkView, c2: ChunkView)
    requires
        match (c1, c2) {
            (
                ChunkView::Quoted { code: _, language: l1, path: p1, start_line: s1, end_line: e1 },
                ChunkView::Quoted { code: _, language: l2, path: p2, start_line: s2, end_line: e2 },
            ) => l1 == l2 && p1 == p2 && s1 == s2 && e1 == e2,
            (
                ChunkView::Generated { code: _, language: l1 },
                ChunkView::Generated { code: _, language: l2 },
            ) => l1 == l2,
            _ => false,
        },
    ensures
        redacted_xml(c1) == redacted_xml(c2),
{
}

/// Law (redaction): in the redacted form of any chunk, the entire code
/// element is the fixed marker: `<Code>[REDACTED]</Code>` stands right after
/// the outer opening tag and its newline.
pub proof fn lemma_redaction_marker(c: ChunkView)
    ensures
        match c {
            ChunkView::Quoted { .. } => occurs_at(
                redacted_xml(c),
                "<Code>[REDACTED]</Code>"@,
                quoted_open().len() as int + 1,
            ),
            ChunkView::Generated { .. } => occurs_at(
                redacted_xml(c),
                "<Code>[REDACTED]</Code>"@,
                generated_open().len() as int + 1,
            ),
        },
{
    reveal_strlit("<QuotedCode>");
    reveal_strlit("<GeneratedCode>");
    reveal_strlit("<Code>[REDACTED]</Code>");
    reveal_strlit("<QuotedCode>\n<Code>[REDACTED]</Code>\n<Language>");
    reveal_strlit("<GeneratedCode>\n<Code>[REDACTED]</Code>\n<Language>");
    match c {
        ChunkView::Quoted { .. } => {
            let x = redacted_xml(c);
            let a = "<QuotedCode>\n<Code>[REDACTED]</Code>\n<Language>"@;
            assert(forall|i: int| 0 <= i < a.len() ==> x[i] == a[i]);
            assert(x.subrange(13, 13 + "<Code>[REDACTED]</Code>"@.len() as int)
                =~= "<Code>[REDACTED]</Code>"@);
        },
        ChunkView::Generated { .. } => {
            let x = redacted_xml(c);
            let a = "<GeneratedCode>\n<Code>[REDACTED]</Code>\n<Language>"@;
            assert(forall|i: int| 0 <= i < a.len() ==> x[i] == a[i]);
            assert(x.subrange(16, 16 + "<Code>[REDACTED]</Code>"@.len() as int)
                =~= "<Code>[REDACTED]</Code>"@);
        },
    }
}

// ---------------------------------------------------------------------------
// The round trip on a well-formed generated block
// ---------------------------------------------------------------------------
proof fn lemma_trim_fixed_ends(code: Seq<char>)
    requires
        trim_s(code) == code,
        code.len() > 0,
    ensures
        !is_space(code[0]),
        !is_space(code[code.len() - 1]),
{
    lemma_ws_end(code, 0);
    lemma_rtrim_end(code, code.len() as int);
    let b = ws_end(code, 0);
    let e = rtrim_end(code, code.len() as int);
    if b <= e {
        assert(code.subrange(b, e).len() == e - b);
        assert(b == 0 && e == code.len());
        if is_space(code[0]) {
            assert(ws_end(code, 0) == ws_end(code, 1));
            lemma_ws_end(code, 1);
            assert(false);
        }
        if is_space(code[code.len() - 1]) {
            assert(rtrim_end(code, code.len() as int) == rtrim_end(code, code.len() - 1));
            lemma_rtrim_end(code, code.len() - 1);
            assert(false);
        }
    } else {
        assert(code.len() == 0);
    }
}

proof fn lemma_trim_wrap(code: Seq<char>)
    requires
        trim_s(code) == code,
    ensures
        trim_s(seq!['\n'] + code + seq!['\n']) == code,
{
    let pay = seq!['\n'] + code + seq!['\n'];
    let l = code.len() as int;
    assert(pay.len() == l + 2);
    assert(pay[0] == '\n' && pay[l + 1] == '\n');
    if l == 0 {
        assert(pay[1] == '\n');
        assert(ws_end(pay, 0) == ws_end(pay, 1));
        assert(ws_end(pay, 1) == ws_end(pay, 2));
        assert(ws_end(pay, 2) == 2);
        assert(rtrim_end(pay, 2) == rtrim_end(pay, 1));
        assert(rtrim_end(pay, 1) == rtrim_end(pay, 0));
        assert(rtrim_end(pay, 0) == 0);
        assert(trim_s(pay) =~= code);
    } else {
        lemma_trim_fixed_ends(code);
        assert(pay[1] == code[0]);
        assert(pay[l] == code[l - 1]);
        assert(ws_end(pay, 0) == ws_end(pay, 1));
        assert(ws_end(pay, 1) == 1);
        assert(rtrim_end(pay, l + 2) == rtrim_end(pay, l + 1));
        assert(rtrim_end(pay, l + 1) == l + 1);
        assert(trim_s(pay) =~= code);
    }
}

/// The closing passes leave the rebuilt generated region alone: the three
/// tags it holds are closed, and no other tag of the vocabulary occurs.
proof fn lemma_buf_contains(buf: Seq<char>, nl: int, m: int)
    requires
        nl >= 0,
        m >= 0,
        buf.len() == 68 + nl + m,
        forall|i: int|
            0 <= i < buf.len() && buf[i] == '<' ==> (i == 0 || i == 16 || i == 22 + nl || i == 30
                + nl || i == 40 + nl + m || i == 52 + nl + m),
        buf[1] == 'G' && buf[17] == 'C' && buf[23 + nl] == '/' && buf[31 + nl] == 'L' && buf[41 + nl
            + m] == '/' && buf[53 + nl + m] == '/',
        occurs_at(buf, "</Code>"@, 22 + nl),
        occurs_at(buf, "</Language>"@, 40 + nl + m),
        occurs_at(buf, "</GeneratedCode>"@, 52 + nl + m),
    ensures
        crate::repair::close_missing_from(buf, 0) == buf,
{
    reveal_strlit("Code");
    reveal_strlit("Language");
    reveal_strlit("Path");
    reveal_strlit("StartLine");
    reveal_strlit("EndLine");
    reveal_strlit("QuotedCode");
    reveal_strlit("GeneratedCode");
    reveal_strlit("</Code>");
    reveal_strlit("</Language>");
    reveal_strlit("</GeneratedCode>");
    assert(close_of("Code"@) =~= "</Code>"@);
    assert(close_of("Language"@) =~= "</Language>"@);
    assert(close_of("GeneratedCode"@) =~= "</GeneratedCode>"@);
    crate::text::lemma_contains_iff(buf, close_of("Code"@));
    crate::text::lemma_contains_iff(buf, close_of("Language"@));
    crate::text::lemma_contains_iff(buf, close_of("GeneratedCode"@));
    assert(crate::text::contains_seq(buf, close_of("Code"@)));
    assert(crate::text::contains_seq(buf, close_of("Language"@)));
    assert(crate::text::contains_seq(buf, close_of("GeneratedCode"@)));
    assert(!crate::text::contains_seq(buf, crate::repair::open_of("Path"@))) by {
        let n = "Path"@;
        crate::text::lemma_contains_iff(buf, crate::repair::open_of(n));
        if crate::text::contains_seq(buf, crate::repair::open_of(n)) {
            let j = choose|j: int| occurs_at(buf, crate::repair::open_of(n), j);
            assert(buf.subrange(j, j + crate::repair::open_of(n).len() as int)[0] == buf[j]);
            assert(buf[j] == '<');
            assert(buf.subrange(j, j + crate::repair::open_of(n).len() as int)[1] == buf[j + 1]);
            assert(buf[j + 1] == 'P');
            assert(false);
        }
    }
    assert(!crate::text::contains_seq(buf, crate::repair::open_of("StartLine"@))) by {
        let n = "StartLine"@;
        crate::text::lemma_contains_iff(buf, crate::repair::open_of(n));
        if crate::text::contains_seq(buf, crate::repair::open_of(n)) {
            let j = choose|j: int| occurs_at(buf, crate::repair::open_of(n), j);
            assert(buf.subrange(j, j + crate::repair::open_of(n).len() as int)[0] == buf[j]);
            assert(buf[j] == '<');
            assert(buf.subrange(j, j + crate::repair::open_of(n).len() as int)[1] == buf[j + 1]);
            assert(buf[j + 1] == 'S');
            assert(false);
        }
    }
    assert(!crate::text::contains_seq(buf, crate::repair::open_of("EndLine"@))) by {
        let n = "EndLine"@;
        crate::text::lemma_contains_iff(buf, crate::repair::open_of(n));
        if crate::text::contains_seq(buf, crate::repair::open_of(n)) {
            let j = choose|j: int| occurs_at(buf, crate::repair::open_of(n), j);
            assert(buf.subrange(j, j + crate::repair::open_of(n).len() as int)[0] == buf[j]);
            assert(buf[j] == '<');
            assert(buf.subrange(j, j + crate::repair::open_of(n).len() as int)[1] == buf[j + 1]);
            assert(buf[j + 1] == 'E');
            assert(false);
        }
    }
    assert(!crate::text::contains_seq(buf, crate::repair::open_of("QuotedCode"@))) by {
        let n = "QuotedCode"@;
        crate::text::lemma_contains_iff(buf, crate::repair::open_of(n));
        if crate::text::contains_seq(buf, crate::repair::open_of(n)) {
            let j = choose|j: int| occurs_at(buf, crate::repair::open_of(n), j);
            assert(buf.subrange(j, j + crate::repair::open_of(n).len() as int)[0] == buf[j]);
            assert(buf[j] == '<');
            assert(buf.subrange(j, j + crate::repair::open_of(n).len() as int)[1] == buf[j + 1]);
            assert(buf[j + 1] == 'Q');
            assert(false);
        }
    }
    assert(crate::repair::apply_close(buf, crate::repair::tag_names()[0]) == buf);
    assert(crate::repair::apply_close(buf, crate::repair::tag_names()[1]) == buf);
    assert(crate::repair::apply_close(buf, crate::repair::tag_names()[2]) == buf);
    assert(crate::repair::apply_close(buf, crate::repair::tag_names()[3]) == buf);
    assert(crate::repair::apply_close(buf, crate::repair::tag_names()[4]) == buf);
    assert(crate::repair::apply_close(buf, crate::repair::tag_names()[5]) == buf);
    assert(crate::repair::apply_close(buf, crate::repair::tag_names()[6]) == buf);
    assert(crate::repair::close_missing_from(buf, 0) == crate::repair::close_missing_from(buf, 1));
    assert(crate::repair::close_missing_from(buf, 1) == crate::repair::close_missing_from(buf, 2));
    assert(crate::repair::close_missing_from(buf, 2) == crate::repair::close_missing_from(buf, 3));
    assert(crate::repair::close_missing_from(buf, 3) == crate::repair::close_missing_from(buf, 4));
    assert(crate::repair::close_missing_from(buf, 4) == crate::repair::close_missing_from(buf, 5));
    assert(crate::repair::close_missing_from(buf, 5) == crate::repair::close_missing_from(buf, 6));
    assert(crate::repair::close_missing_from(buf, 6) == crate::repair::close_missing_from(buf, 7));
    assert(crate::repair::close_missing_from(buf, 7) == buf);
}

/// Parsing the repaired generated region collects exactly its two fields.
proof fn lemma_parse_generated_fields(
    buf: Seq<char>,
    code: Seq<char>,
    lang: Seq<char>,
    nrm: Seq<char>,
)
    requires
        buf.len() == 68 + nrm.len() + lang.len(),
        forall|i: int|
            0 <= i < buf.len() ==> #[trigger] buf[i] == (if i < 22 {
                "<GeneratedCode>\n<Code>\n"@[i]
            } else if i < 22 + nrm.len() {
                nrm[i - 22]
            } else if i < 40 + nrm.len() {
                "</Code>\n<Language>"@[i - 22 - nrm.len()]
            } else if i < 40 + nrm.len() + lang.len() {
                lang[i - 40 - nrm.len()]
            } else {
                "</Language>\n</GeneratedCode>"@[i - 40 - nrm.len() - lang.len()]
            }),
        forall|i: int| 0 <= i < nrm.len() ==> nrm[i] != '<',
        wf_attr_text(lang),
        trim_s(unescape_xml(nrm)) == code,
        trim_s(unescape_xml(lang)) == lang,
    ensures
        parse_fields(buf, 15, false, empty_fields()) == Some(
            FieldsV {
                code: Some(code),
                language: Some(lang),
                path: None,
                start_line: None,
                end_line: None,
            },
        ),
{
    reveal_strlit("<GeneratedCode>\n<Code>\n");
    reveal_strlit("</Code>\n<Language>");
    reveal_strlit("</Language>\n</GeneratedCode>");
    reveal_strlit("</GeneratedCode>");
    reveal_strlit("</Code>");
    reveal_strlit("</Language>");
    reveal_strlit("Code");
    reveal_strlit("Language");
    lemma_field_names();
    let nl = nrm.len() as int;
    let m = lang.len() as int;
    let oc = outer_close(false);
    assert(oc == "</GeneratedCode>"@);
    assert(oc.len() == 16);
    // First element: `<Code>` holding the normalized payload.
    assert(ws_end(buf, 15) == 16) by {
        assert(ws_end(buf, 15) == ws_end(buf, 16));
    }
    assert(!occurs_at(buf, oc, 16)) by {
        if occurs_at(buf, oc, 16) {
            assert(buf.subrange(16, 32)[1] == buf[17]);
            assert(false);
        }
    }
    assert(buf[16] == '<');
    crate::text::lemma_word_end_run(buf, 17, 21);
    assert(word_end(buf, 17) == 21);
    assert(buf[21] == '>');
    let name1 = buf.subrange(17, 21);
    assert(name1 =~= "Code"@);
    assert(close_of(name1) =~= "</Code>"@);
    assert(occurs_at(buf, close_of(name1), 22 + nl)) by {
        assert(buf.subrange(22 + nl, 29 + nl) =~= "</Code>"@);
    }
    assert forall|j: int| 22 <= j < 22 + nl implies !occurs_at(buf, close_of(name1), j) by {
        if occurs_at(buf, close_of(name1), j) {
            assert(buf.subrange(j, j + 7)[0] == buf[j]);
            assert(buf[j] == '<');
            assert(nrm[j - 22] != '<');
            assert(false);
        }
    }
    crate::text::lemma_find_from_exact(buf, close_of(name1), 22, 22 + nl);
    assert(buf.subrange(22, 22 + nl) =~= nrm);
    assert(is_known_field(false, name1));
    assert(!has_lt(nrm));
    assert(field_of(empty_fields(), name1) is None);
    let acc1 = set_field(empty_fields(), name1, trim_s(unescape_xml(nrm)));
    assert(acc1 == FieldsV {
        code: Some(code),
        language: None,
        path: None,
        start_line: None,
        end_line: None,
    });
    assert(parse_fields(buf, 15, false, empty_fields()) == parse_fields(buf, 29 + nl, false, acc1));
    // Second element: `<Language>` holding the language.
    assert(buf[29 + nl] == '\n');
    assert(ws_end(buf, 29 + nl) == 30 + nl) by {
        assert(ws_end(buf, 29 + nl) == ws_end(buf, 30 + nl));
        assert(buf[30 + nl] == '<');
    }
    assert(!occurs_at(buf, oc, 30 + nl)) by {
        if occurs_at(buf, oc, 30 + nl) {
            assert(buf.subrange(30 + nl, 46 + nl)[1] == buf[31 + nl]);
            assert(false);
        }
    }
    assert(buf[30 + nl] == '<');
    crate::text::lemma_word_end_run(buf, 31 + nl, 39 + nl);
    assert(word_end(buf, 31 + nl) == 39 + nl);
    assert(buf[39 + nl] == '>');
    let name2 = buf.subrange(31 + nl, 39 + nl);
    assert(name2 =~= "Language"@);
    assert(close_of(name2) =~= "</Language>"@);
    assert(occurs_at(buf, close_of(name2), 40 + nl + m)) by {
        assert(buf.subrange(40 + nl + m, 51 + nl + m) =~= "</Language>"@);
    }
    assert forall|j: int| 40 + nl <= j < 40 + nl + m implies !occurs_at(
        buf,
        close_of(name2),
        j,
    ) by {
        if occurs_at(buf, close_of(name2), j) {
            assert(buf.subrange(j, j + 11)[0] == buf[j]);
            assert(buf[j] == '<');
            assert(lang[j - 40 - nl] != '<');
            assert(false);
        }
    }
    crate::text::lemma_find_from_exact(buf, close_of(name2), 40 + nl, 40 + nl + m);
    assert(buf.subrange(40 + nl, 40 + nl + m) =~= lang);
    assert(is_known_field(false, name2));
    assert(!has_lt(lang));
    assert(field_of(acc1, name2) is None);
    let acc2 = set_field(acc1, name2, trim_s(unescape_xml(lang)));
    assert(acc2 == FieldsV {
        code: Some(code),
        language: Some(lang),
        path: None,
        start_line: None,
        end_line: None,
    });
    assert(parse_fields(buf, 29 + nl, false, acc1) == parse_fields(buf, 51 + nl + m, false, acc2));
    // The outer closing tag, and nothing after it.
    assert(buf[51 + nl + m] == '\n');
    assert(ws_end(buf, 51 + nl + m) == 52 + nl + m) by {
        assert(ws_end(buf, 51 + nl + m) == ws_end(buf, 52 + nl + m));
        assert(buf[52 + nl + m] == '<');
    }
    assert(occurs_at(buf, oc, 52 + nl + m)) by {
        assert(buf.subrange(52 + nl + m, 68 + nl + m) =~= oc);
    }
    assert(ws_end(buf, 68 + nl + m) == buf.len());
    assert(parse_fields(buf, 51 + nl + m, false, acc2) == Some(acc2));
}

/// Whether a text is plausible as a field value that survives the round
/// trip: no whitespace, no markup, no ampersand, and none of the punctuation
/// that delimits a fence header.
pub open spec fn wf_attr_text(t: Seq<char>) -> bool {
    forall|i: int|
        0 <= i < t.len() ==> t[i] != '<' && t[i] != '&' && t[i] != ',' && t[i] != ':' && !is_space(
            t[i],
        )
}

/// Law (round trip on well-formed input, generated blocks): take any code
/// text that is trimmed, holds no literal `</Code>`, and is a fixed point of
/// un-escaping (no entity already stands in it), and any plausible language
/// text. Rebuilding the tagged region from the fenced block's parts — the
/// raw code with the trailing newline the engine reports, and the language —
/// then fixing the region up and parsing it yields exactly the chunk the
/// fenced block stood for.
#[verifier::rlimit(80)]
pub proof fn lemma_generated_round_trip(code: Seq<char>, lang: Seq<char>)
    requires
        trim_s(code) == code,
        !crate::text::contains_seq(code, code_close()),
        unescape3(seq!['\n'] + code + seq!['\n']) == seq!['\n'] + code + seq!['\n'],
        wf_attr_text(lang),
    ensures
        parse_chunk(
            crate::repair::spec_fixup(generated_xml_parts(code + seq!['\n'], lang)),
        ) == Some(ChunkView::Generated { code: code, language: lang }),
{
    reveal_strlit("<GeneratedCode>\n<Code>\n");
    reveal_strlit("</Code>\n<Language>");
    reveal_strlit("</Language>\n</GeneratedCode>");
    reveal_strlit("<GeneratedCode>");
    reveal_strlit("<QuotedCode>");
    reveal_strlit("<Code>");
    reveal_strlit("</Code>");
    reveal_strlit("</GeneratedCode>");
    reveal_strlit("Code");
    reveal_strlit("Language");
    reveal_strlit("</Language>");
    let h = "<GeneratedCode>\n<Code>\n"@;
    let bmid = "</Code>\n<Language>"@;
    let ctail = "</Language>\n</GeneratedCode>"@;
    let l = code.len() as int;
    let m = lang.len() as int;
    let x = generated_xml_parts(code + seq!['\n'], lang);
    assert(h.len() == 23 && bmid.len() == 18 && ctail.len() == 28);
    assert(x.len() == 70 + l + m);
    assert forall|i: int| 0 <= i < x.len() implies #[trigger] x[i] == (if i < 23 {
        h[i]
    } else if i < 23 + l {
        code[i - 23]
    } else if i == 23 + l {
        '\n'
    } else if i < 42 + l {
        bmid[i - 24 - l]
    } else if i < 42 + l + m {
        lang[i - 42 - l]
    } else {
        ctail[i - 42 - l - m]
    }) by {}
    // The fix-up applies: the region starts tagged and `<Code>` follows.
    assert(crate::repair::starts_tagged(x)) by {
        assert(ws_end(x, 0) == 0);
    }
    assert(occurs_at(x, generated_open(), 0)) by {
        assert(x.subrange(0, 15) =~= generated_open());
    }
    assert(!occurs_at(x, quoted_open(), 0)) by {
        if occurs_at(x, quoted_open(), 0) {
            assert(x.subrange(0, 12)[1] == x[1]);
            assert(false);
        }
    }
    assert(crate::repair::outer_tag_len(x, 0) == 15);
    assert(ws_end(x, 15) == 16) by {
        assert(ws_end(x, 15) == ws_end(x, 16));
    }
    assert(occurs_at(x, crate::repair::code_open(), 16)) by {
        assert(x.subrange(16, 22) =~= crate::repair::code_open());
    }
    assert(crate::repair::code_match_at(x, 0));
    assert(crate::repair::find_code_match(x, 0) == Some(0int));
    assert(crate::repair::payload_start(x, 0) == 22);
    // The payload runs to the first `</Code>`, which closes the element.
    let ccl = code_close();
    assert(ccl.len() == 7 && ccl[0] == '<');
    assert(occurs_at(x, ccl, 24 + l)) by {
        assert(x.subrange(24 + l, 31 + l) =~= ccl);
    }
    assert forall|j: int| 22 <= j < 24 + l implies !occurs_at(x, ccl, j) by {
        if occurs_at(x, ccl, j) {
            assert(x.subrange(j, j + 7)[0] == x[j]);
            assert(x[j] == '<');
            assert(23 <= j && j < 23 + l);
            if j + 7 <= 23 + l {
                assert(occurs_at(code, ccl, j - 23)) by {
                    assert(code.subrange(j - 23, j - 23 + 7) =~= x.subrange(j, j + 7));
                }
                crate::text::lemma_contains_iff(code, ccl);
                assert(false);
            } else {
                assert(x.subrange(j, j + 7)[23 + l - j] == x[23 + l]);
                assert(ccl[23 + l - j] == '\n');
                assert(false);
            }
        }
    }
    crate::text::lemma_find_from_exact(x, ccl, 22, 24 + l);
    let pay = x.subrange(22, 24 + l);
    assert(pay =~= seq!['\n'] + code + seq!['\n']);
    let nrm = crate::escape::normalize3(pay);
    let nl = nrm.len() as int;
    crate::escape::lemma_escape3_no_lt(unescape3(pay));
    assert(forall|i: int| 0 <= i < nl ==> nrm[i] != '<');
    let buf = x.subrange(0, 22) + nrm + x.subrange(24 + l, x.len() as int);
    assert(crate::repair::spec_fixup(x) == crate::repair::repair_tags(buf));
    assert(buf.len() == 68 + nl + m);
    assert forall|i: int| 0 <= i < buf.len() implies #[trigger] buf[i] == (if i < 22 {
        h[i]
    } else if i < 22 + nl {
        nrm[i - 22]
    } else if i < 40 + nl {
        bmid[i - 22 - nl]
    } else if i < 40 + nl + m {
        lang[i - 40 - nl]
    } else {
        ctail[i - 40 - nl - m]
    }) by {
        if 22 <= i < 22 + nl {
        } else if 22 + nl <= i {
            assert(buf[i] == x[i - nl + 2 + l]);
        }
    }
    // Nothing is stripped: every `<` in the buffer has a later `>`.
    assert(buf[buf.len() - 1] == '>');
    assert forall|i: int| 0 <= i < buf.len() && buf[i] == '<' implies crate::repair::has_gt_after(
        buf,
        i,
    ) by {
        assert(i < buf.len() - 1);
        assert(buf[buf.len() - 1] == '>');
    }
    crate::repair::lemma_strip_partial_id(buf);
    // Where the `<` stand in the buffer, and which tags occur.
    assert forall|i: int| 0 <= i < buf.len() && buf[i] == '<' implies (i == 0 || i == 16 || i == 22
        + nl || i == 30 + nl || i == 40 + nl + m || i == 52 + nl + m) by {}
    assert(buf[1] == 'G' && buf[17] == 'C' && buf[23 + nl] == '/' && buf[31 + nl] == 'L' && buf[41
        + nl + m] == '/' && buf[53 + nl + m] == '/');
    assert(occurs_at(buf, "</Code>"@, 22 + nl)) by {
        assert(buf.subrange(22 + nl, 29 + nl) =~= "</Code>"@);
    }
    assert(occurs_at(buf, "</Language>"@, 40 + nl + m)) by {
        assert(buf.subrange(40 + nl + m, 51 + nl + m) =~= "</Language>"@);
    }
    assert(occurs_at(buf, "</GeneratedCode>"@, 52 + nl + m)) by {
        assert(buf.subrange(52 + nl + m, 68 + nl + m) =~= "</GeneratedCode>"@);
    }
    lemma_buf_contains(buf, nl, m);
    assert(crate::repair::repair_tags(buf) == buf);
    assert(crate::repair::spec_fixup(x) == buf);
    // Parsing the repaired buffer.
    assert(!occurs_at(buf, quoted_open(), 0)) by {
        if occurs_at(buf, quoted_open(), 0) {
            assert(buf.subrange(0, 12)[1] == buf[1]);
            assert(false);
        }
    }
    assert(occurs_at(buf, generated_open(), 0)) by {
        assert(buf.subrange(0, 15) =~= generated_open());
    }
    assert(trim_s(unescape_xml(nrm)) == code) by {
        crate::escape::lemma_unescape_xml_escape(unescape3(pay));
        assert(unescape_xml(nrm) == unescape3(pay));
        assert(unescape3(pay) == pay);
        assert(pay == seq!['\n'] + code + seq!['\n']);
        lemma_trim_wrap(code);
    }
    assert(trim_s(unescape_xml(lang)) == lang) by {
        crate::escape::lemma_unescape_id_no_amp(lang);
        if lang.len() == 0 {
            assert(trim_s(lang) =~= lang);
        } else {
            assert(!is_space(lang[0]));
            assert(!is_space(lang[lang.len() - 1]));
            assert(ws_end(lang, 0) == 0);
            assert(rtrim_end(lang, lang.len() as int) == lang.len());
            assert(trim_s(lang) =~= lang);
        }
    }
    lemma_parse_generated_fields(buf, code, lang, nrm);
    assert(parse_chunk(buf) == Some(ChunkView::Generated { code: code, language: lang })) by {
        assert(generated_open().len() == 15);
    }
}

/// A header parameter of the shape `key:value`, with no whitespace and no
/// further colon, yields exactly that pair.
proof fn lemma_pair_of_kv(param: Seq<char>, key: Seq<char>, value: Seq<char>)
    requires
        param == key + seq![':'] + value,
        key.len() >= 1,
        forall|i: int| 0 <= i < param.len() ==> !is_space(param[i]),
        forall|i: int| 0 <= i < key.len() ==> key[i] != ':',
        forall|i: int| 0 <= i < value.len() ==> value[i] != ':',
    ensures
        pair_of(param) == seq![(key, value)],
{
    let kl = key.len() as int;
    assert(param.len() == kl + 1 + value.len());
    assert(param[kl] == ':');
    assert(forall|j: int| 0 <= j < kl ==> param[j] == key[j]);
    assert(forall|j: int| kl < j < param.len() ==> param[j] == value[j - kl - 1]);
    assert(ws_end(param, 0) == 0);
    assert(rtrim_end(param, param.len() as int) == param.len());
    assert(trim_s(param) =~= param);
    assert(occurs_at(param, seq![':'], kl)) by {
        assert(param.subrange(kl, kl + 1) =~= seq![':']);
    }
    assert forall|j: int| 0 <= j < kl implies !occurs_at(param, seq![':'], j) by {
        if occurs_at(param, seq![':'], j) {
            assert(param.subrange(j, j + 1)[0] == param[j]);
            assert(false);
        }
    }
    crate::text::lemma_find_from_exact(param, seq![':'], 0, kl);
    assert(param.subrange(0, kl) =~= key);
    crate::text::lemma_find_from_spec(param, seq![':'], kl + 1);
    match find_from(param, seq![':'], kl + 1) {
        Some(k2) => {
            assert(param.subrange(k2, k2 + 1)[0] == param[k2]);
            assert(false);
        },
        None => {},
    }
    assert(param.subrange(kl + 1, param.len() as int) =~= value);
    assert(pair_of(param) =~= seq![(key, value)]);
}

/// Law (round trip on well-formed input, generated blocks, header side): the
/// attribute header a generated chunk writes, handed back with any literal,
/// rebuilds exactly the tagged region of that literal and language.
#[verifier::rlimit(80)]
pub proof fn lemma_generated_header_parses(lang: Seq<char>, literal: Seq<char>)
    requires
        wf_attr_text(lang),
    ensures
        fence_xml("type:Generated,lang:"@ + lang + ",path:,lines:0-0"@, literal) == Some(
            generated_xml_parts(literal, lang),
        ),
{
    reveal_strlit("type:Generated,lang:");
    reveal_strlit(",path:,lines:0-0");
    reveal_strlit("type");
    reveal_strlit("Generated");
    reveal_strlit("lang");
    reveal_strlit("path");
    reveal_strlit("lines");
    reveal_strlit("0-0");
    reveal_strlit("Quoted");
    let h1 = "type:Generated,lang:"@;
    let h2 = ",path:,lines:0-0"@;
    let m = lang.len() as int;
    let info = h1 + lang + h2;
    assert(h1.len() == 20 && h2.len() == 16);
    assert(info.len() == 36 + m);
    assert forall|i: int| 0 <= i < info.len() implies #[trigger] info[i] == (if i < 20 {
        h1[i]
    } else if i < 20 + m {
        lang[i - 20]
    } else {
        h2[i - 20 - m]
    }) by {}
    let comma = seq![','];
    // "type:Generated" up to the first comma.
    assert(occurs_at(info, comma, 14)) by {
        assert(info.subrange(14, 15) =~= comma);
    }
    assert forall|j: int| 0 <= j < 14 implies !occurs_at(info, comma, j) by {
        if occurs_at(info, comma, j) {
            assert(info.subrange(j, j + 1)[0] == info[j]);
            assert(false);
        }
    }
    crate::text::lemma_find_from_exact(info, comma, 0, 14);
    let param0 = info.subrange(0, 14);
    assert(param0 =~= "type"@ + seq![':'] + "Generated"@);
    lemma_pair_of_kv(param0, "type"@, "Generated"@);
    // "lang:<lang>" up to the second comma.
    assert(occurs_at(info, comma, 20 + m)) by {
        assert(info.subrange(20 + m, 21 + m) =~= comma);
    }
    assert forall|j: int| 15 <= j < 20 + m implies !occurs_at(info, comma, j) by {
        if occurs_at(info, comma, j) {
            assert(info.subrange(j, j + 1)[0] == info[j]);
            assert(false);
        }
    }
    crate::text::lemma_find_from_exact(info, comma, 15, 20 + m);
    let param1 = info.subrange(15, 20 + m);
    assert(param1 =~= "lang"@ + seq![':'] + lang);
    lemma_pair_of_kv(param1, "lang"@, lang);
    // "path:" with an empty value.
    assert(occurs_at(info, comma, 26 + m)) by {
        assert(info.subrange(26 + m, 27 + m) =~= comma);
    }
    assert forall|j: int| 21 + m <= j < 26 + m implies !occurs_at(info, comma, j) by {
        if occurs_at(info, comma, j) {
            assert(info.subrange(j, j + 1)[0] == info[j]);
            assert(false);
        }
    }
    crate::text::lemma_find_from_exact(info, comma, 21 + m, 26 + m);
    let param2 = info.subrange(21 + m, 26 + m);
    assert(param2 =~= "path"@ + seq![':'] + Seq::<char>::empty());
    lemma_pair_of_kv(param2, "path"@, Seq::empty());
    // "lines:0-0" runs to the end.
    crate::text::lemma_find_from_spec(info, comma, 27 + m);
    match find_from(info, comma, 27 + m) {
        Some(k) => {
            assert(info.subrange(k, k + 1)[0] == info[k]);
            assert(false);
        },
        None => {},
    }
    let param3 = info.subrange(27 + m, 36 + m);
    assert(param3 =~= "lines"@ + seq![':'] + "0-0"@);
    lemma_pair_of_kv(param3, "lines"@, "0-0"@);
    // The pair list, and the lookups on it.
    let ps = seq![
        ("type"@, "Generated"@),
        ("lang"@, lang),
        ("path"@, Seq::<char>::empty()),
        ("lines"@, "0-0"@),
    ];
    assert(attr_pairs(info, 0) =~= ps) by {
        assert(attr_pairs(info, 27 + m) == pair_of(param3));
        assert(attr_pairs(info, 21 + m) == pair_of(param2) + attr_pairs(info, 27 + m));
        assert(attr_pairs(info, 15) == pair_of(param1) + attr_pairs(info, 21 + m));
        assert(attr_pairs(info, 0) == pair_of(param0) + attr_pairs(info, 15));
    }
    assert("type"@ != "lang"@ && "type"@ != "path"@ && "type"@ != "lines"@);
    assert("lang"@ != "path"@ && "lang"@ != "lines"@);
    assert("path"@ != "lines"@);
    let ps3 = ps.drop_last();
    let ps2 = ps3.drop_last();
    let ps1 = ps2.drop_last();
    assert(ps.last() == ("lines"@, "0-0"@));
    assert(ps3.last() == ("path"@, Seq::<char>::empty()));
    assert(ps2.last() == ("lang"@, lang));
    assert(ps1.last() == ("type"@, "Generated"@));
    assert(ps1.drop_last().len() == 0);
    assert(lookup_attr(ps, "type"@) == lookup_attr(ps3, "type"@));
    assert(lookup_attr(ps3, "type"@) == lookup_attr(ps2, "type"@));
    assert(lookup_attr(ps2, "type"@) == lookup_attr(ps1, "type"@));
    assert(lookup_attr(ps1, "type"@) == Some("Generated"@));
    assert(lookup_attr(ps, "lang"@) == lookup_attr(ps3, "lang"@));
    assert(lookup_attr(ps3, "lang"@) == lookup_attr(ps2, "lang"@));
    assert(lookup_attr(ps2, "lang"@) == Some(lang));
    assert("Generated"@ != "Quoted"@);
    assert(fence_xml(info, literal) == Some(generated_xml_parts(literal, lang)));
}

/// The closing passes leave the rebuilt quoted region alone.
proof fn lemma_buf_contains_q(buf: Seq<char>, nl: int, m: int, p: int, sn: int, en: int)
    requires
        nl >= 0 && m >= 0 && p >= 0 && sn >= 0 && en >= 0,
        buf.len() == 120 + nl + m + p + sn + en,
        forall|i: int|
            0 <= i < buf.len() && buf[i] == '<' ==> (i == 0 || i == 13 || i == 19 + nl || i == 27
                + nl || i == 37 + nl + m || i == 49 + nl + m || i == 55 + nl + m + p || i == 63 + nl
                + m + p || i == 74 + nl + m + p + sn || i == 87 + nl + m + p + sn || i == 96 + nl + m
                + p + sn + en || i == 107 + nl + m + p + sn + en),
        buf[1] == 'Q' && buf[14] == 'C' && buf[20 + nl] == '/' && buf[28 + nl] == 'L' && buf[38 + nl
            + m] == '/' && buf[50 + nl + m] == 'P' && buf[56 + nl + m + p] == '/' && buf[64 + nl + m
            + p] == 'S' && buf[75 + nl + m + p + sn] == '/' && buf[88 + nl + m + p + sn] == 'E'
            && buf[97 + nl + m + p + sn + en] == '/' && buf[108 + nl + m + p + sn + en] == '/',
        occurs_at(buf, "</Code>"@, 19 + nl),
        occurs_at(buf, "</Language>"@, 37 + nl + m),
        occurs_at(buf, "</Path>"@, 55 + nl + m + p),
        occurs_at(buf, "</StartLine>"@, 74 + nl + m + p + sn),
        occurs_at(buf, "</EndLine>"@, 96 + nl + m + p + sn + en),
        occurs_at(buf, "</QuotedCode>"@, 107 + nl + m + p + sn + en),
    ensures
        crate::repair::close_missing_from(buf, 0) == buf,
{
    reveal_strlit("Code");
    reveal_strlit("Language");
    reveal_strlit("Path");
    reveal_strlit("StartLine");
    reveal_strlit("EndLine");
    reveal_strlit("QuotedCode");
    reveal_strlit("GeneratedCode");
    reveal_strlit("</Code>");
    reveal_strlit("</Language>");
    reveal_strlit("</Path>");
    reveal_strlit("</StartLine>");
    reveal_strlit("</EndLine>");
    reveal_strlit("</QuotedCode>");
    assert(close_of("Code"@) =~= "</Code>"@);
    assert(close_of("Language"@) =~= "</Language>"@);
    assert(close_of("Path"@) =~= "</Path>"@);
    assert(close_of("StartLine"@) =~= "</StartLine>"@);
    assert(close_of("EndLine"@) =~= "</EndLine>"@);
    assert(close_of("QuotedCode"@) =~= "</QuotedCode>"@);
    crate::text::lemma_contains_iff(buf, close_of("Code"@));
    crate::text::lemma_contains_iff(buf, close_of("Language"@));
    crate::text::lemma_contains_iff(buf, close_of("Path"@));
    crate::text::lemma_contains_iff(buf, close_of("StartLine"@));
    crate::text::lemma_contains_iff(buf, close_of("EndLine"@));
    crate::text::lemma_contains_iff(buf, close_of("QuotedCode"@));
    assert(crate::text::contains_seq(buf, close_of("Code"@)));
    assert(crate::text::contains_seq(buf, close_of("Language"@)));
    assert(crate::text::contains_seq(buf, close_of("Path"@)));
    assert(crate::text::contains_seq(buf, close_of("StartLine"@)));
    assert(crate::text::contains_seq(buf, close_of("EndLine"@)));
    assert(crate::text::contains_seq(buf, close_of("QuotedCode"@)));
    assert(!crate::text::contains_seq(buf, crate::repair::open_of("GeneratedCode"@))) by {
        let n = "GeneratedCode"@;
        crate::text::lemma_contains_iff(buf, crate::repair::open_of(n));
        if crate::text::contains_seq(buf, crate::repair::open_of(n)) {
            let j = choose|j: int| occurs_at(buf, crate::repair::open_of(n), j);
            assert(buf.subrange(j, j + crate::repair::open_of(n).len() as int)[0] == buf[j]);
            assert(buf[j] == '<');
            assert(buf.subrange(j, j + crate::repair::open_of(n).len() as int)[1] == buf[j + 1]);
            assert(buf[j + 1] == 'G');
            assert(false);
        }
    }
    assert(crate::repair::apply_close(buf, crate::repair::tag_names()[0]) == buf);
    assert(crate::repair::apply_close(buf, crate::repair::tag_names()[1]) == buf);
    assert(crate::repair::apply_close(buf, crate::repair::tag_names()[2]) == buf);
    assert(crate::repair::apply_close(buf, crate::repair::tag_names()[3]) == buf);
    assert(crate::repair::apply_close(buf, crate::repair::tag_names()[4]) == buf);
    assert(crate::repair::apply_close(buf, crate::repair::tag_names()[5]) == buf);
    assert(crate::repair::apply_close(buf, crate::repair::tag_names()[6]) == buf);
    assert(crate::repair::close_missing_from(buf, 0) == crate::repair::close_missing_from(buf, 1));
    assert(crate::repair::close_missing_from(buf, 1) == crate::repair::close_missing_from(buf, 2));
    assert(crate::repair::close_missing_from(buf, 2) == crate::repair::close_missing_from(buf, 3));
    assert(crate::repair::close_missing_from(buf, 3) == crate::repair::close_missing_from(buf, 4));
    assert(crate::repair::close_missing_from(buf, 4) == crate::repair::close_missing_from(buf, 5));
    assert(crate::repair::close_missing_from(buf, 5) == crate::repair::close_missing_from(buf, 6));
    assert(crate::repair::close_missing_from(buf, 6) == crate::repair::close_missing_from(buf, 7));
    assert(crate::repair::close_missing_from(buf, 7) == buf);
}

/// Parsing the repaired quoted region: the first three fields.
#[verifier::rlimit(100)]
proof fn lemma_parse_quoted_fields_a(
    buf: Seq<char>,
    code: Seq<char>,
    lang: Seq<char>,
    path: Seq<char>,
    nrm: Seq<char>,
    ds: Seq<char>,
    de: Seq<char>,
)
    requires
        buf.len() == 120 + nrm.len() + lang.len() + path.len() + ds.len() + de.len(),
        forall|i: int|
            0 <= i < buf.len() ==> #[trigger] buf[i] == (if i < 19 {
                "<QuotedCode>\n<Code>"@[i]
            } else if i < 19 + nrm.len() {
                nrm[i - 19]
            } else if i < 37 + nrm.len() {
                "</Code>\n<Language>"@[i - 19 - nrm.len()]
            } else if i < 37 + nrm.len() + lang.len() {
                lang[i - 37 - nrm.len()]
            } else if i < 55 + nrm.len() + lang.len() {
                "</Language>\n<Path>"@[i - 37 - nrm.len() - lang.len()]
            } else if i < 55 + nrm.len() + lang.len() + path.len() {
                path[i - 55 - nrm.len() - lang.len()]
            } else if i < 74 + nrm.len() + lang.len() + path.len() {
                "</Path>\n<StartLine>"@[i - 55 - nrm.len() - lang.len() - path.len()]
            } else if i < 74 + nrm.len() + lang.len() + path.len() + ds.len() {
                ds[i - 74 - nrm.len() - lang.len() - path.len()]
            } else if i < 96 + nrm.len() + lang.len() + path.len() + ds.len() {
                "</StartLine>\n<EndLine>"@[i - 74 - nrm.len() - lang.len() - path.len()
                    - ds.len()]
            } else if i < 96 + nrm.len() + lang.len() + path.len() + ds.len() + de.len() {
                de[i - 96 - nrm.len() - lang.len() - path.len() - ds.len()]
            } else {
                "</EndLine>\n</QuotedCode>"@[i - 96 - nrm.len() - lang.len() - path.len()
                    - ds.len() - de.len()]
            }),
        forall|i: int| 0 <= i < nrm.len() ==> nrm[i] != '<',
        wf_attr_text(lang),
        wf_attr_text(path),
        all_digits(ds) && ds.len() >= 1,
        all_digits(de) && de.len() >= 1,
        trim_s(unescape_xml(nrm)) == code,
        trim_s(unescape_xml(lang)) == lang,
        trim_s(unescape_xml(path)) == path,
        trim_s(unescape_xml(ds)) == ds,
        trim_s(unescape_xml(de)) == de,
    ensures
        parse_fields(buf, 12, true, empty_fields()) == parse_fields(
            buf,
            62 + nrm.len() as int + lang.len() as int + path.len() as int,
            true,
            FieldsV {
                code: Some(code),
                language: Some(lang),
                path: Some(path),
                start_line: None,
                end_line: None,
            },
        ),
{
    reveal_strlit("<QuotedCode>\n<Code>");
    reveal_strlit("</Code>\n<Language>");
    reveal_strlit("</Language>\n<Path>");
    reveal_strlit("</Path>\n<StartLine>");
    reveal_strlit("</StartLine>\n<EndLine>");
    reveal_strlit("</EndLine>\n</QuotedCode>");
    reveal_strlit("</QuotedCode>");
    reveal_strlit("</Code>");
    reveal_strlit("</Language>");
    reveal_strlit("</Path>");
    reveal_strlit("</StartLine>");
    reveal_strlit("</EndLine>");
    reveal_strlit("Code");
    reveal_strlit("Language");
    reveal_strlit("Path");
    reveal_strlit("StartLine");
    reveal_strlit("EndLine");
    lemma_field_names();
    let nl = nrm.len() as int;
    let m = lang.len() as int;
    let p = path.len() as int;
    let sn = ds.len() as int;
    let en = de.len() as int;
    let oc = outer_close(true);
    assert(oc == "</QuotedCode>"@);
    assert(oc.len() == 13);
    // `<Code>` with the normalized payload.
    assert(ws_end(buf, 12) == 13) by {
        assert(ws_end(buf, 12) == ws_end(buf, 13));
    }
    assert(!occurs_at(buf, oc, 13)) by {
        if occurs_at(buf, oc, 13) {
            assert(buf.subrange(13, 26)[1] == buf[14]);
            assert(false);
        }
    }
    assert(buf[13] == '<');
    crate::text::lemma_word_end_run(buf, 14, 18);
    assert(buf[18] == '>');
    let name1 = buf.subrange(14, 18);
    assert(name1 =~= "Code"@);
    assert(close_of(name1) =~= "</Code>"@);
    assert(occurs_at(buf, close_of(name1), 19 + nl)) by {
        assert(buf.subrange(19 + nl, 26 + nl) =~= "</Code>"@);
    }
    assert forall|j: int| 19 <= j < 19 + nl implies !occurs_at(buf, close_of(name1), j) by {
        if occurs_at(buf, close_of(name1), j) {
            assert(buf.subrange(j, j + 7)[0] == buf[j]);
            assert(buf[j] == '<');
            assert(nrm[j - 19] != '<');
            assert(false);
        }
    }
    crate::text::lemma_find_from_exact(buf, close_of(name1), 19, 19 + nl);
    assert(buf.subrange(19, 19 + nl) =~= nrm);
    assert(is_known_field(true, name1));
    assert(!has_lt(nrm));
    let acc1 = set_field(empty_fields(), name1, trim_s(unescape_xml(nrm)));
    assert(parse_fields(buf, 12, true, empty_fields()) == parse_fields(buf, 26 + nl, true, acc1));
    // `<Language>`.
    assert(buf[26 + nl] == '\n');
    assert(ws_end(buf, 26 + nl) == 27 + nl) by {
        assert(ws_end(buf, 26 + nl) == ws_end(buf, 27 + nl));
        assert(buf[27 + nl] == '<');
    }
    assert(!occurs_at(buf, oc, 27 + nl)) by {
        if occurs_at(buf, oc, 27 + nl) {
            assert(buf.subrange(27 + nl, 40 + nl)[1] == buf[28 + nl]);
            assert(false);
        }
    }
    assert(buf[27 + nl] == '<');
    crate::text::lemma_word_end_run(buf, 28 + nl, 36 + nl);
    assert(buf[36 + nl] == '>');
    let name2 = buf.subrange(28 + nl, 36 + nl);
    assert(name2 =~= "Language"@);
    assert(close_of(name2) =~= "</Language>"@);
    assert(occurs_at(buf, close_of(name2), 37 + nl + m)) by {
        assert(buf.subrange(37 + nl + m, 48 + nl + m) =~= "</Language>"@);
    }
    assert forall|j: int| 37 + nl <= j < 37 + nl + m implies !occurs_at(
        buf,
        close_of(name2),
        j,
    ) by {
        if occurs_at(buf, close_of(name2), j) {
            assert(buf.subrange(j, j + 11)[0] == buf[j]);
            assert(buf[j] == '<');
            assert(lang[j - 37 - nl] != '<');
            assert(false);
        }
    }
    crate::text::lemma_find_from_exact(buf, close_of(name2), 37 + nl, 37 + nl + m);
    assert(buf.subrange(37 + nl, 37 + nl + m) =~= lang);
    assert(is_known_field(true, name2));
    assert(!has_lt(lang));
    assert(field_of(acc1, name2) is None);
    let acc2 = set_field(acc1, name2, trim_s(unescape_xml(lang)));
    assert(parse_fields(buf, 26 + nl, true, acc1) == parse_fields(buf, 48 + nl + m, true, acc2));
    // `<Path>`.
    assert(buf[48 + nl + m] == '\n');
    assert(ws_end(buf, 48 + nl + m) == 49 + nl + m) by {
        assert(ws_end(buf, 48 + nl + m) == ws_end(buf, 49 + nl + m));
        assert(buf[49 + nl + m] == '<');
    }
    assert(!occurs_at(buf, oc, 49 + nl + m)) by {
        if occurs_at(buf, oc, 49 + nl + m) {
            assert(buf.subrange(49 + nl + m, 62 + nl + m)[1] == buf[50 + nl + m]);
            assert(false);
        }
    }
    assert(buf[49 + nl + m] == '<');
    crate::text::lemma_word_end_run(buf, 50 + nl + m, 54 + nl + m);
    assert(buf[54 + nl + m] == '>');
    let name3 = buf.subrange(50 + nl + m, 54 + nl + m);
    assert(name3 =~= "Path"@);
    assert(close_of(name3) =~= "</Path>"@);
    assert(occurs_at(buf, close_of(name3), 55 + nl + m + p)) by {
        assert(buf.subrange(55 + nl + m + p, 62 + nl + m + p) =~= "</Path>"@);
    }
    assert forall|j: int| 55 + nl + m <= j < 55 + nl + m + p implies !occurs_at(
        buf,
        close_of(name3),
        j,
    ) by {
        if occurs_at(buf, close_of(name3), j) {
            assert(buf.subrange(j, j + 7)[0] == buf[j]);
            assert(buf[j] == '<');
            assert(path[j - 55 - nl - m] != '<');
            assert(false);
        }
    }
    crate::text::lemma_find_from_exact(buf, close_of(name3), 55 + nl + m, 55 + nl + m + p);
    assert(buf.subrange(55 + nl + m, 55 + nl + m + p) =~= path);
    assert(is_known_field(true, name3));
    assert(!has_lt(path));
    assert(field_of(acc2, name3) is None);
    let acc3 = set_field(acc2, name3, trim_s(unescape_xml(path)));
    assert(parse_fields(buf, 48 + nl + m, true, acc2) == parse_fields(
        buf,
        62 + nl + m + p,
        true,
        acc3,
    ));
    assert(acc3 == FieldsV {
        code: Some(code),
        language: Some(lang),
        path: Some(path),
        start_line: None,
        end_line: None,
    });
}

/// Parsing the repaired quoted region: the start-line field.
#[verifier::rlimit(100)]
proof fn lemma_parse_quoted_fields_b1(
    buf: Seq<char>,
    code: Seq<char>,
    lang: Seq<char>,
    path: Seq<char>,
    nrm: Seq<char>,
    ds: Seq<char>,
    de: Seq<char>,
)
    requires
        buf.len() == 120 + nrm.len() + lang.len() + path.len() + ds.len() + de.len(),
        forall|i: int|
            0 <= i < buf.len() ==> #[trigger] buf[i] == (if i < 19 {
                "<QuotedCode>\n<Code>"@[i]
            } else if i < 19 + nrm.len() {
                nrm[i - 19]
            } else if i < 37 + nrm.len() {
                "</Code>\n<Language>"@[i - 19 - nrm.len()]
            } else if i < 37 + nrm.len() + lang.len() {
                lang[i - 37 - nrm.len()]
            } else if i < 55 + nrm.len() + lang.len() {
                "</Language>\n<Path>"@[i - 37 - nrm.len() - lang.len()]
            } else if i < 55 + nrm.len() + lang.len() + path.len() {
                path[i - 55 - nrm.len() - lang.len()]
            } else if i < 74 + nrm.len() + lang.len() + path.len() {
                "</Path>\n<StartLine>"@[i - 55 - nrm.len() - lang.len() - path.len()]
            } else if i < 74 + nrm.len() + lang.len() + path.len() + ds.len() {
                ds[i - 74 - nrm.len() - lang.len() - path.len()]
            } else if i < 96 + nrm.len() + lang.len() + path.len() + ds.len() {
                "</StartLine>\n<EndLine>"@[i - 74 - nrm.len() - lang.len() - path.len()
                    - ds.len()]
            } else if i < 96 + nrm.len() + lang.len() + path.len() + ds.len() + de.len() {
                de[i - 96 - nrm.len() - lang.len() - path.len() - ds.len()]
            } else {
                "</EndLine>\n</QuotedCode>"@[i - 96 - nrm.len() - lang.len() - path.len()
                    - ds.len() - de.len()]
            }),
        forall|i: int| 0 <= i < nrm.len() ==> nrm[i] != '<',
        wf_attr_text(lang),
        wf_attr_text(path),
        all_digits(ds) && ds.len() >= 1,
        all_digits(de) && de.len() >= 1,
        trim_s(unescape_xml(nrm)) == code,
        trim_s(unescape_xml(lang)) == lang,
        trim_s(unescape_xml(path)) == path,
        trim_s(unescape_xml(ds)) == ds,
        trim_s(unescape_xml(de)) == de,
    ensures
        parse_fields(
            buf,
            62 + nrm.len() as int + lang.len() as int + path.len() as int,
            true,
            FieldsV {
                code: Some(code),
                language: Some(lang),
                path: Some(path),
                start_line: None,
                end_line: None,
            },
        ) == parse_fields(
            buf,
            86 + nrm.len() as int + lang.len() as int + path.len() as int + ds.len() as int,
            true,
            FieldsV {
                code: Some(code),
                language: Some(lang),
                path: Some(path),
                start_line: Some(ds),
                end_line: None,
            },
        ),
{
    reveal_strlit("<QuotedCode>\n<Code>");
    reveal_strlit("</Code>\n<Language>");
    reveal_strlit("</Language>\n<Path>");
    reveal_strlit("</Path>\n<StartLine>");
    reveal_strlit("</StartLine>\n<EndLine>");
    reveal_strlit("</EndLine>\n</QuotedCode>");
    reveal_strlit("</QuotedCode>");
    reveal_strlit("</Code>");
    reveal_strlit("</Language>");
    reveal_strlit("</Path>");
    reveal_strlit("</StartLine>");
    reveal_strlit("</EndLine>");
    reveal_strlit("Code");
    reveal_strlit("Language");
    reveal_strlit("Path");
    reveal_strlit("StartLine");
    reveal_strlit("EndLine");
    lemma_field_names();
    let nl = nrm.len() as int;
    let m = lang.len() as int;
    let p = path.len() as int;
    let sn = ds.len() as int;
    let en = de.len() as int;
    let oc = outer_close(true);
    assert(oc == "</QuotedCode>"@);
    assert(oc.len() == 13);
    let acc3 = FieldsV {
        code: Some(code),
        language: Some(lang),
        path: Some(path),
        start_line: None,
        end_line: None,
    };
    // `<StartLine>`.
    let q1 = 62 + nl + m + p;
    assert(buf[q1] == '\n');
    assert(ws_end(buf, q1) == q1 + 1) by {
        assert(ws_end(buf, q1) == ws_end(buf, q1 + 1));
        assert(buf[q1 + 1] == '<');
    }
    assert(!occurs_at(buf, oc, q1 + 1)) by {
        if occurs_at(buf, oc, q1 + 1) {
            assert(buf.subrange(q1 + 1, q1 + 14)[1] == buf[q1 + 2]);
            assert(false);
        }
    }
    assert(buf[q1 + 1] == '<');
    crate::text::lemma_word_end_run(buf, q1 + 2, q1 + 11);
    assert(buf[q1 + 11] == '>');
    let name4 = buf.subrange(q1 + 2, q1 + 11);
    assert(name4 =~= "StartLine"@);
    assert(close_of(name4) =~= "</StartLine>"@);
    assert(occurs_at(buf, close_of(name4), q1 + 12 + sn)) by {
        assert(buf.subrange(q1 + 12 + sn, q1 + 24 + sn) =~= "</StartLine>"@);
    }
    assert forall|j: int| q1 + 12 <= j < q1 + 12 + sn implies !occurs_at(
        buf,
        close_of(name4),
        j,
    ) by {
        if occurs_at(buf, close_of(name4), j) {
            assert(buf.subrange(j, j + 12)[0] == buf[j]);
            assert(buf[j] == '<');
            assert(ds[j - q1 - 12] != '<');
            assert(false);
        }
    }
    crate::text::lemma_find_from_exact(buf, close_of(name4), q1 + 12, q1 + 12 + sn);
    assert(buf.subrange(q1 + 12, q1 + 12 + sn) =~= ds);
    assert(is_known_field(true, name4));
    assert(!has_lt(ds));
    assert(field_of(acc3, name4) is None);
    let acc4 = set_field(acc3, name4, trim_s(unescape_xml(ds)));
    assert(parse_fields(buf, q1, true, acc3) == parse_fields(buf, q1 + 24 + sn, true, acc4));
    assert(acc4 == FieldsV {
        code: Some(code),
        language: Some(lang),
        path: Some(path),
        start_line: Some(ds),
        end_line: None,
    });
    assert(q1 + 24 + sn == 86 + nl + m + p + sn);
}

/// Parsing the repaired quoted region: the end-line field and the closing
/// tag.
#[verifier::rlimit(100)]
proof fn lemma_parse_quoted_fields_b2(
    buf: Seq<char>,
    code: Seq<char>,
    lang: Seq<char>,
    path: Seq<char>,
    nrm: Seq<char>,
    ds: Seq<char>,
    de: Seq<char>,
)
    requires
        buf.len() == 120 + nrm.len() + lang.len() + path.len() + ds.len() + de.len(),
        forall|i: int|
            0 <= i < buf.len() ==> #[trigger] buf[i] == (if i < 19 {
                "<QuotedCode>\n<Code>"@[i]
            } else if i < 19 + nrm.len() {
                nrm[i - 19]
            } else if i < 37 + nrm.len() {
                "</Code>\n<Language>"@[i - 19 - nrm.len()]
            } else if i < 37 + nrm.len() + lang.len() {
                lang[i - 37 - nrm.len()]
            } else if i < 55 + nrm.len() + lang.len() {
                "</Language>\n<Path>"@[i - 37 - nrm.len() - lang.len()]
            } else if i < 55 + nrm.len() + lang.len() + path.len() {
                path[i - 55 - nrm.len() - lang.len()]
            } else if i < 74 + nrm.len() + lang.len() + path.len() {
                "</Path>\n<StartLine>"@[i - 55 - nrm.len() - lang.len() - path.len()]
            } else if i < 74 + nrm.len() + lang.len() + path.len() + ds.len() {
                ds[i - 74 - nrm.len() - lang.len() - path.len()]
            } else if i < 96 + nrm.len() + lang.len() + path.len() + ds.len() {
                "</StartLine>\n<EndLine>"@[i - 74 - nrm.len() - lang.len() - path.len()
                    - ds.len()]
            } else if i < 96 + nrm.len() + lang.len() + path.len() + ds.len() + de.len() {
                de[i - 96 - nrm.len() - lang.len() - path.len() - ds.len()]
            } else {
                "</EndLine>\n</QuotedCode>"@[i - 96 - nrm.len() - lang.len() - path.len()
                    - ds.len() - de.len()]
            }),
        forall|i: int| 0 <= i < nrm.len() ==> nrm[i] != '<',
        wf_attr_text(lang),
        wf_attr_text(path),
        all_digits(ds) && ds.len() >= 1,
        all_digits(de) && de.len() >= 1,
        trim_s(unescape_xml(nrm)) == code,
        trim_s(unescape_xml(lang)) == lang,
        trim_s(unescape_xml(path)) == path,
        trim_s(unescape_xml(ds)) == ds,
        trim_s(unescape_xml(de)) == de,
    ensures
        parse_fields(
            buf,
            86 + nrm.len() as int + lang.len() as int + path.len() as int + ds.len() as int,
            true,
            FieldsV {
                code: Some(code),
                language: Some(lang),
                path: Some(path),
                start_line: Some(ds),
                end_line: None,
            },
        ) == Some(
            FieldsV {
                code: Some(code),
                language: Some(lang),
                path: Some(path),
                start_line: Some(ds),
                end_line: Some(de),
            },
        ),
{
    reveal_strlit("<QuotedCode>\n<Code>");
    reveal_strlit("</Code>\n<Language>");
    reveal_strlit("</Language>\n<Path>");
    reveal_strlit("</Path>\n<StartLine>");
    reveal_strlit("</StartLine>\n<EndLine>");
    reveal_strlit("</EndLine>\n</QuotedCode>");
    reveal_strlit("</QuotedCode>");
    reveal_strlit("</Code>");
    reveal_strlit("</Language>");
    reveal_strlit("</Path>");
    reveal_strlit("</StartLine>");
    reveal_strlit("</EndLine>");
    reveal_strlit("Code");
    reveal_strlit("Language");
    reveal_strlit("Path");
    reveal_strlit("StartLine");
    reveal_strlit("EndLine");
    lemma_field_names();
    let nl = nrm.len() as int;
    let m = lang.len() as int;
    let p = path.len() as int;
    let sn = ds.len() as int;
    let en = de.len() as int;
    let oc = outer_close(true);
    assert(oc == "</QuotedCode>"@);
    assert(oc.len() == 13);
    let acc4 = FieldsV {
        code: Some(code),
        language: Some(lang),
        path: Some(path),
        start_line: Some(ds),
        end_line: None,
    };
    let q1 = 62 + nl + m + p;
    let q2 = q1 + 24 + sn;
    // `<EndLine>`.
    let q2 = q1 + 24 + sn;
    assert(buf[q2] == '\n');
    assert(ws_end(buf, q2) == q2 + 1) by {
        assert(ws_end(buf, q2) == ws_end(buf, q2 + 1));
        assert(buf[q2 + 1] == '<');
    }
    assert(!occurs_at(buf, oc, q2 + 1)) by {
        if occurs_at(buf, oc, q2 + 1) {
            assert(buf.subrange(q2 + 1, q2 + 14)[1] == buf[q2 + 2]);
            assert(false);
        }
    }
    assert(buf[q2 + 1] == '<');
    crate::text::lemma_word_end_run(buf, q2 + 2, q2 + 9);
    assert(buf[q2 + 9] == '>');
    let name5 = buf.subrange(q2 + 2, q2 + 9);
    assert(name5 =~= "EndLine"@);
    assert(close_of(name5) =~= "</EndLine>"@);
    assert(occurs_at(buf, close_of(name5), q2 + 10 + en)) by {
        assert(buf.subrange(q2 + 10 + en, q2 + 20 + en) =~= "</EndLine>"@);
    }
    assert forall|j: int| q2 + 10 <= j < q2 + 10 + en implies !occurs_at(
        buf,
        close_of(name5),
        j,
    ) by {
        if occurs_at(buf, close_of(name5), j) {
            assert(buf.subrange(j, j + 10)[0] == buf[j]);
            assert(buf[j] == '<');
            assert(de[j - q2 - 10] != '<');
            assert(false);
        }
    }
    crate::text::lemma_find_from_exact(buf, close_of(name5), q2 + 10, q2 + 10 + en);
    assert(buf.subrange(q2 + 10, q2 + 10 + en) =~= de);
    assert(is_known_field(true, name5));
    assert(!has_lt(de));
    assert(field_of(acc4, name5) is None);
    let acc5 = set_field(acc4, name5, trim_s(unescape_xml(de)));
    assert(acc5 == FieldsV {
        code: Some(code),
        language: Some(lang),
        path: Some(path),
        start_line: Some(ds),
        end_line: Some(de),
    });
    assert(parse_fields(buf, q2, true, acc4) == parse_fields(buf, q2 + 20 + en, true, acc5));
    // The outer closing tag, and nothing after it.
    let q3 = q2 + 20 + en;
    assert(buf[q3] == '\n');
    assert(ws_end(buf, q3) == q3 + 1) by {
        assert(ws_end(buf, q3) == ws_end(buf, q3 + 1));
        assert(buf[q3 + 1] == '<');
    }
    assert(occurs_at(buf, oc, q3 + 1)) by {
        assert(buf.subrange(q3 + 1, q3 + 14) =~= oc);
    }
    assert(q3 + 14 == buf.len());
    assert(ws_end(buf, q3 + 14) == buf.len());
    assert(parse_fields(buf, q3, true, acc5) == Some(acc5));
}

/// The buffer tag repair receives for a rebuilt quoted region.
spec fn quoted_buf(
    code: Seq<char>,
    lang: Seq<char>,
    path: Seq<char>,
    ds: Seq<char>,
    de: Seq<char>,
) -> Seq<char> {
    "<QuotedCode>\n<Code>"@ + crate::escape::normalize3(seq!['\n'] + code + seq!['\n'])
        + "</Code>\n<Language>"@ + lang + "</Language>\n<Path>"@ + path + "</Path>\n<StartLine>"@
        + ds + "</StartLine>\n<EndLine>"@ + de + "</EndLine>\n</QuotedCode>"@
}

/// Where each character of the rebuilt quoted buffer comes from.
#[verifier::rlimit(100)]
proof fn lemma_quoted_buf_index(
    code: Seq<char>,
    lang: Seq<char>,
    path: Seq<char>,
    ds: Seq<char>,
    de: Seq<char>,
)
    ensures
        quoted_buf(code, lang, path, ds, de).len() == 120 + crate::escape::normalize3(
            seq!['\n'] + code + seq!['\n'],
        ).len() + lang.len() + path.len() + ds.len() + de.len(),
        forall|i: int|
            0 <= i < quoted_buf(code, lang, path, ds, de).len() ==> #[trigger] quoted_buf(
                code,
                lang,
                path,
                ds,
                de,
            )[i] == ({
                let nrm = crate::escape::normalize3(seq!['\n'] + code + seq!['\n']);
                if i < 19 {
                    "<QuotedCode>\n<Code>"@[i]
                } else if i < 19 + nrm.len() {
                    nrm[i - 19]
                } else if i < 37 + nrm.len() {
                    "</Code>\n<Language>"@[i - 19 - nrm.len()]
                } else if i < 37 + nrm.len() + lang.len() {
                    lang[i - 37 - nrm.len()]
                } else if i < 55 + nrm.len() + lang.len() {
                    "</Language>\n<Path>"@[i - 37 - nrm.len() - lang.len()]
                } else if i < 55 + nrm.len() + lang.len() + path.len() {
                    path[i - 55 - nrm.len() - lang.len()]
                } else if i < 74 + nrm.len() + lang.len() + path.len() {
                    "</Path>\n<StartLine>"@[i - 55 - nrm.len() - lang.len() - path.len()]
                } else if i < 74 + nrm.len() + lang.len() + path.len() + ds.len() {
                    ds[i - 74 - nrm.len() - lang.len() - path.len()]
                } else if i < 96 + nrm.len() + lang.len() + path.len() + ds.len() {
                    "</StartLine>\n<EndLine>"@[i - 74 - nrm.len() - lang.len() - path.len()
                        - ds.len()]
                } else if i < 96 + nrm.len() + lang.len() + path.len() + ds.len() + de.len() {
                    de[i - 96 - nrm.len() - lang.len() - path.len() - ds.len()]
                } else {
                    "</EndLine>\n</QuotedCode>"@[i - 96 - nrm.len() - lang.len() - path.len()
                        - ds.len() - de.len()]
                }
            }),
{
    reveal_strlit("<QuotedCode>\n<Code>");
    reveal_strlit("</Code>\n<Language>");
    reveal_strlit("</Language>\n<Path>");
    reveal_strlit("</Path>\n<StartLine>");
    reveal_strlit("</StartLine>\n<EndLine>");
    reveal_strlit("</EndLine>\n</QuotedCode>");
    assert("<QuotedCode>\n<Code>"@.len() == 19);
    assert("</Code>\n<Language>"@.len() == 18);
    assert("</Language>\n<Path>"@.len() == 18);
    assert("</Path>\n<StartLine>"@.len() == 19);
    assert("</StartLine>\n<EndLine>"@.len() == 22);
    assert("</EndLine>\n</QuotedCode>"@.len() == 24);
}

/// Fixing up a rebuilt quoted region: the fix-up hands tag repair exactly
/// the buffer with the normalized payload.
#[verifier::rlimit(100)]
proof fn lemma_quoted_fixup_a(
    code: Seq<char>,
    lang: Seq<char>,
    path: Seq<char>,
    ds: Seq<char>,
    de: Seq<char>,
)
    requires
        trim_s(code) == code,
        !crate::text::contains_seq(code, code_close()),
        unescape3(seq!['\n'] + code + seq!['\n']) == seq!['\n'] + code + seq!['\n'],
        wf_attr_text(lang),
        wf_attr_text(path),
        all_digits(ds) && ds.len() >= 1,
        all_digits(de) && de.len() >= 1,
    ensures
        crate::repair::spec_fixup(quoted_xml_parts(code + seq!['\n'], lang, path, ds, de))
            == crate::repair::repair_tags(quoted_buf(code, lang, path, ds, de)),
{
    reveal_strlit("<QuotedCode>\n<Code>\n");
    reveal_strlit("</Code>\n<Language>");
    reveal_strlit("</Language>\n<Path>");
    reveal_strlit("</Path>\n<StartLine>");
    reveal_strlit("</StartLine>\n<EndLine>");
    reveal_strlit("</EndLine>\n</QuotedCode>");
    reveal_strlit("<QuotedCode>\n<Code>");
    reveal_strlit("<GeneratedCode>");
    reveal_strlit("<QuotedCode>");
    reveal_strlit("<Code>");
    reveal_strlit("</Code>");
    reveal_strlit("</Language>");
    reveal_strlit("</Path>");
    reveal_strlit("</StartLine>");
    reveal_strlit("</EndLine>");
    reveal_strlit("</QuotedCode>");
    let h = "<QuotedCode>\n<Code>\n"@;
    let b1 = "</Code>\n<Language>"@;
    let b2 = "</Language>\n<Path>"@;
    let b3 = "</Path>\n<StartLine>"@;
    let b4 = "</StartLine>\n<EndLine>"@;
    let b5 = "</EndLine>\n</QuotedCode>"@;
    let l = code.len() as int;
    let m = lang.len() as int;
    let p = path.len() as int;
    let sn = ds.len() as int;
    let en = de.len() as int;
    let x = quoted_xml_parts(code + seq!['\n'], lang, path, ds, de);
    assert(h.len() == 20 && b1.len() == 18 && b2.len() == 18 && b3.len() == 19 && b4.len() == 22
        && b5.len() == 24);
    assert(x.len() == 122 + l + m + p + sn + en);
    assert forall|i: int|
        0 <= i < sn implies !is_space(ds[i]) && ds[i] != '<' && ds[i] != '&' by {
        lemma_digit_plain(ds[i]);
    }
    assert forall|i: int|
        0 <= i < en implies !is_space(de[i]) && de[i] != '<' && de[i] != '&' by {
        lemma_digit_plain(de[i]);
    }
    assert forall|i: int| 0 <= i < x.len() implies #[trigger] x[i] == (if i < 20 {
        h[i]
    } else if i < 20 + l {
        code[i - 20]
    } else if i == 20 + l {
        '\n'
    } else if i < 39 + l {
        b1[i - 21 - l]
    } else if i < 39 + l + m {
        lang[i - 39 - l]
    } else if i < 57 + l + m {
        b2[i - 39 - l - m]
    } else if i < 57 + l + m + p {
        path[i - 57 - l - m]
    } else if i < 76 + l + m + p {
        b3[i - 57 - l - m - p]
    } else if i < 76 + l + m + p + sn {
        ds[i - 76 - l - m - p]
    } else if i < 98 + l + m + p + sn {
        b4[i - 76 - l - m - p - sn]
    } else if i < 98 + l + m + p + sn + en {
        de[i - 98 - l - m - p - sn]
    } else {
        b5[i - 98 - l - m - p - sn - en]
    }) by {}
    // The fix-up applies.
    assert(crate::repair::starts_tagged(x)) by {
        assert(ws_end(x, 0) == 0);
    }
    assert(occurs_at(x, quoted_open(), 0)) by {
        assert(x.subrange(0, 12) =~= quoted_open());
    }
    assert(crate::repair::outer_tag_len(x, 0) == 12);
    assert(ws_end(x, 12) == 13) by {
        assert(ws_end(x, 12) == ws_end(x, 13));
    }
    assert(occurs_at(x, crate::repair::code_open(), 13)) by {
        assert(x.subrange(13, 19) =~= crate::repair::code_open());
    }
    assert(crate::repair::code_match_at(x, 0));
    assert(crate::repair::find_code_match(x, 0) == Some(0int));
    assert(crate::repair::payload_start(x, 0) == 19);
    let ccl = code_close();
    assert(ccl.len() == 7 && ccl[0] == '<');
    assert(occurs_at(x, ccl, 21 + l)) by {
        assert(x.subrange(21 + l, 28 + l) =~= ccl);
    }
    assert forall|j: int| 19 <= j < 21 + l implies !occurs_at(x, ccl, j) by {
        if occurs_at(x, ccl, j) {
            assert(x.subrange(j, j + 7)[0] == x[j]);
            assert(x[j] == '<');
            assert(20 <= j && j < 20 + l);
            if j + 7 <= 20 + l {
                assert(occurs_at(code, ccl, j - 20)) by {
                    assert(code.subrange(j - 20, j - 20 + 7) =~= x.subrange(j, j + 7));
                }
                crate::text::lemma_contains_iff(code, ccl);
                assert(false);
            } else {
                assert(x.subrange(j, j + 7)[20 + l - j] == x[20 + l]);
                assert(ccl[20 + l - j] == '\n');
                assert(false);
            }
        }
    }
    crate::text::lemma_find_from_exact(x, ccl, 19, 21 + l);
    let pay = x.subrange(19, 21 + l);
    assert(pay =~= seq!['\n'] + code + seq!['\n']);
    let nrm = crate::escape::normalize3(pay);
    let nl = nrm.len() as int;
    crate::escape::lemma_escape3_no_lt(unescape3(pay));
    assert(forall|i: int| 0 <= i < nl ==> nrm[i] != '<');
    let buf = x.subrange(0, 19) + nrm + x.subrange(21 + l, x.len() as int);
    assert(crate::repair::spec_fixup(x) == crate::repair::repair_tags(buf));
    assert(buf =~= quoted_buf(code, lang, path, ds, de));
}

/// Fixing up a rebuilt quoted region: tag repair leaves that buffer alone.
#[verifier::rlimit(100)]
proof fn lemma_quoted_fixup_b(
    code: Seq<char>,
    lang: Seq<char>,
    path: Seq<char>,
    ds: Seq<char>,
    de: Seq<char>,
)
    requires
        trim_s(code) == code,
        !crate::text::contains_seq(code, code_close()),
        unescape3(seq!['\n'] + code + seq!['\n']) == seq!['\n'] + code + seq!['\n'],
        wf_attr_text(lang),
        wf_attr_text(path),
        all_digits(ds) && ds.len() >= 1,
        all_digits(de) && de.len() >= 1,
    ensures
        crate::repair::repair_tags(quoted_buf(code, lang, path, ds, de)) == quoted_buf(
            code,
            lang,
            path,
            ds,
            de,
        ),
{
    reveal_strlit("<QuotedCode>\n<Code>");
    reveal_strlit("</Code>\n<Language>");
    reveal_strlit("</Language>\n<Path>");
    reveal_strlit("</Path>\n<StartLine>");
    reveal_strlit("</StartLine>\n<EndLine>");
    reveal_strlit("</EndLine>\n</QuotedCode>");
    reveal_strlit("</Code>");
    reveal_strlit("</Language>");
    reveal_strlit("</Path>");
    reveal_strlit("</StartLine>");
    reveal_strlit("</EndLine>");
    reveal_strlit("</QuotedCode>");
    let pay = seq!['\n'] + code + seq!['\n'];
    let nrm = crate::escape::normalize3(pay);
    let nl = nrm.len() as int;
    let m = lang.len() as int;
    let p = path.len() as int;
    let sn = ds.len() as int;
    let en = de.len() as int;
    let buf = quoted_buf(code, lang, path, ds, de);
    lemma_quoted_buf_index(code, lang, path, ds, de);
    crate::escape::lemma_escape3_no_lt(unescape3(pay));
    assert(forall|i: int| 0 <= i < nl ==> nrm[i] != '<');
    assert forall|i: int|
        0 <= i < sn implies !is_space(ds[i]) && ds[i] != '<' && ds[i] != '&' by {
        lemma_digit_plain(ds[i]);
    }
    assert forall|i: int|
        0 <= i < en implies !is_space(de[i]) && de[i] != '<' && de[i] != '&' by {
        lemma_digit_plain(de[i]);
    }
    assert(buf.len() == 120 + nl + m + p + sn + en);
    assert(buf[buf.len() - 1] == '>');
    assert forall|i: int| 0 <= i < buf.len() && buf[i] == '<' implies crate::repair::has_gt_after(
        buf,
        i,
    ) by {
        assert(i < buf.len() - 1);
        assert(buf[buf.len() - 1] == '>');
    }
    crate::repair::lemma_strip_partial_id(buf);
    assert forall|i: int| 0 <= i < buf.len() && buf[i] == '<' implies (i == 0 || i == 13 || i == 19
        + nl || i == 27 + nl || i == 37 + nl + m || i == 49 + nl + m || i == 55 + nl + m + p || i
        == 63 + nl + m + p || i == 74 + nl + m + p + sn || i == 87 + nl + m + p + sn || i == 96 + nl
        + m + p + sn + en || i == 107 + nl + m + p + sn + en) by {}
    assert(buf[1] == 'Q' && buf[14] == 'C' && buf[20 + nl] == '/' && buf[28 + nl] == 'L' && buf[38
        + nl + m] == '/' && buf[50 + nl + m] == 'P' && buf[56 + nl + m + p] == '/' && buf[64 + nl
        + m + p] == 'S' && buf[75 + nl + m + p + sn] == '/' && buf[88 + nl + m + p + sn] == 'E'
        && buf[97 + nl + m + p + sn + en] == '/' && buf[108 + nl + m + p + sn + en] == '/');
    assert(occurs_at(buf, "</Code>"@, 19 + nl)) by {
        assert(buf.subrange(19 + nl, 26 + nl) =~= "</Code>"@);
    }
    assert(occurs_at(buf, "</Language>"@, 37 + nl + m)) by {
        assert(buf.subrange(37 + nl + m, 48 + nl + m) =~= "</Language>"@);
    }
    assert(occurs_at(buf, "</Path>"@, 55 + nl + m + p)) by {
        assert(buf.subrange(55 + nl + m + p, 62 + nl + m + p) =~= "</Path>"@);
    }
    assert(occurs_at(buf, "</StartLine>"@, 74 + nl + m + p + sn)) by {
        assert(buf.subrange(74 + nl + m + p + sn, 86 + nl + m + p + sn) =~= "</StartLine>"@);
    }
    assert(occurs_at(buf, "</EndLine>"@, 96 + nl + m + p + sn + en)) by {
        assert(buf.subrange(96 + nl + m + p + sn + en, 106 + nl + m + p + sn + en)
            =~= "</EndLine>"@);
    }
    assert(occurs_at(buf, "</QuotedCode>"@, 107 + nl + m + p + sn + en)) by {
        assert(buf.subrange(107 + nl + m + p + sn + en, 120 + nl + m + p + sn + en)
            =~= "</QuotedCode>"@);
    }
    lemma_buf_contains_q(buf, nl, m, p, sn, en);
    assert(crate::repair::repair_tags(buf) == buf);
}

/// Fixing up a rebuilt quoted region normalizes the payload and changes
/// nothing else.
proof fn lemma_quoted_fixup(
    code: Seq<char>,
    lang: Seq<char>,
    path: Seq<char>,
    ds: Seq<char>,
    de: Seq<char>,
)
    requires
        trim_s(code) == code,
        !crate::text::contains_seq(code, code_close()),
        unescape3(seq!['\n'] + code + seq!['\n']) == seq!['\n'] + code + seq!['\n'],
        wf_attr_text(lang),
        wf_attr_text(path),
        all_digits(ds) && ds.len() >= 1,
        all_digits(de) && de.len() >= 1,
    ensures
        crate::repair::spec_fixup(quoted_xml_parts(code + seq!['\n'], lang, path, ds, de))
            == quoted_buf(code, lang, path, ds, de),
{
    lemma_quoted_fixup_a(code, lang, path, ds, de);
    lemma_quoted_fixup_b(code, lang, path, ds, de);
}

/// Law (round trip on well-formed input, quoted blocks): take any code text
/// that is trimmed, holds no literal `</Code>`, and is a fixed point of
/// un-escaping, plausible language and path texts, and any line numbers.
/// Rebuilding the tagged region from the fenced block's parts, fixing it up
/// and parsing it yields exactly the chunk the fenced block stood for.
#[verifier::rlimit(100)]
pub proof fn lemma_quoted_round_trip(
    code: Seq<char>,
    lang: Seq<char>,
    path: Seq<char>,
    sl: u32,
    el: u32,
)
    requires
        trim_s(code) == code,
        !crate::text::contains_seq(code, code_close()),
        unescape3(seq!['\n'] + code + seq!['\n']) == seq!['\n'] + code + seq!['\n'],
        wf_attr_text(lang),
        wf_attr_text(path),
    ensures
        parse_chunk(
            crate::repair::spec_fixup(
                quoted_xml_parts(
                    code + seq!['\n'],
                    lang,
                    path,
                    dec_rec(sl as int),
                    dec_rec(el as int),
                ),
            ),
        ) == Some(
            ChunkView::Quoted {
                code: code,
                language: lang,
                path: path,
                start_line: Some(sl),
                end_line: Some(el),
            },
        ),
{
    reveal_strlit("<QuotedCode>\n<Code>");
    reveal_strlit("</Code>\n<Language>");
    reveal_strlit("</Language>\n<Path>");
    reveal_strlit("</Path>\n<StartLine>");
    reveal_strlit("</StartLine>\n<EndLine>");
    reveal_strlit("</EndLine>\n</QuotedCode>");
    reveal_strlit("<QuotedCode>");
    let ds = dec_rec(sl as int);
    let de = dec_rec(el as int);
    lemma_dec_rec_value(sl as int);
    lemma_dec_rec_value(el as int);
    let x = quoted_xml_parts(code + seq!['\n'], lang, path, ds, de);
    let pay = seq!['\n'] + code + seq!['\n'];
    let nrm = crate::escape::normalize3(pay);
    let buf = quoted_buf(code, lang, path, ds, de);
    lemma_quoted_fixup(code, lang, path, ds, de);
    lemma_quoted_buf_index(code, lang, path, ds, de);
    crate::escape::lemma_escape3_no_lt(unescape3(pay));
    assert(forall|i: int| 0 <= i < nrm.len() ==> nrm[i] != '<');
    // Parsing the repaired buffer.
    assert(occurs_at(buf, quoted_open(), 0)) by {
        assert(buf.subrange(0, 12) =~= quoted_open());
    }
    assert(trim_s(unescape_xml(nrm)) == code) by {
        crate::escape::lemma_unescape_xml_escape(unescape3(pay));
        assert(unescape_xml(nrm) == unescape3(pay));
        assert(unescape3(pay) == pay);
        assert(pay == seq!['\n'] + code + seq!['\n']);
        lemma_trim_wrap(code);
    }
    assert(trim_s(unescape_xml(lang)) == lang) by {
        lemma_wf_trim_fix(lang);
    }
    assert(trim_s(unescape_xml(path)) == path) by {
        lemma_wf_trim_fix(path);
    }
    assert(trim_s(unescape_xml(ds)) == ds) by {
        lemma_digits_trim_fix(ds);
    }
    assert(trim_s(unescape_xml(de)) == de) by {
        lemma_digits_trim_fix(de);
    }
    assert(buf.len() == 120 + nrm.len() + lang.len() + path.len() + ds.len() + de.len());
    lemma_parse_quoted_fields_a(buf, code, lang, path, nrm, ds, de);
    lemma_parse_quoted_fields_b1(buf, code, lang, path, nrm, ds, de);
    lemma_parse_quoted_fields_b2(buf, code, lang, path, nrm, ds, de);
    assert(parse_chunk(buf) == Some(
        ChunkView::Quoted {
            code: code,
            language: lang,
            path: path,
            start_line: Some(sl),
            end_line: Some(el),
        },
    )) by {
        assert(quoted_open().len() == 12);
        lemma_lineno_round_trip(sl);
        lemma_lineno_round_trip(el);
        assert(lineno_of(Some(ds)) == Some(sl));
        assert(lineno_of(Some(de)) == Some(el));
    }
}

proof fn lemma_wf_trim_fix(t: Seq<char>)
    requires
        wf_attr_text(t),
    ensures
        trim_s(unescape_xml(t)) == t,
{
    crate::escape::lemma_unescape_id_no_amp(t);
    if t.len() == 0 {
        assert(trim_s(t) =~= t);
    } else {
        assert(!is_space(t[0]));
        assert(!is_space(t[t.len() - 1]));
        assert(ws_end(t, 0) == 0);
        assert(rtrim_end(t, t.len() as int) == t.len());
        assert(trim_s(t) =~= t);
    }
}

proof fn lemma_digits_trim_fix(t: Seq<char>)
    requires
        all_digits(t),
        t.len() >= 1,
    ensures
        trim_s(unescape_xml(t)) == t,
{
    assert forall|i: int| 0 <= i < t.len() implies t[i] != '&' && !is_space(t[i]) by {
        lemma_digit_plain(t[i]);
    }
    crate::escape::lemma_unescape_id_no_amp(t);
    assert(!is_space(t[0]));
    assert(!is_space(t[t.len() - 1]));
    assert(ws_end(t, 0) == 0);
    assert(rtrim_end(t, t.len() as int) == t.len());
    assert(trim_s(t) =~= t);
}

// ---------------------------------------------------------------------------
// Segment transforms
// ---------------------------------------------------------------------------
/// attribute header a quoted chunk writes — language, path, and the decimal
/// line numbers — rebuilds exactly the tagged region of the handed-back
/// literal and those fields.
#[verifier::rlimit(100)]
pub proof fn lemma_quoted_header_parses(
    lang: Seq<char>,
    path: Seq<char>,
    sl: u32,
    el: u32,
    literal: Seq<char>,
)
    requires
        wf_attr_text(lang),
        wf_attr_text(path),
    ensures
        fence_xml(
            "type:Quoted,lang:"@ + lang + ",path:"@ + path + ",lines:"@ + dec_rec(sl as int)
                + seq!['-'] + dec_rec(el as int),
            literal,
        ) == Some(
            quoted_xml_parts(literal, lang, path, dec_rec(sl as int), dec_rec(el as int)),
        ),
{
    reveal_strlit("type:Quoted,lang:");
    reveal_strlit(",path:");
    reveal_strlit(",lines:");
    reveal_strlit("type");
    reveal_strlit("Quoted");
    reveal_strlit("lang");
    reveal_strlit("path");
    reveal_strlit("lines");
    let h1 = "type:Quoted,lang:"@;
    let h2 = ",path:"@;
    let h3 = ",lines:"@;
    let ds = dec_rec(sl as int);
    let de = dec_rec(el as int);
    lemma_dec_rec_value(sl as int);
    lemma_dec_rec_value(el as int);
    let m = lang.len() as int;
    let p = path.len() as int;
    let sn = ds.len() as int;
    let en = de.len() as int;
    let info = h1 + lang + h2 + path + h3 + ds + seq!['-'] + de;
    assert(h1.len() == 17 && h2.len() == 6 && h3.len() == 7);
    assert(info.len() == 31 + m + p + sn + en);
    assert forall|i: int|
        0 <= i < ds.len() implies ds[i] != ',' && ds[i] != ':' && ds[i] != '-' && ds[i]
        != '<' by {
        lemma_digit_plain(ds[i]);
    }
    assert forall|i: int|
        0 <= i < de.len() implies de[i] != ',' && de[i] != ':' && de[i] != '-' && de[i]
        != '<' by {
        lemma_digit_plain(de[i]);
    }
    assert forall|i: int| 0 <= i < info.len() implies #[trigger] info[i] == (if i < 17 {
        h1[i]
    } else if i < 17 + m {
        lang[i - 17]
    } else if i < 23 + m {
        h2[i - 17 - m]
    } else if i < 23 + m + p {
        path[i - 23 - m]
    } else if i < 30 + m + p {
        h3[i - 23 - m - p]
    } else if i < 30 + m + p + sn {
        ds[i - 30 - m - p]
    } else if i == 30 + m + p + sn {
        '-'
    } else {
        de[i - 31 - m - p - sn]
    }) by {}
    let comma = seq![','];
    assert(occurs_at(info, comma, 11)) by {
        assert(info.subrange(11, 12) =~= comma);
    }
    assert forall|j: int| 0 <= j < 11 implies !occurs_at(info, comma, j) by {
        if occurs_at(info, comma, j) {
            assert(info.subrange(j, j + 1)[0] == info[j]);
            assert(false);
        }
    }
    crate::text::lemma_find_from_exact(info, comma, 0, 11);
    let param0 = info.subrange(0, 11);
    assert(param0 =~= "type"@ + seq![':'] + "Quoted"@);
    lemma_pair_of_kv(param0, "type"@, "Quoted"@);
    assert(occurs_at(info, comma, 17 + m)) by {
        assert(info.subrange(17 + m, 18 + m) =~= comma);
    }
    assert forall|j: int| 12 <= j < 17 + m implies !occurs_at(info, comma, j) by {
        if occurs_at(info, comma, j) {
            assert(info.subrange(j, j + 1)[0] == info[j]);
            assert(false);
        }
    }
    crate::text::lemma_find_from_exact(info, comma, 12, 17 + m);
    let param1 = info.subrange(12, 17 + m);
    assert(param1 =~= "lang"@ + seq![':'] + lang);
    lemma_pair_of_kv(param1, "lang"@, lang);
    assert(occurs_at(info, comma, 23 + m + p)) by {
        assert(info.subrange(23 + m + p, 24 + m + p) =~= comma);
    }
    assert forall|j: int| 18 + m <= j < 23 + m + p implies !occurs_at(info, comma, j) by {
        if occurs_at(info, comma, j) {
            assert(info.subrange(j, j + 1)[0] == info[j]);
            assert(false);
        }
    }
    crate::text::lemma_find_from_exact(info, comma, 18 + m, 23 + m + p);
    let param2 = info.subrange(18 + m, 23 + m + p);
    assert(param2 =~= "path"@ + seq![':'] + path);
    lemma_pair_of_kv(param2, "path"@, path);
    crate::text::lemma_find_from_spec(info, comma, 24 + m + p);
    match find_from(info, comma, 24 + m + p) {
        Some(k) => {
            assert(info.subrange(k, k + 1)[0] == info[k]);
            assert(false);
        },
        None => {},
    }
    let lines = ds + seq!['-'] + de;
    let param3 = info.subrange(24 + m + p, info.len() as int);
    assert(param3 =~= "lines"@ + seq![':'] + lines);
    lemma_pair_of_kv(param3, "lines"@, lines);
    let ps = seq![("type"@, "Quoted"@), ("lang"@, lang), ("path"@, path), ("lines"@, lines)];
    assert(attr_pairs(info, 0) =~= ps) by {
        assert(attr_pairs(info, 24 + m + p) == pair_of(param3));
        assert(attr_pairs(info, 18 + m) == pair_of(param2) + attr_pairs(info, 24 + m + p));
        assert(attr_pairs(info, 12) == pair_of(param1) + attr_pairs(info, 18 + m));
        assert(attr_pairs(info, 0) == pair_of(param0) + attr_pairs(info, 12));
    }
    assert("type"@ != "lang"@ && "type"@ != "path"@ && "type"@ != "lines"@);
    assert("lang"@ != "path"@ && "lang"@ != "lines"@);
    assert("path"@ != "lines"@);
    let ps3 = ps.drop_last();
    let ps2 = ps3.drop_last();
    let ps1 = ps2.drop_last();
    assert(ps.last() == ("lines"@, lines));
    assert(ps3.last() == ("path"@, path));
    assert(ps2.last() == ("lang"@, lang));
    assert(ps1.last() == ("type"@, "Quoted"@));
    assert(ps1.drop_last().len() == 0);
    assert(lookup_attr(ps, "type"@) == lookup_attr(ps3, "type"@));
    assert(lookup_attr(ps3, "type"@) == lookup_attr(ps2, "type"@));
    assert(lookup_attr(ps2, "type"@) == lookup_attr(ps1, "type"@));
    assert(lookup_attr(ps1, "type"@) == Some("Quoted"@));
    assert(lookup_attr(ps, "lang"@) == lookup_attr(ps3, "lang"@));
    assert(lookup_attr(ps3, "lang"@) == lookup_attr(ps2, "lang"@));
    assert(lookup_attr(ps2, "lang"@) == Some(lang));
    assert(lookup_attr(ps, "path"@) == lookup_attr(ps3, "path"@));
    assert(lookup_attr(ps3, "path"@) == Some(path));
    assert(lookup_attr(ps, "lines"@) == Some(lines));
    // The line range splits at the dash between the two digit runs.
    assert(occurs_at(lines, seq!['-'], sn)) by {
        assert(lines.subrange(sn, sn + 1) =~= seq!['-']);
    }
    assert forall|j: int| 0 <= j < sn implies !occurs_at(lines, seq!['-'], j) by {
        if occurs_at(lines, seq!['-'], j) {
            assert(lines.subrange(j, j + 1)[0] == lines[j]);
            assert(lines[j] == ds[j]);
            assert(false);
        }
    }
    crate::text::lemma_find_from_exact(lines, seq!['-'], 0, sn);
    crate::text::lemma_find_from_spec(lines, seq!['-'], sn + 1);
    match find_from(lines, seq!['-'], sn + 1) {
        Some(k) => {
            assert(lines.subrange(k, k + 1)[0] == lines[k]);
            assert(lines[k] == de[k - sn - 1]);
            assert(false);
        },
        None => {},
    }
    assert(lines.subrange(0, sn) =~= ds);
    assert(lines.subrange(sn + 1, lines.len() as int) =~= de);
    assert(fence_xml(info, literal) == Some(quoted_xml_parts(literal, lang, path, ds, de)));
}

// ---------------------------------------------------------------------------
// Segment transforms
// ---------------------------------------------------------------------------
/// The decode-direction transform: a segment that parses as a chunk becomes
/// its fenced-block form; any other segment is kept.
pub open spec fn md_transform() -> spec_fn(Seq<char>) -> Option<Seq<char>> {
    |x: Seq<char>|
        match parse_chunk(x) {
            Some(c) => Some(chunk_md(c)),
            None => None,
        }
}

/// The redaction transform: a segment that, after fix-up, parses as a chunk
/// becomes its redacted tagged form; any other segment is kept.
pub open spec fn trim_transform() -> spec_fn(Seq<char>) -> Option<Seq<char>> {
    |x: Seq<char>|
        match parse_chunk(crate::repair::spec_fixup(x)) {
            Some(c) => Some(redacted_xml(c)),
            None => None,
        }
}

/// Turn one segment into its fenced-block form, if it parses.
pub fn segment_to_md(v: &Vec<char>) -> (r: Option<Vec<char>>)
    ensures
        match r {
            Some(out) => md_transform()(v@) == Some(out@),
            None => md_transform()(v@) is None,
        },
{
    match parse_chunk_chars(v) {
        Some(c) => Some(chunk_md_chars(&c)),
        None => None,
    }
}

/// Redact one segment, if it parses after fix-up.
pub fn segment_to_trimmed(v: &Vec<char>) -> (r: Option<Vec<char>>)
    ensures
        match r {
            Some(out) => trim_transform()(v@) == Some(out@),
            None => trim_transform()(v@) is None,
        },
{
    let fixed = crate::repair::fixup_chars(v);
    match parse_chunk_chars(&fixed) {
        Some(c) => Some(redact_chunk(&c)),
        None => None,
    }
}

} // verus!
