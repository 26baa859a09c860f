//! The Markdown engine, behind trusted wrappers. Each wrapper parses its
//! document afresh, works on the tree, and renders; since parsing is a pure
//! function of the text, each wrapper's result is named by an uninterpreted
//! function of its plain arguments.

use vstd::prelude::*;

verus! {

/// What the engine's parse of `doc` shows at top level: for each block, its
/// footnote label when it is a footnote definition, and whether its first
/// child is a plain paragraph.
pub uninterp spec fn md_footnote_scan(doc: Seq<char>) -> Seq<(Option<Seq<char>>, bool)>;

/// For each top-level block of the parse of `doc`: its info string and
/// literal body when it is a code block.
pub uninterp spec fn md_code_scan(doc: Seq<char>) -> Seq<Option<(Seq<char>, Seq<char>)>>;

/// The engine's rendering of `doc`, trimmed, with the top-level blocks at
/// the given indices detached.
pub uninterp spec fn md_render_dropping(doc: Seq<char>, drop: Seq<usize>) -> Seq<char>;

/// The engine's rendering of `doc`, trimmed, with each top-level code block
/// whose index carries a replacement turned into a raw HTML block holding
/// that replacement text.
pub uninterp spec fn md_render_replacing(doc: Seq<char>, repl: Seq<Option<Seq<char>>>) -> Seq<char>;

/// The engine's rendering, trimmed, of the first child of the top-level
/// block at the given index.
pub uninterp spec fn md_render_first_child(doc: Seq<char>, idx: usize) -> Seq<char>;

pub open spec fn view_opt_str(o: Option<String>) -> Option<Seq<char>> {
    match o {
        Some(s) => Some(s@),
        None => None,
    }
}

pub open spec fn view_opt_strs(s: Seq<Option<String>>) -> Seq<Option<Seq<char>>> {
    s.map_values(|o: Option<String>| view_opt_str(o))
}

/// Relies on comrak's `parse_document` (footnote extension on): lists the
/// top-level blocks, with each footnote definition's name and whether its
/// first child is a paragraph.
#[verifier::external_body]
pub fn scan_footnotes(doc: &str) -> (r: Vec<(Option<String>, bool)>)
    ensures
        r@.len() == md_footnote_scan(doc@).len(),
        forall|i: int|
            0 <= i < r@.len() ==> #[trigger] md_footnote_scan(doc@)[i] == (
                view_opt_str(r@[i].0),
                r@[i].1,
            ),
{
    let arena = comrak::Arena::new();
    let mut options = comrak::Options::default();
    options.extension.footnotes = true;
    let root = comrak::parse_document(&arena, doc, &options);
    root.children()
        .map(|child| match &child.data.borrow().value {
            comrak::nodes::NodeValue::FootnoteDefinition(def) => (
                Some(def.name.clone()),
                child.first_child().map_or(false, |fc| {
                    matches!(fc.data.borrow().value, comrak::nodes::NodeValue::Paragraph)
                }),
            ),
            _ => (None, false),
        })
        .collect()
}

/// Relies on comrak's `parse_document`: lists the top-level blocks, with
/// each code block's info string and literal contents.
#[verifier::external_body]
pub fn scan_code_blocks(doc: &str) -> (r: Vec<Option<(String, String)>>)
    ensures
        r@.len() == md_code_scan(doc@).len(),
        forall|i: int|
            0 <= i < r@.len() ==> #[trigger] md_code_scan(doc@)[i] == (match r@[i] {
                Some(p) => Some((p.0@, p.1@)),
                None => None,
            }),
{
    let arena = comrak::Arena::new();
    let mut options = comrak::Options::default();
    options.extension.footnotes = true;
    let root = comrak::parse_document(&arena, doc, &options);
    root.children()
        .map(|child| match &child.data.borrow().value {
            comrak::nodes::NodeValue::CodeBlock(cb) => Some((cb.info.clone(), cb.literal.clone())),
            _ => None,
        })
        .collect()
}

/// Relies on comrak's `parse_document`, `Node::detach` and
/// `format_commonmark`: renders the document with the listed top-level
/// blocks detached, trimming surrounding whitespace.
#[verifier::external_body]
pub fn render_dropping(doc: &str, drop: &Vec<usize>) -> (r: String)
    ensures
        r@ == md_render_dropping(doc@, drop@),
{
    let arena = comrak::Arena::new();
    let mut options = comrak::Options::default();
    options.extension.footnotes = true;
    let root = comrak::parse_document(&arena, doc, &options);
    let kids: Vec<_> = root.children().collect();
    for i in drop {
        if let Some(k) = kids.get(*i) {
            k.detach();
        }
    }
    let mut out = String::new();
    comrak::format_commonmark(root, &options, &mut out).unwrap();
    out.trim().to_owned()
}

/// Relies on comrak's `parse_document` and `format_commonmark`: renders the
/// document with each top-level code block whose index carries a replacement
/// turned into a raw HTML block, trimming surrounding whitespace.
#[verifier::external_body]
pub fn render_replacing(doc: &str, repl: &Vec<Option<String>>) -> (r: String)
    ensures
        r@ == md_render_replacing(doc@, view_opt_strs(repl@)),
{
    let arena = comrak::Arena::new();
    let mut options = comrak::Options::default();
    options.extension.footnotes = true;
    let root = comrak::parse_document(&arena, doc, &options);
    for (i, child) in root.children().enumerate() {
        let is_code = matches!(child.data.borrow().value, comrak::nodes::NodeValue::CodeBlock(_));
        if let (true, Some(Some(xml))) = (is_code, repl.get(i)) {
            child.data.borrow_mut().value = comrak::nodes::NodeValue::HtmlBlock(
                comrak::nodes::NodeHtmlBlock { block_type: 0, literal: xml.clone() },
            );
        }
    }
    let mut out = String::new();
    comrak::format_commonmark(root, &options, &mut out).unwrap();
    out.trim().to_owned()
}

/// Relies on comrak's `parse_document` and `format_commonmark`: renders the
/// first child of the top-level block at `idx`. Returns a value whenever
/// that block is a footnote definition whose first child is a paragraph.
#[verifier::external_body]
pub fn render_first_child(doc: &str, idx: usize) -> (r: Option<String>)
    ensures
        idx < md_footnote_scan(doc@).len() && md_footnote_scan(doc@)[idx as int].1 ==> r is Some,
        r matches Some(s) ==> s@ == md_render_first_child(doc@, idx),
{
    let arena = comrak::Arena::new();
    let mut options = comrak::Options::default();
    options.extension.footnotes = true;
    let root = comrak::parse_document(&arena, doc, &options);
    let kids: Vec<_> = root.children().collect();
    let child = kids.get(idx)?;
    let fc = child.first_child()?;
    let mut out = String::new();
    comrak::format_commonmark(fc, &options, &mut out).ok()?;
    Some(out.trim().to_owned())
}

} // verus!
