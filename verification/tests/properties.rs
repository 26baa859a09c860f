use transcoder::{
    decode, encode, encode_summarized, fixup_xml_code, sanitize, try_trim_code_xml, xml_for_each,
    CodeChunk, TranscodeError,
};

// Escaping idempotence: fixing a segment up twice changes nothing more.
#[test]
fn fixup_is_idempotent() {
    let input = "<GeneratedCode>\n<Code>\n&amp;foo < &bar&lt;i32&gt;() && x\n</Code>\n<Language>Rust</Language>\n</GeneratedCode>";
    let once = fixup_xml_code(input);
    let twice = fixup_xml_code(&once);
    assert_eq!(once, twice);
}

// Repair completeness: a well-formed quoted block cut at any point past its
// opening `<Code>` still parses after repair.
#[test]
fn repair_recovers_every_truncation() {
    let block = "<QuotedCode>\n<Code>\nlet a = b &amp;&amp; c &lt; d;\nprint(a);\n</Code>\n<Language>Rust</Language>\n<Path>src/x.rs</Path>\n<StartLine>3</StartLine>\n<EndLine>4</EndLine>\n</QuotedCode>";
    let chars: Vec<char> = block.chars().collect();
    let payload_start: usize = block.find("<Code>").unwrap() + "<Code>".len();
    for cut in payload_start..=chars.len() {
        let prefix: String = chars[..cut].iter().collect();
        let repaired = try_trim_code_xml(&prefix);
        assert!(repaired.is_ok(), "cut at {} failed", cut);
    }
}

// Round trip: a document of well-formed fenced blocks and no conclusion
// comes back from encode/decode with the same blocks.
#[test]
fn round_trip_well_formed_blocks() {
    let input = "Foo

``` type:Quoted,lang:Rust,path:src/main.rs,lines:1-3
fn main() {
    here(1 < 2 && 3 > 2);
}
```

Bar.

``` type:Generated,lang:Python,path:,lines:0-0
print(\"hi\")
```";

    let encoded = encode(input, None);
    let (body, conclusion) = decode(&encoded);
    assert_eq!(None, conclusion);
    assert_eq!(input, body);
}

// The worked example: a truncated generated block with an unescaped arrow
// decodes to a fenced block with the expected header and literal code.
#[test]
fn truncated_generated_block_decodes() {
    let input = "Hi\n\n<GeneratedCode>\n<Code>\nfn f()->i32{1}\n</Code>\n<Language>X</Language>";
    let (body, conclusion) = decode(input);
    assert_eq!(None, conclusion);
    assert!(body.contains("type:Generated,lang:X,path:,lines:0-0"), "body: {body}");
    assert!(body.contains("fn f()->i32{1}"), "body: {body}");
}

// The only failure a caller of encode_summarized can see: an unknown model.
#[test]
fn unknown_model_is_reported() {
    let r = encode_summarized("Hello.", None, "no-such-model");
    assert_eq!(Err(TranscodeError::ModelLookup), r);
}

// A segment that maps onto neither chunk variant is reported and left alone.
#[test]
fn unknown_segment_is_kept() {
    assert!(try_trim_code_xml("<Widget>\n<Knob>3</Knob>\n</Widget>").is_err());
    let doc = "intro\n\n<Widget>\n<Knob>3</Knob>\n</Widget>\n\nend";
    let out = xml_for_each(doc, |seg| try_trim_code_xml(seg).ok());
    assert_eq!(doc, out);
}

// Truncation to the token budget returns a proper prefix of a long article.
#[test]
fn long_article_is_truncated() {
    let mut long = String::new();
    for i in 0..1500u32 {
        long.push_str(&format!("word{} ", i));
    }
    let full = encode(&long, None);
    let out = encode_summarized(&long, None, "gpt-4-0613").unwrap();
    assert!(out.len() < full.len());
    assert!(full.starts_with(&out));
}

// A tag written with letters beyond ASCII opens a segment too.
#[test]
fn non_ascii_tag_is_a_segment() {
    let doc = "a\n<T\u{eb}st>x</T\u{eb}st>\nb";
    let out = xml_for_each(doc, |seg| Some(format!("[{seg}]")));
    assert_eq!("a\n[<T\u{eb}st>x</T\u{eb}st>]\nb", out);
}

// A pathological whitespace run makes the tokenizer's regex engine give up;
// the summarized form reports that instead of crashing.
#[test]
fn tokenizer_failure_is_reported() {
    let mut text = String::from("a");
    for _ in 0..1500u32 {
        text.push_str(&" ".repeat(1000));
    }
    text.push('b');
    match encode_summarized(&text, None, "gpt-4-0613") {
        Ok(_) => {}
        Err(e) => assert_eq!(TranscodeError::Tokenizer, e),
    }
}

// Comments are removed by sanitizing, other text kept verbatim.
#[test]
fn comments_are_stripped() {
    assert_eq!("Hello  world", sanitize("Hello <!--secret--> world"));
    assert_eq!(
        "left <!-- spans\nlines --> right",
        sanitize("left <!-- spans\nlines --> right"),
    );
}

// Empty and plain inputs pass through the whole pipeline unchanged.
#[test]
fn empty_and_plain_inputs() {
    assert_eq!("", sanitize(""));
    let (body, conclusion) = decode("");
    assert_eq!("", body);
    assert_eq!(None, conclusion);
    assert_eq!("Just text.", encode("Just text.", None));
}

// The named entities in a field are decoded like the code payload's.
#[test]
fn named_entities_in_fields_decode() {
    let input = "x\n\n<QuotedCode>\n<Code>\ny\n</Code>\n<Language>L</Language>\n<Path>o&apos;brien &quot;v2&quot;.rs</Path>\n</QuotedCode>";
    let (body, _) = decode(input);
    assert!(body.contains("path:o'brien \"v2\".rs"), "body: {body}");
}

// A line-number field holding text that is no number falls back to zero.
#[test]
fn bad_line_number_becomes_zero() {
    let input = "x\n\n<QuotedCode>\n<Code>\ny\n</Code>\n<Language>L</Language>\n<Path>p</Path>\n<StartLine>abc</StartLine>\n<EndLine>9</EndLine>\n</QuotedCode>";
    let (body, _) = decode(input);
    assert!(body.contains("lines:0-9"), "body: {body}");
}

// A fenced block whose header names an unknown type is not transformed.
#[test]
fn unknown_fence_type_is_kept() {
    let input = "``` type:Borrowed,lang:Rust,path:,lines:0-0\nlet x = 1;\n```";
    let encoded = encode(input, None);
    assert!(encoded.contains("type:Borrowed"));
    assert!(!encoded.contains("<QuotedCode>"));
    assert!(!encoded.contains("<GeneratedCode>"));
}

// The fenced-block serializer pins the header and the raw body exactly.
#[test]
fn to_markdown_writes_the_header() {
    let q = CodeChunk::QuotedCode {
        code: String::from("let y = 2;"),
        language: String::from("Rust"),
        path: String::from("src/a.rs"),
        start_line: Some(7),
        end_line: None,
    };
    assert_eq!(
        "```type:Quoted,lang:Rust,path:src/a.rs,lines:7-0\nlet y = 2;\n```",
        q.to_markdown(),
    );
    let g = CodeChunk::GeneratedCode {
        code: String::from("print(3)"),
        language: String::from("Python"),
    };
    assert_eq!(
        "```type:Generated,lang:Python,path:,lines:0-0\nprint(3)\n```",
        g.to_markdown(),
    );
}
