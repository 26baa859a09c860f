//! The escaping normalizer: rewrites a code payload so that every literal
//! `&`, `<`, `>` is escaped exactly once, whether the input was unescaped,
//! escaped, or a mixture.

use vstd::prelude::*;

use crate::text::{chars_of, occurs_at, replace_all, replace_all_s};

verus! {

pub open spec fn ent_amp() -> Seq<char> {
    "&amp;"@
}

pub open spec fn ent_lt() -> Seq<char> {
    "&lt;"@
}

pub open spec fn ent_gt() -> Seq<char> {
    "&gt;"@
}

pub open spec fn ent_quot() -> Seq<char> {
    "&quot;"@
}

pub open spec fn ent_apos() -> Seq<char> {
    "&apos;"@
}

/// Un-escape the three entities, ampersand last so that an already-escaped
/// entity is not processed twice.
pub open spec fn unescape3(s: Seq<char>) -> Seq<char> {
    replace_all_s(
        replace_all_s(replace_all_s(s, ent_lt(), seq!['<']), ent_gt(), seq!['>']),
        ent_amp(),
        seq!['&'],
    )
}

/// Re-escape the three characters, ampersand first so that the entities the
/// other two steps produce are not escaped again.
pub open spec fn escape3(s: Seq<char>) -> Seq<char> {
    replace_all_s(
        replace_all_s(replace_all_s(s, seq!['&'], ent_amp()), seq!['<'], ent_lt()),
        seq!['>'],
        ent_gt(),
    )
}

/// One normalizing pass over a code payload.
pub open spec fn normalize3(s: Seq<char>) -> Seq<char> {
    escape3(unescape3(s))
}

/// Un-escape the five named entities the deserializer decodes in field
/// text, ampersand last. Numeric character references are not decoded.
pub open spec fn unescape_xml(s: Seq<char>) -> Seq<char> {
    replace_all_s(
        replace_all_s(
            replace_all_s(
                replace_all_s(replace_all_s(s, ent_lt(), seq!['<']), ent_gt(), seq!['>']),
                ent_quot(),
                seq!['"'],
            ),
            ent_apos(),
            seq!['\''],
        ),
        ent_amp(),
        seq!['&'],
    )
}

pub fn unescape_entities(v: &Vec<char>) -> (r: Vec<char>)
    ensures
        r@ == unescape3(v@),
{
    let lt = chars_of("&lt;");
    let gt = chars_of("&gt;");
    let amp = chars_of("&amp;");
    let lt1 = chars_of("<");
    let gt1 = chars_of(">");
    let amp1 = chars_of("&");
    proof {
        reveal_strlit("<");
        reveal_strlit(">");
        reveal_strlit("&");
        assert(lt1@ =~= seq!['<']);
        assert(gt1@ =~= seq!['>']);
        assert(amp1@ =~= seq!['&']);
    }
    let a = replace_all(v, &lt, &lt1);
    let b = replace_all(&a, &gt, &gt1);
    replace_all(&b, &amp, &amp1)
}

pub fn escape_entities(v: &Vec<char>) -> (r: Vec<char>)
    ensures
        r@ == escape3(v@),
{
    let lt = chars_of("&lt;");
    let gt = chars_of("&gt;");
    let amp = chars_of("&amp;");
    let lt1 = chars_of("<");
    let gt1 = chars_of(">");
    let amp1 = chars_of("&");
    proof {
        reveal_strlit("<");
        reveal_strlit(">");
        reveal_strlit("&");
        assert(lt1@ =~= seq!['<']);
        assert(gt1@ =~= seq!['>']);
        assert(amp1@ =~= seq!['&']);
    }
    let a = replace_all(v, &amp1, &amp);
    let b = replace_all(&a, &lt1, &lt);
    replace_all(&b, &gt1, &gt)
}

/// Un-escape the five named field entities, executable form.
pub fn unescape_xml_entities(v: &Vec<char>) -> (r: Vec<char>)
    ensures
        r@ == unescape_xml(v@),
{
    let lt = chars_of("&lt;");
    let gt = chars_of("&gt;");
    let quot = chars_of("&quot;");
    let apos = chars_of("&apos;");
    let amp = chars_of("&amp;");
    let lt1 = chars_of("<");
    let gt1 = chars_of(">");
    let quot1 = chars_of("\"");
    let apos1 = chars_of("'");
    let amp1 = chars_of("&");
    proof {
        reveal_strlit("<");
        reveal_strlit(">");
        reveal_strlit("\"");
        reveal_strlit("'");
        reveal_strlit("&");
        assert(lt1@ =~= seq!['<']);
        assert(gt1@ =~= seq!['>']);
        assert(quot1@ =~= seq!['"']);
        assert(apos1@ =~= seq!['\'']);
        assert(amp1@ =~= seq!['&']);
    }
    let a = replace_all(v, &lt, &lt1);
    let b = replace_all(&a, &gt, &gt1);
    let c = replace_all(&b, &quot, &quot1);
    let d = replace_all(&c, &apos, &apos1);
    replace_all(&d, &amp, &amp1)
}

/// One normalizing pass, executable form.
pub fn normalize_entities(v: &Vec<char>) -> (r: Vec<char>)
    ensures
        r@ == normalize3(v@),
{
    let u = unescape_entities(v);
    escape_entities(&u)
}

// ---------------------------------------------------------------------------
// Why one normalizing pass settles the escaping: each pass rewrites the text
// character by character into blocks (an entity or a single character), and
// un-escaping such a block structure undoes exactly the escaping step.
// ---------------------------------------------------------------------------
/// The concatenation of per-character blocks.
pub open spec fn map_blocks(x: Seq<char>, g: spec_fn(char) -> Seq<char>) -> Seq<char>
    decreases x.len(),
{
    if x.len() == 0 {
        Seq::empty()
    } else {
        g(x[0]) + map_blocks(x.drop_first(), g)
    }
}

/// Replacing over a block list: a block equal to the pattern becomes the
/// replacement, and a block that can neither contain nor straddle the
/// pattern stays.
proof fn lemma_map_replace(
    x: Seq<char>,
    gin: spec_fn(char) -> Seq<char>,
    gout: spec_fn(char) -> Seq<char>,
    p: Seq<char>,
    r: Seq<char>,
)
    requires
        p.len() >= 1,
        forall|c: char|
            #![trigger gin(c)]
            {
                if gin(c) == p {
                    gout(c) == r
                } else {
                    gout(c) == gin(c) && gin(c).len() >= 1 && (gin(c)[0] != p[0] || (
                    !p.is_prefix_of(gin(c)) && !gin(c).is_prefix_of(p)))
                }
            },
        forall|c: char, j: int|
            gin(c) != p && 1 <= j < gin(c).len() ==> #[trigger] gin(c)[j] != p[0],
    ensures
        replace_all_s(map_blocks(x, gin), p, r) == map_blocks(x, gout),
    decreases x.len(),
{
    if x.len() == 0 {
        assert(map_blocks(x, gin) =~= Seq::<char>::empty());
        assert(map_blocks(x, gout) =~= Seq::<char>::empty());
    } else {
        let c = x[0];
        let b = gin(c);
        let rest = map_blocks(x.drop_first(), gin);
        let s = b + rest;
        assert(map_blocks(x, gin) == s);
        lemma_map_replace(x.drop_first(), gin, gout, p, r);
        if b == p {
            assert(occurs_at(s, p, 0)) by {
                assert(s.subrange(0, p.len() as int) =~= p);
            }
            crate::text::lemma_replace_head_match(s, p, r);
            assert(s.skip(p.len() as int) =~= rest);
            assert(map_blocks(x, gout) == gout(c) + map_blocks(x.drop_first(), gout));
        } else {
            assert forall|j: int| 0 <= j < b.len() implies !occurs_at(s, p, j) by {
                if occurs_at(s, p, j) {
                    if j == 0 {
                        assert(s[0] == p[0] && s[0] == b[0]);
                        if p.len() <= b.len() {
                            assert(p.is_prefix_of(b)) by {
                                assert(p =~= b.subrange(0, p.len() as int)) by {
                                    assert(p =~= s.subrange(0, p.len() as int));
                                    assert(forall|q: int|
                                        0 <= q < p.len() ==> s[q] == b[q]);
                                }
                            }
                        } else {
                            assert(b.is_prefix_of(p)) by {
                                assert(b =~= p.subrange(0, b.len() as int)) by {
                                    assert(forall|q: int|
                                        0 <= q < b.len() ==> p[q] == s[q] && s[q] == b[q]);
                                }
                            }
                        }
                    } else {
                        assert(s[j] == p[0] && s[j] == b[j]);
                    }
                }
            }
            crate::text::lemma_replace_prepend(b, rest, p, r);
            assert(map_blocks(x, gout) == gout(c) + map_blocks(x.drop_first(), gout));
        }
    }
}

/// The identity block map.
pub open spec fn blk_id() -> spec_fn(char) -> Seq<char> {
    |c: char| seq![c]
}

proof fn lemma_map_blocks_id(x: Seq<char>)
    ensures
        map_blocks(x, blk_id()) == x,
    decreases x.len(),
{
    if x.len() == 0 {
        assert(map_blocks(x, blk_id()) =~= x);
    } else {
        lemma_map_blocks_id(x.drop_first());
        assert(map_blocks(x, blk_id()) =~= x);
    }
}

/// Block shapes after each escaping step.
pub open spec fn blk_e1() -> spec_fn(char) -> Seq<char> {
    |c: char|
        if c == '&' {
            ent_amp()
        } else {
            seq![c]
        }
}

pub open spec fn blk_e2() -> spec_fn(char) -> Seq<char> {
    |c: char|
        if c == '&' {
            ent_amp()
        } else if c == '<' {
            ent_lt()
        } else {
            seq![c]
        }
}

pub open spec fn blk_e3() -> spec_fn(char) -> Seq<char> {
    |c: char|
        if c == '&' {
            ent_amp()
        } else if c == '<' {
            ent_lt()
        } else if c == '>' {
            ent_gt()
        } else {
            seq![c]
        }
}

/// Block shapes after each un-escaping step applied to `blk_e3` blocks.
pub open spec fn blk_u1() -> spec_fn(char) -> Seq<char> {
    |c: char|
        if c == '&' {
            ent_amp()
        } else if c == '>' {
            ent_gt()
        } else {
            seq![c]
        }
}

pub open spec fn blk_u2() -> spec_fn(char) -> Seq<char> {
    |c: char|
        if c == '&' {
            ent_amp()
        } else {
            seq![c]
        }
}

proof fn lemma_entity_chars()
    ensures
        ent_quot().len() == 6,
        ent_quot()[0] == '&' && ent_quot()[1] == 'q' && ent_quot()[2] == 'u' && ent_quot()[3]
            == 'o' && ent_quot()[4] == 't' && ent_quot()[5] == ';',
        ent_apos().len() == 6,
        ent_apos()[0] == '&' && ent_apos()[1] == 'a' && ent_apos()[2] == 'p' && ent_apos()[3]
            == 'o' && ent_apos()[4] == 's' && ent_apos()[5] == ';',
        ent_amp().len() == 5,
        ent_amp()[0] == '&' && ent_amp()[1] == 'a' && ent_amp()[2] == 'm' && ent_amp()[3] == 'p'
            && ent_amp()[4] == ';',
        ent_lt().len() == 4,
        ent_lt()[0] == '&' && ent_lt()[1] == 'l' && ent_lt()[2] == 't' && ent_lt()[3] == ';',
        ent_gt().len() == 4,
        ent_gt()[0] == '&' && ent_gt()[1] == 'g' && ent_gt()[2] == 't' && ent_gt()[3] == ';',
{
    reveal_strlit("&amp;");
    reveal_strlit("&lt;");
    reveal_strlit("&gt;");
    reveal_strlit("&quot;");
    reveal_strlit("&apos;");
}

/// The block-shape conditions of `lemma_map_replace`, for each of the six
/// replacement passes.
proof fn lemma_stage_conditions()
    ensures
        forall|c: char|
            #![trigger blk_id()(c)]
            {
                if blk_id()(c) == seq!['&'] {
                    blk_e1()(c) == ent_amp()
                } else {
                    blk_e1()(c) == blk_id()(c) && blk_id()(c).len() >= 1 && (blk_id()(c)[0] != '&'
                        || (!seq!['&'].is_prefix_of(blk_id()(c)) && !blk_id()(c).is_prefix_of(
                        seq!['&'],
                    )))
                }
            },
        forall|c: char|
            #![trigger blk_e1()(c)]
            {
                if blk_e1()(c) == seq!['<'] {
                    blk_e2()(c) == ent_lt()
                } else {
                    blk_e2()(c) == blk_e1()(c) && blk_e1()(c).len() >= 1 && (blk_e1()(c)[0] != '<'
                        || (!seq!['<'].is_prefix_of(blk_e1()(c)) && !blk_e1()(c).is_prefix_of(
                        seq!['<'],
                    )))
                }
            },
        forall|c: char, j: int|
            blk_e1()(c) != seq!['<'] && 1 <= j < blk_e1()(c).len() ==> #[trigger] blk_e1()(c)[j]
                != '<',
        forall|c: char|
            #![trigger blk_e2()(c)]
            {
                if blk_e2()(c) == seq!['>'] {
                    blk_e3()(c) == ent_gt()
                } else {
                    blk_e3()(c) == blk_e2()(c) && blk_e2()(c).len() >= 1 && (blk_e2()(c)[0] != '>'
                        || (!seq!['>'].is_prefix_of(blk_e2()(c)) && !blk_e2()(c).is_prefix_of(
                        seq!['>'],
                    )))
                }
            },
        forall|c: char, j: int|
            blk_e2()(c) != seq!['>'] && 1 <= j < blk_e2()(c).len() ==> #[trigger] blk_e2()(c)[j]
                != '>',
        forall|c: char|
            #![trigger blk_e3()(c)]
            {
                if blk_e3()(c) == ent_lt() {
                    blk_u1()(c) == seq!['<']
                } else {
                    blk_u1()(c) == blk_e3()(c) && blk_e3()(c).len() >= 1 && (blk_e3()(c)[0] != '&'
                        || (!ent_lt().is_prefix_of(blk_e3()(c)) && !blk_e3()(c).is_prefix_of(
                        ent_lt(),
                    )))
                }
            },
        forall|c: char, j: int|
            blk_e3()(c) != ent_lt() && 1 <= j < blk_e3()(c).len() ==> #[trigger] blk_e3()(c)[j]
                != '&',
        forall|c: char|
            #![trigger blk_u1()(c)]
            {
                if blk_u1()(c) == ent_gt() {
                    blk_u2()(c) == seq!['>']
                } else {
                    blk_u2()(c) == blk_u1()(c) && blk_u1()(c).len() >= 1 && (blk_u1()(c)[0] != '&'
                        || (!ent_gt().is_prefix_of(blk_u1()(c)) && !blk_u1()(c).is_prefix_of(
                        ent_gt(),
                    )))
                }
            },
        forall|c: char, j: int|
            blk_u1()(c) != ent_gt() && 1 <= j < blk_u1()(c).len() ==> #[trigger] blk_u1()(c)[j]
                != '&',
        forall|c: char|
            #![trigger blk_u2()(c)]
            {
                if blk_u2()(c) == ent_amp() {
                    blk_id()(c) == seq!['&']
                } else {
                    blk_id()(c) == blk_u2()(c) && blk_u2()(c).len() >= 1 && (blk_u2()(c)[0] != '&'
                        || (!ent_amp().is_prefix_of(blk_u2()(c)) && !blk_u2()(c).is_prefix_of(
                        ent_amp(),
                    )))
                }
            },
        forall|c: char, j: int|
            blk_u2()(c) != ent_amp() && 1 <= j < blk_u2()(c).len() ==> #[trigger] blk_u2()(c)[j]
                != '&',
{
    lemma_entity_chars();
    assert forall|c: char|
        #![trigger blk_id()(c)]
        {
            if blk_id()(c) == seq!['&'] {
                blk_e1()(c) == ent_amp()
            } else {
                blk_e1()(c) == blk_id()(c) && blk_id()(c).len() >= 1 && (blk_id()(c)[0] != '&' || (
                !seq!['&'].is_prefix_of(blk_id()(c)) && !blk_id()(c).is_prefix_of(seq!['&'])))
            }
        } by {
        if c == '&' {
            assert(blk_id()(c) =~= seq!['&']);
        } else {
            assert(blk_id()(c)[0] == c);
        }
    }
    assert forall|c: char|
        #![trigger blk_e1()(c)]
        {
            if blk_e1()(c) == seq!['<'] {
                blk_e2()(c) == ent_lt()
            } else {
                blk_e2()(c) == blk_e1()(c) && blk_e1()(c).len() >= 1 && (blk_e1()(c)[0] != '<' || (
                !seq!['<'].is_prefix_of(blk_e1()(c)) && !blk_e1()(c).is_prefix_of(seq!['<'])))
            }
        } by {
        if c == '<' {
            assert(blk_e1()(c) =~= seq!['<']);
        } else if c == '&' {
            assert(blk_e1()(c)[0] == '&');
        } else {
            assert(blk_e1()(c)[0] == c);
        }
    }
    assert forall|c: char, j: int|
        blk_e1()(c) != seq!['<'] && 1 <= j < blk_e1()(c).len() implies #[trigger] blk_e1()(c)[j]
        != '<' by {
        if c == '&' {
            assert(blk_e1()(c) == ent_amp());
        } else {
            assert(blk_e1()(c).len() == 1);
        }
    }
    assert forall|c: char|
        #![trigger blk_e2()(c)]
        {
            if blk_e2()(c) == seq!['>'] {
                blk_e3()(c) == ent_gt()
            } else {
                blk_e3()(c) == blk_e2()(c) && blk_e2()(c).len() >= 1 && (blk_e2()(c)[0] != '>' || (
                !seq!['>'].is_prefix_of(blk_e2()(c)) && !blk_e2()(c).is_prefix_of(seq!['>'])))
            }
        } by {
        if c == '>' {
            assert(blk_e2()(c) =~= seq!['>']);
        } else if c == '&' || c == '<' {
            assert(blk_e2()(c)[0] == '&');
        } else {
            assert(blk_e2()(c)[0] == c);
        }
    }
    assert forall|c: char, j: int|
        blk_e2()(c) != seq!['>'] && 1 <= j < blk_e2()(c).len() implies #[trigger] blk_e2()(c)[j]
        != '>' by {
        if c == '&' {
            assert(blk_e2()(c) == ent_amp());
        } else if c == '<' {
            assert(blk_e2()(c) == ent_lt());
        } else {
            assert(blk_e2()(c).len() == 1);
        }
    }
    assert forall|c: char|
        #![trigger blk_e3()(c)]
        {
            if blk_e3()(c) == ent_lt() {
                blk_u1()(c) == seq!['<']
            } else {
                blk_u1()(c) == blk_e3()(c) && blk_e3()(c).len() >= 1 && (blk_e3()(c)[0] != '&' || (
                !ent_lt().is_prefix_of(blk_e3()(c)) && !blk_e3()(c).is_prefix_of(ent_lt())))
            }
        } by {
        if c == '<' {
            assert(blk_e3()(c) == ent_lt());
        } else if c == '&' {
            assert(blk_e3()(c) == ent_amp());
            assert(ent_amp() != ent_lt());
            assert(!ent_lt().is_prefix_of(ent_amp())) by {
                assert(ent_lt()[1] != ent_amp().subrange(0, 4)[1]);
            }
            assert(!ent_amp().is_prefix_of(ent_lt()));
        } else if c == '>' {
            assert(blk_e3()(c) == ent_gt());
            assert(ent_gt() != ent_lt());
            assert(!ent_lt().is_prefix_of(ent_gt())) by {
                assert(ent_lt()[1] != ent_gt().subrange(0, 4)[1]);
            }
            assert(!ent_gt().is_prefix_of(ent_lt())) by {
                assert(ent_gt()[1] != ent_lt().subrange(0, 4)[1]);
            }
        } else {
            assert(blk_e3()(c)[0] == c);
            assert(blk_e3()(c) != ent_lt());
        }
    }
    assert forall|c: char, j: int|
        blk_e3()(c) != ent_lt() && 1 <= j < blk_e3()(c).len() implies #[trigger] blk_e3()(c)[j]
        != '&' by {
        if c == '&' {
            assert(blk_e3()(c) == ent_amp());
        } else if c == '>' {
            assert(blk_e3()(c) == ent_gt());
        } else if c == '<' {
        } else {
            assert(blk_e3()(c).len() == 1);
        }
    }
    assert forall|c: char|
        #![trigger blk_u1()(c)]
        {
            if blk_u1()(c) == ent_gt() {
                blk_u2()(c) == seq!['>']
            } else {
                blk_u2()(c) == blk_u1()(c) && blk_u1()(c).len() >= 1 && (blk_u1()(c)[0] != '&' || (
                !ent_gt().is_prefix_of(blk_u1()(c)) && !blk_u1()(c).is_prefix_of(ent_gt())))
            }
        } by {
        if c == '>' {
            assert(blk_u1()(c) == ent_gt());
        } else if c == '&' {
            assert(blk_u1()(c) == ent_amp());
            assert(ent_amp() != ent_gt());
            assert(!ent_gt().is_prefix_of(ent_amp())) by {
                assert(ent_gt()[1] != ent_amp().subrange(0, 4)[1]);
            }
            assert(!ent_amp().is_prefix_of(ent_gt()));
        } else {
            assert(blk_u1()(c)[0] == c);
            assert(blk_u1()(c) != ent_gt());
        }
    }
    assert forall|c: char, j: int|
        blk_u1()(c) != ent_gt() && 1 <= j < blk_u1()(c).len() implies #[trigger] blk_u1()(c)[j]
        != '&' by {
        if c == '&' {
            assert(blk_u1()(c) == ent_amp());
        } else if c == '>' {
        } else {
            assert(blk_u1()(c).len() == 1);
        }
    }
    assert forall|c: char|
        #![trigger blk_u2()(c)]
        {
            if blk_u2()(c) == ent_amp() {
                blk_id()(c) == seq!['&']
            } else {
                blk_id()(c) == blk_u2()(c) && blk_u2()(c).len() >= 1 && (blk_u2()(c)[0] != '&' || (
                !ent_amp().is_prefix_of(blk_u2()(c)) && !blk_u2()(c).is_prefix_of(ent_amp())))
            }
        } by {
        if c == '&' {
            assert(blk_u2()(c) == ent_amp());
            assert(blk_id()(c) =~= seq!['&']);
        } else {
            assert(blk_u2()(c)[0] == c);
            assert(blk_u2()(c) != ent_amp());
        }
    }
    assert forall|c: char, j: int|
        blk_u2()(c) != ent_amp() && 1 <= j < blk_u2()(c).len() implies #[trigger] blk_u2()(c)[j]
        != '&' by {
        if c == '&' {
        } else {
            assert(blk_u2()(c).len() == 1);
        }
    }
}

/// Escaping a raw text yields exactly its per-character blocks.
proof fn lemma_escape_blocks(x: Seq<char>)
    ensures
        escape3(x) == map_blocks(x, blk_e3()),
{
    lemma_entity_chars();
    lemma_stage_conditions();
    lemma_map_blocks_id(x);
    lemma_map_replace(x, blk_id(), blk_e1(), seq!['&'], ent_amp());
    assert(replace_all_s(x, seq!['&'], ent_amp()) == map_blocks(x, blk_e1()));
    lemma_map_replace(x, blk_e1(), blk_e2(), seq!['<'], ent_lt());
    lemma_map_replace(x, blk_e2(), blk_e3(), seq!['>'], ent_gt());
}

/// The quote and apostrophe passes leave the partially un-escaped blocks
/// alone: no block equals either entity, and none can contain or straddle
/// one.
proof fn lemma_stage_conditions_xml()
    ensures
        forall|c: char|
            #![trigger blk_u2()(c)]
            {
                if blk_u2()(c) == ent_quot() {
                    blk_u2()(c) == seq!['"']
                } else {
                    blk_u2()(c) == blk_u2()(c) && blk_u2()(c).len() >= 1 && (blk_u2()(c)[0] != '&'
                        || (!ent_quot().is_prefix_of(blk_u2()(c)) && !blk_u2()(c).is_prefix_of(
                        ent_quot(),
                    )))
                }
            },
        forall|c: char, j: int|
            blk_u2()(c) != ent_quot() && 1 <= j < blk_u2()(c).len() ==> #[trigger] blk_u2()(c)[j]
                != '&',
        forall|c: char|
            #![trigger blk_u2()(c)]
            {
                if blk_u2()(c) == ent_apos() {
                    blk_u2()(c) == seq!['\'']
                } else {
                    blk_u2()(c) == blk_u2()(c) && blk_u2()(c).len() >= 1 && (blk_u2()(c)[0] != '&'
                        || (!ent_apos().is_prefix_of(blk_u2()(c)) && !blk_u2()(c).is_prefix_of(
                        ent_apos(),
                    )))
                }
            },
        forall|c: char, j: int|
            blk_u2()(c) != ent_apos() && 1 <= j < blk_u2()(c).len() ==> #[trigger] blk_u2()(c)[j]
                != '&',
{
    lemma_entity_chars();
    assert forall|c: char|
        #![trigger blk_u2()(c)]
        {
            if blk_u2()(c) == ent_quot() {
                blk_u2()(c) == seq!['"']
            } else {
                blk_u2()(c) == blk_u2()(c) && blk_u2()(c).len() >= 1 && (blk_u2()(c)[0] != '&' || (
                !ent_quot().is_prefix_of(blk_u2()(c)) && !blk_u2()(c).is_prefix_of(ent_quot())))
            }
        } by {
        if c == '&' {
            assert(blk_u2()(c) == ent_amp());
            assert(ent_amp() != ent_quot());
            assert(!ent_amp().is_prefix_of(ent_quot())) by {
                assert(ent_amp()[1] != ent_quot().subrange(0, 5)[1]);
            }
        } else {
            assert(blk_u2()(c)[0] == c);
            assert(blk_u2()(c) != ent_quot());
        }
    }
    assert forall|c: char|
        #![trigger blk_u2()(c)]
        {
            if blk_u2()(c) == ent_apos() {
                blk_u2()(c) == seq!['\'']
            } else {
                blk_u2()(c) == blk_u2()(c) && blk_u2()(c).len() >= 1 && (blk_u2()(c)[0] != '&' || (
                !ent_apos().is_prefix_of(blk_u2()(c)) && !blk_u2()(c).is_prefix_of(ent_apos())))
            }
        } by {
        if c == '&' {
            assert(blk_u2()(c) == ent_amp());
            assert(ent_amp() != ent_apos());
            assert(!ent_amp().is_prefix_of(ent_apos())) by {
                assert(ent_amp()[2] != ent_apos().subrange(0, 5)[2]);
            }
        } else {
            assert(blk_u2()(c)[0] == c);
            assert(blk_u2()(c) != ent_apos());
        }
    }
    assert forall|c: char, j: int|
        blk_u2()(c) != ent_quot() && 1 <= j < blk_u2()(c).len() implies #[trigger] blk_u2()(c)[j]
        != '&' by {
        if c == '&' {
            assert(blk_u2()(c) == ent_amp());
        } else {
            assert(blk_u2()(c).len() == 1);
        }
    }
    assert forall|c: char, j: int|
        blk_u2()(c) != ent_apos() && 1 <= j < blk_u2()(c).len() implies #[trigger] blk_u2()(c)[j]
        != '&' by {
        if c == '&' {
            assert(blk_u2()(c) == ent_amp());
        } else {
            assert(blk_u2()(c).len() == 1);
        }
    }
}

/// Un-escaping the escaped blocks gives the raw text back.
proof fn lemma_unescape_blocks(x: Seq<char>)
    ensures
        unescape3(map_blocks(x, blk_e3())) == x,
{
    lemma_entity_chars();
    lemma_stage_conditions();
    lemma_map_replace(x, blk_e3(), blk_u1(), ent_lt(), seq!['<']);
    lemma_map_replace(x, blk_u1(), blk_u2(), ent_gt(), seq!['>']);
    lemma_map_replace(x, blk_u2(), blk_id(), ent_amp(), seq!['&']);
    lemma_map_blocks_id(x);
}

proof fn lemma_map_blocks_no_lt(x: Seq<char>)
    ensures
        forall|i: int|
            0 <= i < map_blocks(x, blk_e3()).len() ==> #[trigger] map_blocks(x, blk_e3())[i]
                != '<',
    decreases x.len(),
{
    lemma_entity_chars();
    if x.len() > 0 {
        lemma_map_blocks_no_lt(x.drop_first());
        let b = blk_e3()(x[0]);
        let rest = map_blocks(x.drop_first(), blk_e3());
        assert forall|i: int| 0 <= i < map_blocks(x, blk_e3()).len() implies #[trigger] map_blocks(
            x,
            blk_e3(),
        )[i] != '<' by {
            if i < b.len() {
                assert(map_blocks(x, blk_e3())[i] == b[i]);
                let c = x[0];
                if c == '&' || c == '<' || c == '>' {
                } else {
                    assert(b[0] == c && c != '<');
                }
            } else {
                assert(map_blocks(x, blk_e3())[i] == rest[i - b.len()]);
            }
        }
    }
}

/// Escaped text carries no literal `<` at all.
pub proof fn lemma_escape3_no_lt(y: Seq<char>)
    ensures
        forall|i: int| 0 <= i < escape3(y).len() ==> #[trigger] escape3(y)[i] != '<',
{
    lemma_escape_blocks(y);
    lemma_map_blocks_no_lt(y);
}

/// The five-entity field un-escape also undoes escaping exactly: the two
/// extra passes find nothing to replace in escaped text.
pub proof fn lemma_unescape_xml_escape(x: Seq<char>)
    ensures
        unescape_xml(escape3(x)) == x,
{
    lemma_entity_chars();
    lemma_stage_conditions();
    lemma_stage_conditions_xml();
    lemma_escape_blocks(x);
    lemma_map_replace(x, blk_e3(), blk_u1(), ent_lt(), seq!['<']);
    lemma_map_replace(x, blk_u1(), blk_u2(), ent_gt(), seq!['>']);
    lemma_map_replace(x, blk_u2(), blk_u2(), ent_quot(), seq!['"']);
    lemma_map_replace(x, blk_u2(), blk_u2(), ent_apos(), seq!['\'']);
    lemma_map_replace(x, blk_u2(), blk_id(), ent_amp(), seq!['&']);
    lemma_map_blocks_id(x);
}

/// Text without an ampersand carries no entity, so un-escaping leaves it be.
pub proof fn lemma_unescape_id_no_amp(s: Seq<char>)
    requires
        forall|i: int| 0 <= i < s.len() ==> s[i] != '&',
    ensures
        unescape3(s) == s,
        unescape_xml(s) == s,
{
    lemma_entity_chars();
    assert(replace_all_s(s, ent_quot(), seq!['"']) == s) by {
        crate::text::lemma_find_from_spec(s, ent_quot(), 0);
        match crate::text::find_from(s, ent_quot(), 0) {
            Some(k) => {
                assert(s.subrange(k, k + ent_quot().len() as int)[0] == s[k]);
                assert(false);
            },
            None => {},
        }
    }
    assert(replace_all_s(s, ent_apos(), seq!['\'']) == s) by {
        crate::text::lemma_find_from_spec(s, ent_apos(), 0);
        match crate::text::find_from(s, ent_apos(), 0) {
            Some(k) => {
                assert(s.subrange(k, k + ent_apos().len() as int)[0] == s[k]);
                assert(false);
            },
            None => {},
        }
    }
    lemma_entity_chars();
    assert(replace_all_s(s, ent_lt(), seq!['<']) == s) by {
        crate::text::lemma_find_from_spec(s, ent_lt(), 0);
        match crate::text::find_from(s, ent_lt(), 0) {
            Some(k) => {
                assert(s.subrange(k, k + ent_lt().len() as int)[0] == s[k]);
                assert(false);
            },
            None => {},
        }
    }
    assert(replace_all_s(s, ent_gt(), seq!['>']) == s) by {
        crate::text::lemma_find_from_spec(s, ent_gt(), 0);
        match crate::text::find_from(s, ent_gt(), 0) {
            Some(k) => {
                assert(s.subrange(k, k + ent_gt().len() as int)[0] == s[k]);
                assert(false);
            },
            None => {},
        }
    }
    assert(replace_all_s(s, ent_amp(), seq!['&']) == s) by {
        crate::text::lemma_find_from_spec(s, ent_amp(), 0);
        match crate::text::find_from(s, ent_amp(), 0) {
            Some(k) => {
                assert(s.subrange(k, k + ent_amp().len() as int)[0] == s[k]);
                assert(false);
            },
            None => {},
        }
    }
}

/// Un-escaping undoes escaping exactly.
pub proof fn lemma_unescape_escape(x: Seq<char>)
    ensures
        unescape3(escape3(x)) == x,
{
    lemma_escape_blocks(x);
    lemma_unescape_blocks(x);
}

/// The law of the normalizer: for any code text, in any mixture of escaped
/// and unescaped form, normalizing twice gives the same result as
/// normalizing once.
pub proof fn lemma_normalize_idempotent(s: Seq<char>)
    ensures
        normalize3(normalize3(s)) == normalize3(s),
{
    lemma_unescape_escape(unescape3(s));
}

} // verus!
