//! What holds of the chunks of every file.
use vstd::prelude::*;

use crate::chunk::{
    all_passages, body_of, content_hash, context, cut, described, file_chunks, file_passages,
    joined, pack, paragraphs, pieces, sealed, section_passages, sections, split_frontmatter,
    unless_blank, ChunkView, Section, MAX_CHUNK,
};
use crate::text::{
    byte_len, contains, find, is_blank, is_first, is_whitespace, lemma_encode_concat, lemma_find,
    lemma_found, lemma_lines_hold_no_newline, lemma_newline_at, lemma_trim_is_part, lines,
    occurs_at, starts_with, strip_cr, strip_prefix, unquote, Fringe,
};

verus! {

/// Lines, each with its newline.
pub open spec fn unlines(ls: Seq<Seq<char>>) -> Seq<char>
    decreases ls.len(),
{
    if ls.len() == 0 {
        Seq::empty()
    } else {
        ls[0].push('\n') + unlines(ls.skip(1))
    }
}

/// The texts of some sections, one behind the other.
pub open spec fn concat_texts(ss: Seq<Section>) -> Seq<char>
    decreases ss.len(),
{
    if ss.len() == 0 {
        Seq::empty()
    } else {
        ss[0].text + concat_texts(ss.skip(1))
    }
}

proof fn lemma_blank_concat(a: Seq<char>, b: Seq<char>)
    ensures
        is_blank(a + b) <==> is_blank(a) && is_blank(b),
{
    let c = a + b;
    if is_blank(c) {
        assert forall|i: int| 0 <= i < a.len() implies is_whitespace(#[trigger] a[i]) by {
            assert(c[i] == a[i]);
        }
        assert forall|i: int| 0 <= i < b.len() implies is_whitespace(#[trigger] b[i]) by {
            assert(c[a.len() + i] == b[i]);
        }
    }
}

proof fn lemma_heading_line_is_solid(line: Seq<char>)
    requires
        strip_prefix(line, "## "@) is Some,
    ensures
        !is_blank(line.push('\n')),
{
    reveal_strlit("## ");
    assert(line.subrange(0, 3)[0] == line[0]);
    assert(line.push('\n')[0] == '#');
}

proof fn lemma_cut_keeps(rest: Seq<Seq<char>>, heading: Seq<char>, cur: Seq<char>)
    ensures
        is_blank(cur + unlines(rest)) ==> cut(rest, heading, cur).len() == 0,
        !is_blank(cur + unlines(rest)) ==> concat_texts(cut(rest, heading, cur)) == cur + unlines(
            rest,
        ),
    decreases rest.len(),
{
    if rest.len() == 0 {
        assert(cur + unlines(rest) =~= cur);
        if !is_blank(cur) {
            let one = unless_blank(heading, cur);
            reveal_with_fuel(concat_texts, 2);
            assert(one.skip(1).len() == 0);
            assert(concat_texts(one) =~= cur);
        }
    } else {
        let line = rest[0].push('\n');
        let after = rest.skip(1);
        assert(cur + unlines(rest) =~= (cur + line) + unlines(after));
        match strip_prefix(rest[0], "## "@) {
            Some(h) => {
                lemma_heading_line_is_solid(rest[0]);
                lemma_blank_concat(cur, line);
                lemma_blank_concat(cur + line, unlines(after));
                lemma_blank_concat(line, unlines(after));
                if is_blank(cur) {
                    lemma_cut_keeps(after, h, cur + line);
                    let tail = cut(after, h, cur + line);
                    assert(unless_blank(heading, cur) + tail =~= tail);
                } else {
                    lemma_cut_keeps(after, h, line);
                    let tail = cut(after, h, line);
                    let all = unless_blank(heading, cur) + tail;
                    assert(all.skip(1) =~= tail);
                    assert(concat_texts(all) =~= cur + (line + unlines(after)));
                }
            },
            None => {
                lemma_cut_keeps(after, heading, cur + line);
            },
        }
    }
}

proof fn lemma_lines_keep_blankness(s: Seq<char>)
    ensures
        is_blank(unlines(lines(s))) <==> is_blank(s),
    decreases s.len(),
{
    if s.len() > 0 {
        let pat = seq!['\n'];
        lemma_found(s, pat);
        match find(s, pat) {
            Some(i) => {
                lemma_newline_at(s, i);
                let line = s.take(i);
                let after = s.skip(i + 1);
                lemma_lines_keep_blankness(after);
                let all = seq![strip_cr(line)] + lines(after);
                assert(all.skip(1) =~= lines(after));
                assert(s =~= line + (seq!['\n'] + after));
                lemma_blank_concat(line, seq!['\n'] + after);
                lemma_blank_concat(seq!['\n'], after);
                assert(is_blank(seq!['\n']));
                assert(strip_cr(line).push('\n') =~= strip_cr(line) + seq!['\n']);
                lemma_blank_concat(strip_cr(line), seq!['\n']);
                lemma_blank_concat(strip_cr(line).push('\n'), unlines(lines(after)));
                if strip_cr(line) != line {
                    assert(line =~= strip_cr(line) + seq!['\r']);
                    assert(is_blank(seq!['\r']));
                    lemma_blank_concat(strip_cr(line), seq!['\r']);
                }
            },
            None => {
                let all = seq![s];
                reveal_with_fuel(unlines, 2);
                assert(all.skip(1).len() == 0);
                assert(unlines(all) =~= s + seq!['\n']);
                assert(is_blank(seq!['\n']));
                lemma_blank_concat(s, seq!['\n']);
            },
        }
    }
}

/// Cutting at headings loses nothing: the sections one behind the other are
/// the lines of the body. Only a body that is blank throughout has none.
pub proof fn law_sections_keep_the_body(body: Seq<char>)
    ensures
        is_blank(body) <==> sections(body).len() == 0,
        !is_blank(body) ==> concat_texts(sections(body)) == unlines(lines(body)),
{
    let ls = lines(body);
    lemma_cut_keeps(ls, Seq::empty(), Seq::empty());
    assert(Seq::<char>::empty() + unlines(ls) =~= unlines(ls));
    lemma_lines_keep_blankness(body);
}

proof fn lemma_cut_opens(rest: Seq<Seq<char>>, heading: Seq<char>, cur: Seq<char>)
    requires
        !is_blank(cur),
    ensures
        cut(rest, heading, cur).len() > 0,
        cut(rest, heading, cur)[0].heading == heading,
        starts_with(cut(rest, heading, cur)[0].text, cur),
    decreases rest.len(),
{
    if rest.len() == 0 {
        assert(cur.subrange(0, cur.len() as int) =~= cur);
    } else {
        let line = rest[0].push('\n');
        match strip_prefix(rest[0], "## "@) {
            Some(h) => {
                assert(cur.subrange(0, cur.len() as int) =~= cur);
            },
            None => {
                lemma_blank_concat(cur, line);
                lemma_cut_opens(rest.skip(1), heading, cur + line);
                let t = cut(rest, heading, cur)[0].text;
                assert(t.subrange(0, cur.len() as int) =~= (cur + line).subrange(
                    0,
                    cur.len() as int,
                )) by {
                    assert(t.subrange(0, (cur + line).len() as int) == cur + line);
                    assert(t.subrange(0, (cur + line).len() as int).subrange(0, cur.len() as int)
                        =~= t.subrange(0, cur.len() as int));
                }
                assert((cur + line).subrange(0, cur.len() as int) =~= cur);
            },
        }
    }
}

/// The line that a heading was read from.
pub open spec fn heading_line(heading: Seq<char>) -> Seq<char> {
    "## "@ + heading + seq!['\n']
}

proof fn lemma_cut_headings(rest: Seq<Seq<char>>, heading: Seq<char>, cur: Seq<char>)
    ensures
        forall|i: int|
            0 <= i < cut(rest, heading, cur).len() ==> !is_blank(
                (#[trigger] cut(rest, heading, cur)[i]).text,
            ),
        forall|i: int|
            1 <= i < cut(rest, heading, cur).len() ==> starts_with(
                (#[trigger] cut(rest, heading, cur)[i]).text,
                heading_line(cut(rest, heading, cur)[i].heading),
            ),
    decreases rest.len(),
{
    if rest.len() > 0 {
        let line = rest[0].push('\n');
        let after = rest.skip(1);
        match strip_prefix(rest[0], "## "@) {
            Some(h) => {
                let next = if is_blank(cur) {
                    cur + line
                } else {
                    line
                };
                lemma_cut_headings(after, h, next);
                let tail = cut(after, h, next);
                let all = unless_blank(heading, cur) + tail;
                assert(cut(rest, heading, cur) == all);
                if is_blank(cur) {
                    assert(all =~= tail);
                } else {
                    lemma_heading_line_is_solid(rest[0]);
                    lemma_cut_opens(after, h, line);
                    assert(line =~= heading_line(h)) by {
                        reveal_strlit("## ");
                        assert("## "@ == rest[0].subrange(0, 3));
                        assert(rest[0] =~= rest[0].subrange(0, 3) + h);
                        assert(line =~= rest[0] + seq!['\n']);
                    }
                    assert forall|i: int| 0 <= i < all.len() implies !is_blank(
                        (#[trigger] all[i]).text,
                    ) by {
                        if i > 0 {
                            assert(all[i] == tail[i - 1]);
                        }
                    }
                    assert forall|i: int| 1 <= i < all.len() implies starts_with(
                        (#[trigger] all[i]).text,
                        heading_line(all[i].heading),
                    ) by {
                        assert(all[i] == tail[i - 1]);
                    }
                }
            },
            None => {
                lemma_cut_headings(after, heading, cur + line);
                assert(cut(rest, heading, cur) == cut(after, heading, cur + line));
            },
        }
    } else {
        assert(cut(rest, heading, cur) == unless_blank(heading, cur));
    }
}

/// No section is blank, and every section but the first begins with the line
/// of its own heading.
pub proof fn law_sections_begin_with_their_heading(body: Seq<char>)
    ensures
        forall|i: int|
            0 <= i < sections(body).len() ==> !is_blank((#[trigger] sections(body)[i]).text),
        forall|i: int|
            1 <= i < sections(body).len() ==> starts_with(
                (#[trigger] sections(body)[i]).text,
                heading_line(sections(body)[i].heading),
            ),
{
    lemma_cut_headings(lines(body), Seq::empty(), Seq::empty());
}

proof fn lemma_pack_sizes(paras: Seq<Seq<char>>, buf: Seq<char>, all: Seq<Seq<char>>)
    requires
        forall|i: int| 0 <= i < paras.len() ==> all.contains(#[trigger] paras[i]),
        buf.len() == 0 || byte_len(buf) <= MAX_CHUNK || all.contains(buf),
    ensures
        forall|i: int|
            0 <= i < pack(paras, buf).len() ==> byte_len(#[trigger] pack(paras, buf)[i])
                <= MAX_CHUNK || all.contains(pack(paras, buf)[i]),
    decreases paras.len(),
{
    let out = pack(paras, buf);
    if paras.len() == 0 {
        if !is_blank(buf) {
            assert(out == seq![buf]);
        } else {
            assert(out.len() == 0);
        }
    } else {
        let rest = paras.skip(1);
        let para = paras[0];
        assert(all.contains(para));
        assert forall|i: int| 0 <= i < rest.len() implies all.contains(#[trigger] rest[i]) by {
            assert(rest[i] == paras[i + 1]);
        }
        if buf.len() > 0 && byte_len(buf) + byte_len(para) + 2 > MAX_CHUNK {
            lemma_pack_sizes(rest, para, all);
            let tail = pack(rest, para);
            assert(out == seq![buf] + tail);
            assert forall|i: int| 0 <= i < out.len() implies byte_len(#[trigger] out[i])
                <= MAX_CHUNK || all.contains(out[i]) by {
                if i > 0 {
                    assert(out[i] == tail[i - 1]);
                }
            }
        } else {
            if buf.len() > 0 {
                lemma_encode_concat(buf, "\n\n"@);
                lemma_encode_concat(buf + "\n\n"@, para);
                lemma_gap_size();
            }
            lemma_pack_sizes(rest, joined(buf, para), all);
            assert(out == pack(rest, joined(buf, para)));
        }
    }
}

proof fn lemma_gap_size()
    ensures
        byte_len("\n\n"@) == 2,
{
    reveal_strlit("\n\n");
    vstd::utf8::is_ascii_chars_encode_utf8("\n\n"@);
}

/// A piece is within the size limit unless it is a single paragraph, which is
/// never cut.
pub proof fn law_pieces_are_small(text: Seq<char>)
    ensures
        forall|i: int|
            0 <= i < pieces(text).len() ==> byte_len(#[trigger] pieces(text)[i]) <= MAX_CHUNK
                || paragraphs(text).contains(pieces(text)[i]),
{
    let all = paragraphs(text);
    lemma_pack_sizes(all, Seq::empty(), all);
}

/// The paragraphs that are not blank.
pub open spec fn solid(paras: Seq<Seq<char>>) -> Seq<Seq<char>>
    decreases paras.len(),
{
    if paras.len() == 0 {
        Seq::empty()
    } else if is_blank(paras[0]) {
        solid(paras.skip(1))
    } else {
        seq![paras[0]] + solid(paras.skip(1))
    }
}

/// The paragraphs of some pieces, one piece after the other.
pub open spec fn all_paragraphs(ps: Seq<Seq<char>>) -> Seq<Seq<char>>
    decreases ps.len(),
{
    if ps.len() == 0 {
        Seq::empty()
    } else {
        paragraphs(ps[0]) + all_paragraphs(ps.skip(1))
    }
}

proof fn lemma_solid_concat(a: Seq<Seq<char>>, b: Seq<Seq<char>>)
    ensures
        solid(a + b) == solid(a) + solid(b),
    decreases a.len(),
{
    if a.len() == 0 {
        assert(a + b =~= b);
        assert(solid(a) + solid(b) =~= solid(b));
    } else {
        lemma_solid_concat(a.skip(1), b);
        assert((a + b).skip(1) =~= a.skip(1) + b);
        assert((a + b)[0] == a[0]);
        if !is_blank(a[0]) {
            assert(solid(a + b) =~= solid(a) + solid(b));
        }
    }
}

/// The separator behind `p` is the first one there is, also where `p` ends.
spec fn closed(p: Seq<char>) -> bool {
    is_first(p + "\n\n"@, "\n\n"@, p.len() as int)
}

/// Paragraphs as they come out of a text: each ends where the first separator
/// stands, and the last one holds none.
spec fn in_order(g: Seq<Seq<char>>) -> bool {
    &&& forall|i: int| 0 <= i < g.len() - 1 ==> closed(#[trigger] g[i])
    &&& forall|i: int| 0 <= i < g.len() ==> !contains(#[trigger] g[i], "\n\n"@)
}

/// Paragraphs with the separator between them.
spec fn glue(g: Seq<Seq<char>>) -> Seq<char>
    decreases g.len(),
{
    if g.len() == 0 {
        Seq::empty()
    } else if g.len() == 1 {
        g[0]
    } else {
        g[0] + "\n\n"@ + glue(g.skip(1))
    }
}

proof fn lemma_glue_push(g: Seq<Seq<char>>, p: Seq<char>)
    requires
        g.len() > 0,
    ensures
        glue(g.push(p)) == glue(g) + "\n\n"@ + p,
    decreases g.len(),
{
    let all = g.push(p);
    assert(all.skip(1) =~= g.skip(1).push(p));
    assert(all[0] == g[0]);
    if g.len() == 1 {
        assert(g.skip(1).push(p) =~= seq![p]);
        reveal_with_fuel(glue, 2);
    } else {
        lemma_glue_push(g.skip(1), p);
        assert(glue(all) =~= glue(g) + "\n\n"@ + p);
    }
}

proof fn lemma_first_in_front(p: Seq<char>, rest: Seq<char>)
    requires
        closed(p),
    ensures
        is_first(p + "\n\n"@ + rest, "\n\n"@, p.len() as int),
{
    reveal_strlit("\n\n");
    let pat = "\n\n"@;
    let short = p + pat;
    let long = p + pat + rest;
    assert(long.subrange(p.len() as int, p.len() + 2int) =~= pat);
    assert forall|j: int| 0 <= j < p.len() implies !#[trigger] occurs_at(long, pat, j) by {
        assert(!occurs_at(short, pat, j));
        assert(long.subrange(j, j + 2) =~= short.subrange(j, j + 2));
    }
}

proof fn lemma_split_glue(g: Seq<Seq<char>>)
    requires
        g.len() > 0,
        in_order(g),
    ensures
        paragraphs(glue(g)) == g,
    decreases g.len(),
{
    reveal_strlit("\n\n");
    let pat = "\n\n"@;
    if g.len() == 1 {
        lemma_found(g[0], pat);
        assert(paragraphs(g[0]) =~= g);
    } else {
        let rest = g.skip(1);
        assert forall|i: int| 0 <= i < rest.len() - 1 implies closed(#[trigger] rest[i]) by {
            assert(rest[i] == g[i + 1]);
        }
        assert forall|i: int| 0 <= i < rest.len() implies !contains(#[trigger] rest[i], pat) by {
            assert(rest[i] == g[i + 1]);
        }
        lemma_split_glue(rest);
        assert(closed(g[0]));
        lemma_first_in_front(g[0], glue(rest));
        let whole = glue(g);
        let n = g[0].len() as int;
        lemma_find(whole, pat, n);
        assert(whole.take(n) =~= g[0]);
        assert(whole.skip(n + 2) =~= glue(rest));
        assert(paragraphs(whole) =~= seq![g[0]] + paragraphs(glue(rest)));
        assert(seq![g[0]] + rest =~= g);
    }
}

proof fn lemma_split_in_order(s: Seq<char>)
    ensures
        paragraphs(s).len() > 0,
        in_order(paragraphs(s)),
    decreases s.len(),
{
    reveal_strlit("\n\n");
    let pat = "\n\n"@;
    let all = paragraphs(s);
    lemma_found(s, pat);
    match find(s, pat) {
        Some(i) => {
            let p = s.take(i);
            let rest = s.skip(i + 2);
            lemma_split_in_order(rest);
            assert(all == seq![p] + paragraphs(rest));
            assert(occurs_at(s, pat, i));
            assert(s =~= p + pat + rest) by {
                assert(s.subrange(i, i + 2) == pat);
            }
            assert(closed(p)) by {
                let short = p + pat;
                assert(short.subrange(i, i + 2) =~= pat);
                assert forall|j: int| 0 <= j < i implies !#[trigger] occurs_at(short, pat, j) by {
                    assert(!occurs_at(s, pat, j));
                    assert(s.subrange(j, j + 2) =~= short.subrange(j, j + 2));
                }
            }
            assert(!contains(p, pat)) by {
                if contains(p, pat) {
                    let j = choose|j: int| occurs_at(p, pat, j);
                    assert(!occurs_at(s, pat, j));
                    assert(s.subrange(j, j + 2) =~= p.subrange(j, j + 2));
                }
            }
            assert forall|k: int| 0 <= k < all.len() - 1 implies closed(#[trigger] all[k]) by {
                if k > 0 {
                    assert(all[k] == paragraphs(rest)[k - 1]);
                }
            }
            assert forall|k: int| 0 <= k < all.len() implies !contains(#[trigger] all[k], pat) by {
                if k > 0 {
                    assert(all[k] == paragraphs(rest)[k - 1]);
                }
            }
        },
        None => {
            assert(all == seq![s]);
        },
    }
}

proof fn lemma_blank_glue(g: Seq<Seq<char>>)
    requires
        is_blank(glue(g)),
    ensures
        solid(g).len() == 0,
    decreases g.len(),
{
    if g.len() == 1 {
        assert(g.skip(1).len() == 0);
        reveal_with_fuel(solid, 2);
    } else if g.len() > 1 {
        lemma_blank_concat(g[0] + "\n\n"@, glue(g.skip(1)));
        lemma_blank_concat(g[0], "\n\n"@);
        lemma_blank_glue(g.skip(1));
    }
}

proof fn lemma_in_order_parts(g: Seq<Seq<char>>, paras: Seq<Seq<char>>)
    requires
        in_order(g + paras),
    ensures
        in_order(g),
        in_order(paras),
{
    let all = g + paras;
    assert forall|i: int| 0 <= i < g.len() - 1 implies closed(#[trigger] g[i]) by {
        assert(all[i] == g[i]);
    }
    assert forall|i: int| 0 <= i < g.len() implies !contains(#[trigger] g[i], "\n\n"@) by {
        assert(all[i] == g[i]);
    }
    assert forall|i: int| 0 <= i < paras.len() - 1 implies closed(#[trigger] paras[i]) by {
        assert(all[g.len() + i] == paras[i]);
    }
    assert forall|i: int| 0 <= i < paras.len() implies !contains(#[trigger] paras[i], "\n\n"@) by {
        assert(all[g.len() + i] == paras[i]);
    }
}

/// `g` are the paragraphs that `buf` holds.
proof fn lemma_pack_keeps(paras: Seq<Seq<char>>, buf: Seq<char>, g: Seq<Seq<char>>)
    requires
        buf == glue(g),
        buf.len() == 0 ==> g.len() == 0,
        in_order(g + paras),
    ensures
        solid(all_paragraphs(pack(paras, buf))) == solid(g) + solid(paras),
    decreases paras.len(),
{
    lemma_in_order_parts(g, paras);
    let out = pack(paras, buf);
    if paras.len() == 0 {
        if is_blank(buf) {
            lemma_blank_glue(g);
            assert(solid(g) + solid(paras) =~= Seq::empty());
        } else {
            lemma_split_glue(g);
            assert(out == seq![buf]);
            assert(out.skip(1).len() == 0);
            reveal_with_fuel(all_paragraphs, 2);
            assert(all_paragraphs(out) =~= g);
            assert(solid(g) + solid(paras) =~= solid(g));
        }
    } else {
        let rest = paras.skip(1);
        let para = paras[0];
        assert(paras =~= seq![para] + rest);
        lemma_solid_concat(seq![para], rest);
        if buf.len() > 0 && byte_len(buf) + byte_len(para) + 2 > MAX_CHUNK {
            let next = if para.len() == 0 {
                Seq::<Seq<char>>::empty()
            } else {
                seq![para]
            };
            assert(para.len() == 0 ==> is_blank(para));
            lemma_alone(para, rest, next);
            lemma_pack_keeps(rest, para, next);
            lemma_split_glue(g);
            let tail = pack(rest, para);
            assert(out == seq![buf] + tail);
            assert(out.skip(1) =~= tail);
            assert(all_paragraphs(out) == g + all_paragraphs(tail));
            lemma_solid_concat(g, all_paragraphs(tail));
        } else if buf.len() == 0 {
            let next = if para.len() == 0 {
                Seq::<Seq<char>>::empty()
            } else {
                seq![para]
            };
            lemma_alone(para, rest, next);
            lemma_pack_keeps(rest, para, next);
            assert(solid(g) + solid(paras) =~= solid(paras));
        } else {
            let next = g.push(para);
            lemma_glue_push(g, para);
            assert(next + rest =~= g + paras);
            lemma_pack_keeps(rest, joined(buf, para), next);
            assert(next =~= g + seq![para]);
            lemma_solid_concat(g, seq![para]);
            assert(solid(next) + solid(rest) =~= solid(g) + solid(paras));
        }
    }
}

proof fn lemma_alone(para: Seq<char>, rest: Seq<Seq<char>>, next: Seq<Seq<char>>)
    requires
        in_order(seq![para] + rest),
        next == if para.len() == 0 {
            Seq::<Seq<char>>::empty()
        } else {
            seq![para]
        },
    ensures
        glue(next) == para,
        in_order(next + rest),
        solid(next) == solid(seq![para]),
{
    lemma_in_order_parts(seq![para], rest);
    if para.len() == 0 {
        assert(next + rest =~= rest);
        assert(is_blank(para));
        assert(seq![para].skip(1).len() == 0);
        reveal_with_fuel(solid, 2);
        assert(glue(next) =~= para);
    }
}

/// Packing loses nothing: the paragraphs of the pieces are those of the
/// section, in the same order, up to blank ones.
pub proof fn law_pieces_keep_the_paragraphs(text: Seq<char>)
    ensures
        solid(all_paragraphs(pieces(text))) == solid(paragraphs(text)),
{
    let all = paragraphs(text);
    if byte_len(text) <= MAX_CHUNK {
        let out = seq![text];
        assert(out.skip(1).len() == 0);
        reveal_with_fuel(all_paragraphs, 2);
        assert(all_paragraphs(out) =~= all);
    } else {
        lemma_split_in_order(text);
        let none = Seq::<Seq<char>>::empty();
        assert(none + all =~= all);
        lemma_pack_keeps(all, Seq::empty(), none);
        assert(solid(none) + solid(all) =~= solid(all));
    }
}

/// The pieces of some sections, one section after the other.
pub open spec fn all_pieces(ss: Seq<Section>) -> Seq<Seq<char>>
    decreases ss.len(),
{
    if ss.len() == 0 {
        Seq::empty()
    } else {
        all_pieces(ss.drop_last()) + pieces(ss.last().text)
    }
}

proof fn lemma_cut_headings_are_lines(rest: Seq<Seq<char>>, heading: Seq<char>, cur: Seq<char>)
    requires
        forall|i: int| 0 <= i < rest.len() ==> !(#[trigger] rest[i]).contains('\n'),
        !heading.contains('\n'),
    ensures
        forall|i: int|
            0 <= i < cut(rest, heading, cur).len() ==> !(#[trigger] cut(
                rest,
                heading,
                cur,
            )[i]).heading.contains('\n'),
    decreases rest.len(),
{
    let out = cut(rest, heading, cur);
    if rest.len() == 0 {
        assert(out == unless_blank(heading, cur));
    } else {
        let line = rest[0].push('\n');
        let after = rest.skip(1);
        assert forall|i: int| 0 <= i < after.len() implies !(#[trigger] after[i]).contains(
            '\n',
        ) by {
            assert(after[i] == rest[i + 1]);
        }
        match strip_prefix(rest[0], "## "@) {
            Some(h) => {
                let next = if is_blank(cur) {
                    cur + line
                } else {
                    line
                };
                lemma_part_holds_no_newline(rest[0], "## "@.len() as int, rest[0].len() as int);
                assert(rest[0].subrange("## "@.len() as int, rest[0].len() as int) =~= h);
                lemma_cut_headings_are_lines(after, h, next);
                let tail = cut(after, h, next);
                let own = unless_blank(heading, cur);
                assert(out == own + tail);
                assert forall|i: int| 0 <= i < out.len() implies !(
                #[trigger] out[i]).heading.contains('\n') by {
                    if i >= own.len() {
                        assert(out[i] == tail[i - own.len()]);
                    }
                }
            },
            None => {
                lemma_cut_headings_are_lines(after, heading, cur + line);
                assert(out == cut(after, heading, cur + line));
            },
        }
    }
}

proof fn lemma_part_holds_no_newline(s: Seq<char>, a: int, b: int)
    requires
        0 <= a <= b <= s.len(),
        !s.contains('\n'),
    ensures
        !s.subrange(a, b).contains('\n'),
{
    let p = s.subrange(a, b);
    if p.contains('\n') {
        let j = choose|j: int| 0 <= j < p.len() && p[j] == '\n';
        assert(s[a + j] == '\n');
    }
}

proof fn lemma_description_is_a_line(front: Seq<Seq<char>>)
    requires
        forall|i: int| 0 <= i < front.len() ==> !(#[trigger] front[i]).contains('\n'),
    ensures
        !described(front).contains('\n'),
    decreases front.len(),
{
    if front.len() > 0 {
        let line = front.last();
        match strip_prefix(line, "description: "@) {
            Some(d) => {
                let n = "description: "@.len() as int;
                lemma_part_holds_no_newline(line, n, line.len() as int);
                assert(line.subrange(n, line.len() as int) =~= d);
                lemma_trim_is_part(d, Fringe::Only('"'));
                let (a, b) = choose|a: int, b: int|
                    0 <= a <= b <= d.len() && unquote(d) == #[trigger] d.subrange(a, b);
                lemma_part_holds_no_newline(d, a, b);
            },
            None => {
                assert forall|i: int| 0 <= i < front.drop_last().len() implies !(
                #[trigger] front.drop_last()[i]).contains('\n') by {
                    assert(front.drop_last()[i] == front[i]);
                }
                lemma_description_is_a_line(front.drop_last());
            },
        }
    }
}

proof fn lemma_no_newline_concat(a: Seq<char>, b: Seq<char>)
    requires
        !a.contains('\n'),
        !b.contains('\n'),
    ensures
        !(a + b).contains('\n'),
{
    let c = a + b;
    if c.contains('\n') {
        let j = choose|j: int| 0 <= j < c.len() && c[j] == '\n';
        if j < a.len() {
            assert(a[j] == '\n');
        } else {
            assert(b[j - a.len()] == '\n');
        }
    }
}

proof fn lemma_context_comes_off(
    name: Seq<char>,
    description: Seq<char>,
    heading: Seq<char>,
    piece: Seq<char>,
)
    requires
        !name.contains('\n'),
        !description.contains('\n'),
        !heading.contains('\n'),
    ensures
        body_of(context(name, description, heading) + piece) == piece,
{
    reveal_strlit("[");
    reveal_strlit("] ");
    reveal_strlit(" — ");
    reveal_strlit("\n");
    let ctx = context(name, description, heading);
    let head = if description.len() == 0 {
        "["@ + name + "] "@ + heading
    } else {
        "["@ + name + "] "@ + description + " — "@ + heading
    };
    lemma_no_newline_concat("["@, name);
    lemma_no_newline_concat("["@ + name, "] "@);
    lemma_no_newline_concat("["@ + name + "] "@, heading);
    lemma_no_newline_concat("["@ + name + "] "@, description);
    lemma_no_newline_concat("["@ + name + "] "@ + description, " — "@);
    lemma_no_newline_concat("["@ + name + "] "@ + description + " — "@, heading);
    assert(!head.contains('\n'));
    let text = ctx + piece;
    let n = head.len() as int;
    assert(text =~= head + "\n"@ + piece);
    assert forall|j: int| 0 <= j <= n implies (#[trigger] occurs_at(text, seq!['\n'], j) <==> j
        == n) by {
        lemma_newline_at(text, j);
        if j < n {
            assert(text[j] == head[j]);
        }
    }
    lemma_find(text, seq!['\n'], n);
    assert(text.skip(n + 1) =~= piece);
}

proof fn lemma_all_context_comes_off(
    name: Seq<char>,
    description: Seq<char>,
    ss: Seq<Section>,
)
    requires
        !name.contains('\n'),
        !description.contains('\n'),
        forall|i: int| 0 <= i < ss.len() ==> !(#[trigger] ss[i]).heading.contains('\n'),
    ensures
        all_passages(name, description, ss).map_values(|p: Section| body_of(p.text)) == all_pieces(
            ss,
        ),
    decreases ss.len(),
{
    let strip = |p: Section| body_of(p.text);
    if ss.len() > 0 {
        let before = ss.drop_last();
        let s = ss.last();
        assert forall|i: int| 0 <= i < before.len() implies !(
        #[trigger] before[i]).heading.contains('\n') by {
            assert(before[i] == ss[i]);
        }
        lemma_all_context_comes_off(name, description, before);
        let own = section_passages(name, description, s);
        let ps = pieces(s.text);
        assert forall|i: int| 0 <= i < ps.len() implies #[trigger] own.map_values(strip)[i]
            == ps[i] by {
            lemma_context_comes_off(name, description, s.heading, ps[i]);
        }
        assert(own.map_values(strip) =~= ps);
        let all = all_passages(name, description, ss);
        assert(all.map_values(strip) =~= all_passages(name, description, before).map_values(strip)
            + own.map_values(strip));
    } else {
        assert(all_passages(name, description, ss).map_values(strip) =~= all_pieces(ss));
    }
}

/// The context line comes off again: without it, the texts of a file's chunks
/// are exactly the pieces of its sections. A file name that holds a newline is
/// left out, because the context line would end inside it.
pub proof fn law_context_comes_off(name: Seq<char>, raw: Seq<char>)
    requires
        !name.contains('\n'),
    ensures
        file_chunks(name, raw).map_values(|c: ChunkView| body_of(c.text)) == all_pieces(
            sections(split_frontmatter(raw).1),
        ),
{
    let (front, body) = split_frontmatter(raw);
    let description = described(lines(front));
    lemma_lines_hold_no_newline(front);
    lemma_lines_hold_no_newline(body);
    lemma_description_is_a_line(lines(front));
    assert(!Seq::<char>::empty().contains('\n'));
    lemma_cut_headings_are_lines(lines(body), Seq::empty(), Seq::empty());
    lemma_all_context_comes_off(name, description, sections(body));
    let ps = file_passages(name, raw);
    assert(file_chunks(name, raw).map_values(|c: ChunkView| body_of(c.text)) =~= ps.map_values(
        |p: Section| body_of(p.text),
    ));
}

proof fn lemma_passages_are_labelled(name: Seq<char>, description: Seq<char>, ss: Seq<Section>)
    ensures
        forall|i: int|
            0 <= i < all_passages(name, description, ss).len() ==> starts_with(
                (#[trigger] all_passages(name, description, ss)[i]).text,
                context(name, description, all_passages(name, description, ss)[i].heading),
            ),
    decreases ss.len(),
{
    let all = all_passages(name, description, ss);
    if ss.len() > 0 {
        let before = all_passages(name, description, ss.drop_last());
        let s = ss.last();
        let own = section_passages(name, description, s);
        lemma_passages_are_labelled(name, description, ss.drop_last());
        assert(all == before + own);
        assert forall|i: int| 0 <= i < all.len() implies starts_with(
            (#[trigger] all[i]).text,
            context(name, description, all[i].heading),
        ) by {
            if i < before.len() {
                assert(all[i] == before[i]);
            } else {
                let j = i - before.len();
                let ctx = context(name, description, s.heading);
                assert(all[i] == own[j]);
                assert(own[j].text == ctx + pieces(s.text)[j]);
                assert(own[j].text.subrange(0, ctx.len() as int) =~= ctx);
            }
        }
    }
}

/// Every chunk of a file names the file, begins with the context line that
/// gives the file's description and its own heading, and is keyed by the hash
/// of its text.
pub proof fn law_chunks_are_labelled(name: Seq<char>, raw: Seq<char>)
    ensures
        forall|i: int|
            #![trigger file_chunks(name, raw)[i]]
            0 <= i < file_chunks(name, raw).len() ==> {
                let c = file_chunks(name, raw)[i];
                &&& c.file == name
                &&& c.hash == content_hash(c.text)
                &&& starts_with(
                    c.text,
                    context(name, described(lines(split_frontmatter(raw).0)), c.heading),
                )
            },
{
    let (front, body) = split_frontmatter(raw);
    let description = described(lines(front));
    lemma_passages_are_labelled(name, description, sections(body));
    let ps = file_passages(name, raw);
    assert forall|i: int| 0 <= i < file_chunks(name, raw).len() implies ({
        let c = #[trigger] file_chunks(name, raw)[i];
        &&& c.file == name
        &&& c.hash == content_hash(c.text)
        &&& starts_with(c.text, context(name, description, c.heading))
    }) by {
        assert(file_chunks(name, raw)[i] == sealed(name, ps[i]));
    }
}

} // verus!
