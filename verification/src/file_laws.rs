//! What the parts and the chunks of a file are, on its text.
use vstd::prelude::*;
use vstd::utf8::encode_utf8;

use crate::chunk::{
    all_passages, blake3_hex, body_of, content_hash, context, cut, described, file_chunks, joined,
    pack, paragraphs, pieces, section_passages, sections, split_frontmatter, ChunkView, Section,
};
use crate::chunk_laws::unlines;
use crate::text::{
    byte_len, is_blank, is_whitespace, lemma_found, lines, occurs_at, split, starts_with,
    strip_prefix, unquote,
};
use crate::text_laws::{
    clear_of, lacks, law_a_prefix_comes_off, law_the_first_place_is_found,
    law_what_is_missing_is_not_found,
};

verus! {

/// The body of a file is everything behind its frontmatter, and the frontmatter
/// ends at the first place where it can.
pub proof fn law_the_body_is_all_behind_the_frontmatter(front: Seq<char>, body: Seq<char>)
    requires
        clear_of(front, seq!['\n', '-', '-', '-', '\n']),
    ensures
        split_frontmatter(
            seq!['-', '-', '-', '\n'] + front + seq!['\n', '-', '-', '-', '\n'] + body,
        ) == (front, body),
{
    let open = seq!['-', '-', '-', '\n'];
    let close = seq!['\n', '-', '-', '-', '\n'];
    reveal_strlit("---\n");
    reveal_strlit("\n---\n");
    assert("---\n"@ =~= open);
    assert("\n---\n"@ =~= close);
    let rest = front + close + body;
    let raw = open + front + close + body;
    assert(raw =~= open + rest);
    law_a_prefix_comes_off(rest, open);
    law_the_first_place_is_found(front, close, body);
    let n = front.len() as int;
    assert(rest.take(n) =~= front);
    assert(rest.skip(n + 5) =~= body);
}

/// A file whose first line is not `---`, or whose frontmatter never ends, is
/// body throughout.
pub proof fn law_a_file_without_frontmatter_is_body(raw: Seq<char>)
    requires
        raw.len() < 4 || raw.take(4) != seq!['-', '-', '-', '\n'] || lacks(
            raw.skip(4),
            seq!['\n', '-', '-', '-', '\n'],
        ),
    ensures
        split_frontmatter(raw).0.len() == 0,
        split_frontmatter(raw).1 == raw,
{
    let open = seq!['-', '-', '-', '\n'];
    let close = seq!['\n', '-', '-', '-', '\n'];
    reveal_strlit("---\n");
    reveal_strlit("\n---\n");
    assert("---\n"@ =~= open);
    assert("\n---\n"@ =~= close);
    if starts_with(raw, open) {
        assert(raw.subrange(0, 4) =~= raw.take(4));
        law_what_is_missing_is_not_found(raw.skip(4), close);
    }
}

/// The last line of the frontmatter that begins with `description: ` gives the
/// description: what follows on it, without quotation marks at the ends.
pub proof fn law_the_last_description_counts(
    a: Seq<Seq<char>>,
    d: Seq<char>,
    b: Seq<Seq<char>>,
)
    requires
        forall|i: int|
            0 <= i < b.len() ==> !starts_with(#[trigger] b[i], "description: "@),
    ensures
        described(a + seq!["description: "@ + d] + b) == unquote(d),
        described(b).len() == 0,
    decreases b.len(),
{
    let line = "description: "@ + d;
    let all = a + seq![line] + b;
    if b.len() == 0 {
        assert(all.last() == line);
        law_a_prefix_comes_off(d, "description: "@);
    } else {
        let less = b.drop_last();
        assert(all.last() == b[b.len() - 1]);
        assert(all.drop_last() =~= a + seq![line] + less);
        assert forall|i: int| 0 <= i < less.len() implies !starts_with(
            #[trigger] less[i],
            "description: "@,
        ) by {
            assert(less[i] == b[i]);
        }
        law_the_last_description_counts(a, d, less);
    }
}

/// No line opens a section.
pub open spec fn plain(ls: Seq<Seq<char>>) -> bool {
    forall|i: int| 0 <= i < ls.len() ==> !starts_with(#[trigger] ls[i], seq!['#', '#', ' '])
}

/// A section without a heading, of these lines.
pub open spec fn unheaded(s: Section, ls: Seq<Seq<char>>) -> bool {
    s.heading.len() == 0 && s.text == unlines(ls) && plain(ls)
}

/// A section that its heading opens, after blank lines that led it, with these
/// lines behind.
pub open spec fn headed(s: Section, lead: Seq<Seq<char>>, ls: Seq<Seq<char>>) -> bool {
    &&& s.text == unlines(lead) + (seq!['#', '#', ' '] + s.heading).push('\n') + unlines(ls)
    &&& is_blank(unlines(lead))
    &&& plain(lead)
    &&& plain(ls)
}

/// A section as it may stand first.
pub open spec fn opens_well(s: Section) -> bool {
    ||| exists|ls: Seq<Seq<char>>| #[trigger] unheaded(s, ls)
    ||| exists|lead: Seq<Seq<char>>, ls: Seq<Seq<char>>| #[trigger] headed(s, lead, ls)
}

/// A section as it may stand behind another.
pub open spec fn follows_well(s: Section) -> bool {
    exists|ls: Seq<Seq<char>>| #[trigger] headed(s, Seq::empty(), ls)
}

proof fn lemma_unlines_push(ls: Seq<Seq<char>>, x: Seq<char>)
    ensures
        unlines(ls.push(x)) == unlines(ls) + x.push('\n'),
    decreases ls.len(),
{
    let more = ls.push(x);
    if ls.len() == 0 {
        reveal_with_fuel(unlines, 2);
        assert(more.skip(1).len() == 0);
        assert(unlines(more) =~= unlines(ls) + x.push('\n'));
    } else {
        lemma_unlines_push(ls.skip(1), x);
        assert(more.skip(1) =~= ls.skip(1).push(x));
        assert(more[0] == ls[0]);
        assert(unlines(more) =~= unlines(ls) + x.push('\n'));
    }
}

proof fn lemma_headed_is_solid(s: Section, lead: Seq<Seq<char>>, ls: Seq<Seq<char>>)
    requires
        headed(s, lead, ls),
    ensures
        !is_blank(s.text),
{
    let n = unlines(lead).len() as int;
    assert(s.text[n] == '#');
    assert(!is_whitespace('#'));
}

proof fn lemma_plain_push(ls: Seq<Seq<char>>, x: Seq<char>)
    requires
        plain(ls),
        !starts_with(x, seq!['#', '#', ' ']),
    ensures
        plain(ls.push(x)),
{
}

proof fn lemma_mark()
    ensures
        "## "@ == seq!['#', '#', ' '],
{
    reveal_strlit("## ");
    assert("## "@ =~= seq!['#', '#', ' ']);
}

proof fn lemma_cut_follows(rest: Seq<Seq<char>>, heading: Seq<char>, cur: Seq<char>)
    requires
        follows_well(Section { heading, text: cur }),
    ensures
        forall|i: int|
            0 <= i < cut(rest, heading, cur).len() ==> follows_well(
                #[trigger] cut(rest, heading, cur)[i],
            ),
    decreases rest.len(),
{
    let s = Section { heading, text: cur };
    let none: Seq<Seq<char>> = Seq::empty();
    let ls = choose|ls: Seq<Seq<char>>| #[trigger] headed(s, none, ls);
    lemma_headed_is_solid(s, none, ls);
    lemma_mark();
    let out = cut(rest, heading, cur);
    if rest.len() == 0 {
        assert(out == seq![s]);
    } else {
        let line = rest[0].push('\n');
        match strip_prefix(rest[0], "## "@) {
            Some(h) => {
                law_a_prefix_comes_off(rest[0], "## "@);
                let t = Section { heading: h, text: line };
                assert(unlines(none).len() == 0);
                assert(t.text =~= unlines(none) + (seq!['#', '#', ' '] + h).push('\n') + unlines(
                    none,
                ));
                assert(headed(t, none, none));
                lemma_cut_follows(rest.skip(1), h, line);
                let tail = cut(rest.skip(1), h, line);
                assert(out == seq![s] + tail);
                assert forall|i: int| 0 <= i < out.len() implies follows_well(
                    #[trigger] out[i],
                ) by {
                    if i > 0 {
                        assert(out[i] == tail[i - 1]);
                    }
                }
            },
            None => {
                let t = Section { heading, text: cur + line };
                lemma_unlines_push(ls, rest[0]);
                lemma_plain_push(ls, rest[0]);
                assert(t.text =~= unlines(none) + (seq!['#', '#', ' '] + heading).push('\n')
                    + unlines(ls.push(rest[0])));
                assert(headed(t, none, ls.push(rest[0])));
                lemma_cut_follows(rest.skip(1), heading, cur + line);
                assert(out == cut(rest.skip(1), heading, cur + line));
            },
        }
    }
}

proof fn lemma_cut_opens(rest: Seq<Seq<char>>, heading: Seq<char>, cur: Seq<char>)
    requires
        opens_well(Section { heading, text: cur }),
    ensures
        cut(rest, heading, cur).len() > 0 ==> opens_well(cut(rest, heading, cur)[0]),
        forall|i: int|
            1 <= i < cut(rest, heading, cur).len() ==> follows_well(
                #[trigger] cut(rest, heading, cur)[i],
            ),
    decreases rest.len(),
{
    let s = Section { heading, text: cur };
    let none: Seq<Seq<char>> = Seq::empty();
    lemma_mark();
    let out = cut(rest, heading, cur);
    if rest.len() == 0 {
        if !is_blank(cur) {
            assert(out == seq![s]);
        }
    } else {
        let line = rest[0].push('\n');
        match strip_prefix(rest[0], "## "@) {
            Some(h) => {
                law_a_prefix_comes_off(rest[0], "## "@);
                assert(unlines(none).len() == 0);
                if is_blank(cur) {
                    if exists|lead: Seq<Seq<char>>, ls: Seq<Seq<char>>| #[trigger]
                        headed(s, lead, ls) {
                        let (lead, ls) = choose|lead: Seq<Seq<char>>, ls: Seq<Seq<char>>|
                         #[trigger] headed(s, lead, ls);
                        lemma_headed_is_solid(s, lead, ls);
                    }
                    let ls = choose|ls: Seq<Seq<char>>| #[trigger] unheaded(s, ls);
                    let t = Section { heading: h, text: cur + line };
                    assert(t.text =~= unlines(ls) + (seq!['#', '#', ' '] + h).push('\n')
                        + unlines(none));
                    assert(headed(t, ls, none));
                    lemma_cut_opens(rest.skip(1), h, cur + line);
                    let tail = cut(rest.skip(1), h, cur + line);
                    assert(out =~= tail);
                } else {
                    let t = Section { heading: h, text: line };
                    assert(t.text =~= unlines(none) + (seq!['#', '#', ' '] + h).push('\n')
                        + unlines(none));
                    assert(headed(t, none, none));
                    lemma_cut_follows(rest.skip(1), h, line);
                    let tail = cut(rest.skip(1), h, line);
                    assert(out == seq![s] + tail);
                    assert forall|i: int| 1 <= i < out.len() implies follows_well(
                        #[trigger] out[i],
                    ) by {
                        assert(out[i] == tail[i - 1]);
                    }
                }
            },
            None => {
                let t = Section { heading, text: cur + line };
                if exists|ls: Seq<Seq<char>>| #[trigger] unheaded(s, ls) {
                    let ls = choose|ls: Seq<Seq<char>>| #[trigger] unheaded(s, ls);
                    lemma_unlines_push(ls, rest[0]);
                    lemma_plain_push(ls, rest[0]);
                    assert(unheaded(t, ls.push(rest[0])));
                } else {
                    let (lead, ls) = choose|lead: Seq<Seq<char>>, ls: Seq<Seq<char>>|
                     #[trigger] headed(s, lead, ls);
                    lemma_unlines_push(ls, rest[0]);
                    lemma_plain_push(ls, rest[0]);
                    assert(t.text =~= unlines(lead) + (seq!['#', '#', ' '] + heading).push('\n')
                        + unlines(ls.push(rest[0])));
                    assert(headed(t, lead, ls.push(rest[0])));
                }
                lemma_cut_opens(rest.skip(1), heading, cur + line);
                assert(out == cut(rest.skip(1), heading, cur + line));
            },
        }
    }
}

/// A line that begins with `## ` opens a section under the rest of that line,
/// and no other line does: in every section such a line stands once, in front,
/// and only the first section may have none, or blank lines before it.
pub proof fn law_headings_and_nothing_else_cut(body: Seq<char>)
    ensures
        sections(body).len() > 0 ==> opens_well(sections(body)[0]),
        forall|i: int| 1 <= i < sections(body).len() ==> follows_well(#[trigger] sections(body)[i]),
{
    let s = Section { heading: Seq::empty(), text: Seq::empty() };
    let none: Seq<Seq<char>> = Seq::empty();
    assert(s.text =~= unlines(none));
    assert(unheaded(s, none));
    lemma_cut_opens(lines(body), Seq::empty(), Seq::empty());
}

/// A section that is small enough stays whole.
pub proof fn law_small_sections_stay_whole(text: Seq<char>)
    requires
        encode_utf8(text).len() <= 2000,
    ensures
        pieces(text) == seq![text],
{
}

/// Paragraphs with a blank line between them.
pub open spec fn glued(paras: Seq<Seq<char>>) -> Seq<char>
    decreases paras.len(),
{
    if paras.len() == 0 {
        Seq::empty()
    } else if paras.len() == 1 {
        paras[0]
    } else {
        paras[0] + seq!['\n', '\n'] + glued(paras.skip(1))
    }
}

/// Pieces with gaps around them.
pub open spec fn woven(gaps: Seq<Seq<char>>, ps: Seq<Seq<char>>) -> Seq<char>
    decreases ps.len(),
{
    if ps.len() == 0 {
        gaps[0]
    } else {
        gaps[0] + ps[0] + woven(gaps.skip(1), ps.skip(1))
    }
}

/// One gap more than there are pieces: newlines before each piece, and at the
/// end nothing but white space.
pub open spec fn small_gaps(gaps: Seq<Seq<char>>, n: int) -> bool {
    &&& gaps.len() == n + 1
    &&& forall|i: int, j: int|
        0 <= i < n && 0 <= j < gaps[i].len() ==> #[trigger] gaps[i][j] == '\n'
    &&& is_blank(gaps[n])
}

proof fn lemma_glued(text: Seq<char>)
    ensures
        glued(split(text, seq!['\n', '\n'])) == text,
        split(text, seq!['\n', '\n']).len() > 0,
    decreases text.len(),
{
    let gap = seq!['\n', '\n'];
    lemma_found(text, gap);
    match crate::text::find(text, gap) {
        Some(i) => {
            assert(occurs_at(text, gap, i));
            let rest = text.skip(i + 2);
            lemma_glued(rest);
            let all = split(text, gap);
            assert(all == seq![text.take(i)] + split(rest, gap));
            assert(all.skip(1) =~= split(rest, gap));
            assert(text.subrange(i, i + 2) == gap);
            assert(text =~= text.take(i) + gap + rest);
        },
        None => {},
    }
}

/// What is left to pack: the buffer, then the paragraphs behind a separator.
spec fn to_pack(buf: Seq<char>, sep: Seq<char>, paras: Seq<Seq<char>>) -> Seq<char> {
    if paras.len() == 0 {
        buf
    } else {
        buf + sep + glued(paras)
    }
}

proof fn lemma_blank_newlines(g: Seq<char>, b: Seq<char>)
    requires
        forall|j: int| 0 <= j < g.len() ==> #[trigger] g[j] == '\n',
        is_blank(b),
    ensures
        is_blank(g + b),
{
    let c = g + b;
    assert forall|i: int| 0 <= i < c.len() implies is_whitespace(#[trigger] c[i]) by {
        if i < g.len() {
            assert(g[i] == '\n');
        } else {
            assert(c[i] == b[i - g.len()]);
        }
    }
}

/// Newlines more in front widen the first gap.
proof fn lemma_wider(g: Seq<char>, gaps: Seq<Seq<char>>, ps: Seq<Seq<char>>) -> (out: Seq<
    Seq<char>,
>)
    requires
        forall|j: int| 0 <= j < g.len() ==> #[trigger] g[j] == '\n',
        small_gaps(gaps, ps.len() as int),
    ensures
        small_gaps(out, ps.len() as int),
        woven(out, ps) == g + woven(gaps, ps),
{
    let out = seq![g + gaps[0]] + gaps.skip(1);
    let n = ps.len() as int;
    assert forall|i: int, j: int| 0 <= i < n && 0 <= j < out[i].len() implies #[trigger] out[i][j]
        == '\n' by {
        if i == 0 {
            if j < g.len() {
                assert(out[0][j] == g[j]);
            } else {
                assert(out[0][j] == gaps[0][j - g.len()]);
            }
        } else {
            assert(out[i] == gaps[i]);
            assert(gaps[i][j] == '\n');
        }
    }
    if n == 0 {
        lemma_blank_newlines(g, gaps[0]);
    } else {
        assert(out[n] == gaps[n]);
    }
    assert(out.skip(1) =~= gaps.skip(1));
    assert(woven(out, ps) =~= g + woven(gaps, ps));
    out
}

proof fn lemma_pack_layout(paras: Seq<Seq<char>>, buf: Seq<char>, sep: Seq<char>) -> (gaps: Seq<
    Seq<char>,
>)
    requires
        forall|j: int| 0 <= j < sep.len() ==> #[trigger] sep[j] == '\n',
        buf.len() > 0 ==> sep == seq!['\n', '\n'],
    ensures
        small_gaps(gaps, pack(paras, buf).len() as int),
        woven(gaps, pack(paras, buf)) == to_pack(buf, sep, paras),
    decreases paras.len(),
{
    let gap = seq!['\n', '\n'];
    let nothing: Seq<char> = Seq::empty();
    reveal_strlit("\n\n");
    assert("\n\n"@ =~= gap);
    let out = pack(paras, buf);
    if paras.len() == 0 {
        if is_blank(buf) {
            let gaps = seq![buf];
            assert(small_gaps(gaps, 0));
            gaps
        } else {
            let gaps = seq![nothing, nothing];
            assert(out == seq![buf]);
            reveal_with_fuel(woven, 2);
            assert(out.skip(1).len() == 0);
            assert(gaps.skip(1)[0] == nothing);
            assert(woven(gaps, out) =~= buf);
            gaps
        }
    } else {
        let para = paras[0];
        let rest = paras.skip(1);
        assert(glued(paras) =~= if rest.len() == 0 {
            para
        } else {
            para + gap + glued(rest)
        });
        if buf.len() > 0 && byte_len(buf) + byte_len(para) + 2 > crate::chunk::MAX_CHUNK {
            let tail = pack(rest, para);
            let inner = lemma_pack_layout(rest, para, gap);
            let wide = lemma_wider(gap, inner, tail);
            let gaps = seq![nothing] + wide;
            assert(out == seq![buf] + tail);
            assert(out.skip(1) =~= tail);
            assert(gaps.skip(1) =~= wide);
            let n = out.len() as int;
            assert forall|i: int, j: int|
                0 <= i < n && 0 <= j < gaps[i].len() implies #[trigger] gaps[i][j] == '\n' by {
                if i > 0 {
                    assert(gaps[i] == wide[i - 1]);
                    assert(wide[i - 1][j] == '\n');
                }
            }
            assert(gaps[n] == wide[n - 1]);
            assert(woven(gaps, out) =~= buf + (gap + woven(inner, tail)));
            assert(woven(gaps, out) =~= to_pack(buf, sep, paras));
            gaps
        } else if buf.len() == 0 {
            assert(joined(buf, para) == para);
            let inner = lemma_pack_layout(rest, para, gap);
            let wide = lemma_wider(sep, inner, out);
            assert(woven(wide, out) =~= to_pack(buf, sep, paras));
            wide
        } else {
            let more = joined(buf, para);
            assert(more =~= buf + gap + para);
            let inner = lemma_pack_layout(rest, more, gap);
            assert(to_pack(more, gap, rest) =~= to_pack(buf, sep, paras));
            inner
        }
    }
}

/// Packing leaves out nothing but line ends: the pieces stand in the section in
/// their order, with nothing but newlines before each of them and nothing but
/// white space behind the last.
pub proof fn law_pieces_lie_side_by_side(text: Seq<char>)
    ensures
        exists|gaps: Seq<Seq<char>>|
            small_gaps(gaps, pieces(text).len() as int) && #[trigger] woven(gaps, pieces(text))
                == text,
{
    let nothing: Seq<char> = Seq::empty();
    if byte_len(text) <= crate::chunk::MAX_CHUNK {
        let gaps = seq![nothing, nothing];
        let ps = pieces(text);
        assert(ps == seq![text]);
        reveal_with_fuel(woven, 2);
        assert(ps.skip(1).len() == 0);
        assert(gaps.skip(1)[0] == nothing);
        assert(woven(gaps, ps) =~= text);
        assert(small_gaps(gaps, 1));
    } else {
        reveal_strlit("\n\n");
        assert("\n\n"@ =~= seq!['\n', '\n']);
        lemma_glued(text);
        let paras = paragraphs(text);
        let gaps = lemma_pack_layout(paras, nothing, nothing);
        assert(to_pack(nothing, nothing, paras) =~= text);
        assert(woven(gaps, pieces(text)) == text);
    }
}

proof fn lemma_pack_begins(paras: Seq<Seq<char>>, buf: Seq<char>)
    ensures
        pack(paras, buf).len() > 0 ==> starts_with(pack(paras, buf)[0], buf),
    decreases paras.len(),
{
    assert(buf.subrange(0, buf.len() as int) =~= buf);
    if paras.len() > 0 {
        let para = paras[0];
        if !(buf.len() > 0 && byte_len(buf) + byte_len(para) + 2 > crate::chunk::MAX_CHUNK) {
            let more = joined(buf, para);
            lemma_pack_begins(paras.skip(1), more);
            let out = pack(paras, buf);
            if out.len() > 0 {
                let p = out[0];
                assert(starts_with(p, more));
                assert(more.subrange(0, buf.len() as int) =~= buf);
                assert(p.subrange(0, buf.len() as int) =~= p.subrange(
                    0,
                    more.len() as int,
                ).subrange(0, buf.len() as int));
            }
        }
    }
}

/// This paragraph did not fit behind the one piece and begins the other.
pub open spec fn did_not_fit(p: Seq<char>, next: Seq<char>, para: Seq<char>) -> bool {
    &&& encode_utf8(p).len() + encode_utf8(para).len() + 2 > 2000
    &&& starts_with(next, para)
}

proof fn lemma_pack_greedy(paras: Seq<Seq<char>>, buf: Seq<char>, all: Seq<Seq<char>>)
    requires
        forall|i: int| 0 <= i < paras.len() ==> all.contains(#[trigger] paras[i]),
    ensures
        forall|i: int|
            #![trigger pack(paras, buf)[i]]
            0 <= i < pack(paras, buf).len() - 1 ==> exists|k: int|
                0 <= k < all.len() && did_not_fit(
                    pack(paras, buf)[i],
                    pack(paras, buf)[i + 1],
                    #[trigger] all[k],
                ),
    decreases paras.len(),
{
    let out = pack(paras, buf);
    if paras.len() > 0 {
        let para = paras[0];
        let rest = paras.skip(1);
        assert forall|i: int| 0 <= i < rest.len() implies all.contains(#[trigger] rest[i]) by {
            assert(rest[i] == paras[i + 1]);
        }
        if buf.len() > 0 && byte_len(buf) + byte_len(para) + 2 > crate::chunk::MAX_CHUNK {
            let tail = pack(rest, para);
            lemma_pack_greedy(rest, para, all);
            lemma_pack_begins(rest, para);
            assert(out == seq![buf] + tail);
            assert(all.contains(para));
            assert forall|i: int|
                #![trigger out[i]]
                0 <= i < out.len() - 1 implies exists|k: int|
                0 <= k < all.len() && did_not_fit(out[i], out[i + 1], #[trigger] all[k]) by {
                if i == 0 {
                    let k = choose|k: int| 0 <= k < all.len() && all[k] == para;
                    assert(out[1] == tail[0]);
                    assert(did_not_fit(out[0], out[1], all[k]));
                } else {
                    assert(out[i] == tail[i - 1]);
                    assert(out[i + 1] == tail[i]);
                    let k = choose|k: int|
                        0 <= k < all.len() && did_not_fit(
                            tail[i - 1],
                            tail[i - 1 + 1],
                            #[trigger] all[k],
                        );
                    assert(did_not_fit(out[i], out[i + 1], all[k]));
                }
            }
        } else {
            lemma_pack_greedy(rest, joined(buf, para), all);
            assert(out == pack(rest, joined(buf, para)));
        }
    }
}

/// Pieces are as large as they can be: the paragraph that begins the next one
/// would have made it too large.
pub proof fn law_pieces_are_full(text: Seq<char>, i: int)
    requires
        0 <= i < pieces(text).len() - 1,
    ensures
        exists|k: int|
            0 <= k < paragraphs(text).len() && did_not_fit(
                pieces(text)[i],
                pieces(text)[i + 1],
                #[trigger] paragraphs(text)[k],
            ),
{
    let all = paragraphs(text);
    lemma_pack_greedy(all, Seq::empty(), all);
    assert(pieces(text) == pack(all, Seq::empty()));
    let p = pieces(text)[i];
}

/// The paragraphs of a section are what stands between its blank lines.
pub proof fn law_paragraphs_end_at_blank_lines(a: Seq<char>, b: Seq<char>)
    requires
        clear_of(a, seq!['\n', '\n']),
    ensures
        paragraphs(a + seq!['\n', '\n'] + b) == seq![a] + paragraphs(b),
        lacks(b, seq!['\n', '\n']) ==> paragraphs(b) == seq![b],
{
    let gap = seq!['\n', '\n'];
    reveal_strlit("\n\n");
    assert("\n\n"@ =~= gap);
    crate::text_laws::law_splitting_cuts_everywhere(a, gap, b);
    if lacks(b, gap) {
        crate::text_laws::law_splitting_nothing(b, gap);
    }
}

/// The line in front of a chunk names the file in brackets, then the
/// description where there is one, then the heading.
pub proof fn law_the_context_names_file_and_topic(
    name: Seq<char>,
    description: Seq<char>,
    heading: Seq<char>,
)
    ensures
        context(name, description, heading) == seq!['['] + name + seq![']', ' '] + (
        if description.len() == 0 {
            heading
        } else {
            description + seq![' ', '—', ' '] + heading
        }).push('\n'),
{
    reveal_strlit("[");
    reveal_strlit("] ");
    reveal_strlit(" — ");
    reveal_strlit("\n");
    assert("["@ =~= seq!['[']);
    assert("] "@ =~= seq![']', ' ']);
    assert(" — "@ =~= seq![' ', '—', ' ']);
    assert("\n"@ =~= seq!['\n']);
    assert(context(name, description, heading) =~= seq!['['] + name + seq![']', ' '] + (
    if description.len() == 0 {
        heading
    } else {
        description + seq![' ', '—', ' '] + heading
    }).push('\n'));
}

/// Without its first line a text is everything behind that line; one of a
/// single line stays as it is.
pub proof fn law_the_body_is_all_behind_the_first_line(c: Seq<char>, p: Seq<char>)
    requires
        !c.contains('\n'),
    ensures
        body_of(c + seq!['\n'] + p) == p,
        body_of(c) == c,
{
    let nl = seq!['\n'];
    assert forall|i: int| 0 <= i < c.len() implies #[trigger] (c + nl).subrange(i, i + nl.len())
        != nl by {
        assert((c + nl).subrange(i, i + 1)[0] == c[i]);
        assert(c.contains(c[i]));
    }
    law_the_first_place_is_found(c, nl, p);
    assert((c + nl + p).skip(c.len() as int + 1) =~= p);
    assert forall|i: int| 0 <= i && i + nl.len() <= c.len() implies #[trigger] c.subrange(
        i,
        i + nl.len(),
    ) != nl by {
        assert(c.subrange(i, i + 1)[0] == c[i]);
        assert(c.contains(c[i]));
    }
    law_what_is_missing_is_not_found(c, nl);
}

/// The headings of some sections, each as often as its section has pieces.
pub open spec fn headings_by_piece(ss: Seq<Section>) -> Seq<Seq<char>>
    decreases ss.len(),
{
    if ss.len() == 0 {
        Seq::empty()
    } else {
        headings_by_piece(ss.drop_last()) + Seq::new(
            pieces(ss.last().text).len(),
            |i: int| ss.last().heading,
        )
    }
}

proof fn lemma_headings(name: Seq<char>, description: Seq<char>, ss: Seq<Section>)
    ensures
        all_passages(name, description, ss).map_values(|p: Section| p.heading)
            == headings_by_piece(ss),
    decreases ss.len(),
{
    let all = all_passages(name, description, ss);
    if ss.len() > 0 {
        lemma_headings(name, description, ss.drop_last());
        let before = all_passages(name, description, ss.drop_last());
        let own = section_passages(name, description, ss.last());
        assert(all == before + own);
        assert(all.map_values(|p: Section| p.heading) =~= before.map_values(
            |p: Section| p.heading,
        ) + own.map_values(|p: Section| p.heading));
        assert(own.map_values(|p: Section| p.heading) =~= Seq::new(
            pieces(ss.last().text).len(),
            |i: int| ss.last().heading,
        ));
    } else {
        assert(all.map_values(|p: Section| p.heading) =~= headings_by_piece(ss));
    }
}

/// Each chunk of a file stands under the heading of the section that it is a
/// piece of, and is keyed by the hash of its own bytes.
pub proof fn law_chunks_keep_their_headings(name: Seq<char>, raw: Seq<char>)
    ensures
        file_chunks(name, raw).map_values(|c: ChunkView| c.heading) == headings_by_piece(
            sections(split_frontmatter(raw).1),
        ),
        forall|t: Seq<char>| #[trigger] content_hash(t) == blake3_hex(encode_utf8(t)),
{
    let (front, body) = split_frontmatter(raw);
    lemma_headings(name, described(lines(front)), sections(body));
    assert(file_chunks(name, raw).map_values(|c: ChunkView| c.heading) =~= all_passages(
        name,
        described(lines(front)),
        sections(body),
    ).map_values(|p: Section| p.heading));
}

} // verus!
