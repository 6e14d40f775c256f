//! Cutting one memory file into chunks.
//!
//! The description in the frontmatter is put in front of every chunk (it names
//! the topic, and retrieval depends on it). The body is cut at its `## `
//! headings, and a section that is too large is cut again at blank lines.
use vstd::prelude::*;
use vstd::string::StringExecFns;
use vstd::utf8::encode_utf8;

use crate::text::{
    blank, byte_len, chars_of, find, find_in, head, is_blank, lines, lines_of, size_of_text, split,
    split_on, string_of, strip, strip_prefix, tail, texts,
    unquote, unquoted, views,
};

verus! {

/// The largest chunk in bytes, without its context line. A section above it is
/// cut at paragraph boundaries.
pub const MAX_CHUNK: usize = 2000;

/// One searchable piece of a memory file.
#[derive(Clone, Debug, PartialEq, Eq)]
pub struct Chunk {
    /// The name of the file, such as `108-bridge.md`.
    pub file: String,
    /// The heading above the text; empty for what stands before the first one.
    pub heading: String,
    /// The context line and the text itself.
    pub text: String,
    /// The content hash of `text`, by which its embedding is cached.
    pub hash: String,
}

/// What a chunk holds.
#[verifier::ext_equal]
pub struct ChunkView {
    pub file: Seq<char>,
    pub heading: Seq<char>,
    pub text: Seq<char>,
    pub hash: Seq<char>,
}

impl View for Chunk {
    type V = ChunkView;

    open spec fn view(&self) -> ChunkView {
        ChunkView {
            file: self.file@,
            heading: self.heading@,
            text: self.text@,
            hash: self.hash@,
        }
    }
}

/// What a list of chunks holds.
pub open spec fn chunk_views(chunks: Seq<Chunk>) -> Seq<ChunkView> {
    chunks.map_values(|c: Chunk| c@)
}

/// A stretch of text and the heading that it stands under.
#[verifier::ext_equal]
pub struct Section {
    pub heading: Seq<char>,
    pub text: Seq<char>,
}

/// A file in its two parts: the lines of the frontmatter, and the rest. The
/// frontmatter stands between a first line `---` and the next such line; a
/// file without both has none.
pub open spec fn split_frontmatter(raw: Seq<char>) -> (Seq<char>, Seq<char>) {
    match strip_prefix(raw, "---\n"@) {
        Some(rest) => match find(rest, "\n---\n"@) {
            Some(end) => (rest.take(end), rest.skip(end + 5)),
            None => (Seq::empty(), raw),
        },
        None => (Seq::empty(), raw),
    }
}

/// The description that the frontmatter gives: that of its last
/// `description: ` line, without quotation marks around it.
pub open spec fn described(front: Seq<Seq<char>>) -> Seq<char>
    decreases front.len(),
{
    if front.len() == 0 {
        Seq::empty()
    } else {
        match strip_prefix(front.last(), "description: "@) {
            Some(d) => unquote(d),
            None => described(front.drop_last()),
        }
    }
}

/// A section as a list, which leaves a blank one out.
pub open spec fn unless_blank(heading: Seq<char>, text: Seq<char>) -> Seq<Section> {
    if is_blank(text) {
        Seq::empty()
    } else {
        seq![Section { heading, text }]
    }
}

/// The sections of the lines that are left, when `cur` has been gathered under
/// `heading`. A heading line opens a section and stands in its text. What is
/// blank closes no section: it leads the next one.
pub open spec fn cut(rest: Seq<Seq<char>>, heading: Seq<char>, cur: Seq<char>) -> Seq<Section>
    decreases rest.len(),
{
    if rest.len() == 0 {
        unless_blank(heading, cur)
    } else {
        let line = rest[0].push('\n');
        match strip_prefix(rest[0], "## "@) {
            Some(h) => unless_blank(heading, cur) + cut(
                rest.skip(1),
                h,
                if is_blank(cur) {
                    cur + line
                } else {
                    line
                },
            ),
            None => cut(rest.skip(1), heading, cur + line),
        }
    }
}

/// The sections of a body.
pub open spec fn sections(body: Seq<char>) -> Seq<Section> {
    cut(lines(body), Seq::empty(), Seq::empty())
}

/// `buf` and the paragraph behind it, with the blank line between them.
pub open spec fn joined(buf: Seq<char>, para: Seq<char>) -> Seq<char> {
    if buf.len() == 0 {
        para
    } else {
        buf + "\n\n"@ + para
    }
}

/// The paragraphs that are left packed behind `buf`: a paragraph joins the
/// ones before it unless that makes them too large.
pub open spec fn pack(paras: Seq<Seq<char>>, buf: Seq<char>) -> Seq<Seq<char>>
    decreases paras.len(),
{
    if paras.len() == 0 {
        if is_blank(buf) {
            Seq::empty()
        } else {
            seq![buf]
        }
    } else if buf.len() > 0 && byte_len(buf) + byte_len(paras[0]) + 2 > MAX_CHUNK {
        seq![buf] + pack(paras.skip(1), paras[0])
    } else {
        pack(paras.skip(1), joined(buf, paras[0]))
    }
}

/// The paragraphs of a text: what stands between its blank lines.
pub open spec fn paragraphs(text: Seq<char>) -> Seq<Seq<char>> {
    split(text, "\n\n"@)
}

/// The pieces of a section: the section itself while it is small enough, else
/// its paragraphs, packed.
pub open spec fn pieces(text: Seq<char>) -> Seq<Seq<char>> {
    if byte_len(text) <= MAX_CHUNK {
        seq![text]
    } else {
        pack(paragraphs(text), Seq::empty())
    }
}

/// The line in front of a chunk that says which file and topic it is from.
pub open spec fn context(name: Seq<char>, description: Seq<char>, heading: Seq<char>) -> Seq<char> {
    if description.len() == 0 {
        "["@ + name + "] "@ + heading + "\n"@
    } else {
        "["@ + name + "] "@ + description + " — "@ + heading + "\n"@
    }
}

/// The text of a chunk without its context line.
pub open spec fn body_of(text: Seq<char>) -> Seq<char> {
    match find(text, seq!['\n']) {
        Some(i) => text.skip(i + 1),
        None => text,
    }
}

/// The passages of one section.
pub open spec fn section_passages(name: Seq<char>, description: Seq<char>, s: Section) -> Seq<
    Section,
> {
    pieces(s.text).map_values(
        |piece: Seq<char>|
            Section { heading: s.heading, text: context(name, description, s.heading) + piece },
    )
}

/// The passages of some sections, one after the other.
pub open spec fn all_passages(name: Seq<char>, description: Seq<char>, ss: Seq<Section>) -> Seq<
    Section,
>
    decreases ss.len(),
{
    if ss.len() == 0 {
        Seq::empty()
    } else {
        all_passages(name, description, ss.drop_last()) + section_passages(
            name,
            description,
            ss.last(),
        )
    }
}

/// The passages of a file: the text of each of its chunks with its heading.
pub open spec fn file_passages(name: Seq<char>, raw: Seq<char>) -> Seq<Section> {
    let (front, body) = split_frontmatter(raw);
    all_passages(name, described(lines(front)), sections(body))
}

/// The BLAKE3 hash of some bytes in lower-case hexadecimal digits.
pub uninterp spec fn blake3_hex(bytes: Seq<u8>) -> Seq<char>;

/// The content hash of a text.
pub open spec fn content_hash(text: Seq<char>) -> Seq<char> {
    blake3_hex(encode_utf8(text))
}

/// The chunk of a passage.
pub open spec fn sealed(name: Seq<char>, p: Section) -> ChunkView {
    ChunkView { file: name, heading: p.heading, text: p.text, hash: content_hash(p.text) }
}

/// The chunks of a file.
pub open spec fn file_chunks(name: Seq<char>, raw: Seq<char>) -> Seq<ChunkView> {
    file_passages(name, raw).map_values(|p: Section| sealed(name, p))
}

/// `blake3::hash`, then `Hash::to_hex`: the digest of the bytes, written as
/// lower-case hexadecimal digits. It depends on the bytes alone.
#[verifier::external_body]
fn hash_hex(bytes: &[u8]) -> (h: String)
    ensures
        h@ == blake3_hex(bytes@),
{
    blake3::hash(bytes).to_hex().to_string()
}

/// A passage of a file.
#[derive(Clone, Debug, PartialEq, Eq)]
pub struct Passage {
    /// The heading above it.
    pub heading: String,
    /// The context line and the text itself.
    pub text: String,
}

impl View for Passage {
    type V = Section;

    open spec fn view(&self) -> Section {
        Section { heading: self.heading@, text: self.text@ }
    }
}

/// What a list of passages holds.
pub open spec fn passage_views(v: Seq<Passage>) -> Seq<Section> {
    v.map_values(|p: Passage| p@)
}

/// Puts `s` behind `buf`.
fn extend(buf: &mut Vec<char>, s: &[char])
    ensures
        final(buf)@ == old(buf)@ + s@,
{
    let n: usize = s.len();
    let mut i: usize = 0;
    while i < n
        invariant
            n == s@.len(),
            i <= n,
            buf@ == old(buf)@ + s@.take(i as int),
        decreases n - i,
    {
        buf.push(s[i]);
        proof {
            assert(s@.take(i + 1) =~= s@.take(i as int).push(s@[i as int]));
            assert(buf@ =~= old(buf)@ + s@.take(i + 1));
        }
        i = i + 1;
    }
    proof {
        assert(s@.take(n as int) =~= s@);
    }
}

/// The size of some characters in bytes.
fn size_of(s: &[char]) -> (n: usize)
    ensures
        n == byte_len(s@),
{
    size_of_text(string_of(s).as_str())
}

/// The description that the frontmatter gives.
fn description_in(front: &[char]) -> (d: String)
    ensures
        d@ == described(lines(front@)),
{
    let key = chars_of("description: ");
    let ls = lines_of(front);
    let mut n: usize = ls.len();
    proof {
        assert(views(ls@).take(n as int) =~= views(ls@));
    }
    while n > 0
        invariant
            n <= ls@.len(),
            key@ == "description: "@,
            views(ls@) == lines(front@),
            described(views(ls@).take(n as int)) == described(views(ls@)),
        decreases n,
    {
        proof {
            assert(views(ls@).take(n as int).last() == ls@[n - 1]@);
            assert(views(ls@).take(n as int).drop_last() =~= views(ls@).take(n - 1));
        }
        match strip(ls[n - 1], &key) {
            Some(d) => {
                return string_of(unquoted(d));
            },
            None => {},
        }
        n = n - 1;
    }
    String::new()
}

/// A section while it is being cut.
struct Block {
    heading: Vec<char>,
    text: Vec<char>,
}

impl Block {
    spec fn section(self) -> Section {
        Section { heading: self.heading@, text: self.text@ }
    }
}

spec fn block_views(v: Seq<Block>) -> Seq<Section> {
    v.map_values(|b: Block| b.section())
}

/// The sections of a body.
fn sections_of(body: &[char]) -> (out: Vec<Block>)
    ensures
        block_views(out@) == sections(body@),
{
    let mark = chars_of("## ");
    let ls = lines_of(body);
    let n: usize = ls.len();
    let mut out: Vec<Block> = Vec::new();
    let mut heading: Vec<char> = Vec::new();
    let mut cur: Vec<char> = Vec::new();
    let mut i: usize = 0;
    proof {
        assert(views(ls@).skip(0) =~= views(ls@));
        assert(block_views(out@) + sections(body@) =~= sections(body@));
    }
    while i < n
        invariant
            n == ls@.len(),
            i <= n,
            mark@ == "## "@,
            views(ls@) == lines(body@),
            block_views(out@) + cut(views(ls@).skip(i as int), heading@, cur@) == sections(body@),
        decreases n - i,
    {
        let line = ls[i];
        let ghost rest = views(ls@).skip(i as int);
        let ghost done = out@;
        let ghost under = heading@;
        let ghost text = cur@;
        proof {
            assert(rest[0] == line@);
            assert(rest.skip(1) =~= views(ls@).skip(i + 1));
        }
        match strip(line, &mark) {
            Some(h) => {
                let mut next: Vec<char> = Vec::new();
                extend(&mut next, h);
                if !blank(&cur) {
                    let b = Block { heading, text: cur };
                    let ghost section = b.section();
                    cur = Vec::new();
                    out.push(b);
                    proof {
                        assert(block_views(out@) =~= block_views(done).push(section));
                    }
                }
                heading = next;
                proof {
                    assert(next@ =~= h@);
                }
            },
            None => {},
        }
        let ghost opened = cur@;
        extend(&mut cur, line);
        cur.push('\n');
        proof {
            let terminated = line@.push('\n');
            assert(cur@ =~= opened + terminated);
            assert(opened.len() == 0 ==> cur@ =~= terminated);
            let after = cut(rest.skip(1), heading@, cur@);
            assert(block_views(out@) + after =~= block_views(done) + (block_views(out@).skip(
                done.len() as int,
            ) + after));
            if strip_prefix(line@, "## "@) is Some {
                assert(block_views(out@).skip(done.len() as int) =~= unless_blank(under, text));
            } else {
                assert(block_views(out@).skip(done.len() as int) + after =~= after);
            }
        }
        i = i + 1;
    }
    proof {
        assert(views(ls@).skip(n as int).len() == 0);
    }
    if !blank(&cur) {
        let b = Block { heading, text: cur };
        let ghost section = b.section();
        let ghost done = out@;
        out.push(b);
        proof {
            assert(block_views(out@) =~= block_views(done) + seq![section]);
        }
    } else {
        proof {
            assert(block_views(out@) + Seq::<Section>::empty() =~= block_views(out@));
        }
    }
    out
}

/// The pieces of a section.
fn pieces_of(text: &[char]) -> (out: Vec<String>)
    ensures
        texts(out@) == pieces(text@),
{
    let mut out: Vec<String> = Vec::new();
    if size_of(text) <= MAX_CHUNK {
        out.push(string_of(text));
        proof {
            assert(texts(out@) =~= seq![text@]);
        }
        return out;
    }
    let gap = chars_of("\n\n");
    proof {
        reveal_strlit("\n\n");
    }
    let paras = split_on(text, &gap);
    let n: usize = paras.len();
    let mut buf: Vec<char> = Vec::new();
    let mut i: usize = 0;
    proof {
        assert(views(paras@).skip(0) =~= views(paras@));
        assert(buf@ =~= Seq::empty());
        assert(texts(out@) + pieces(text@) =~= pieces(text@));
    }
    while i < n
        invariant
            n == paras@.len(),
            i <= n,
            gap@ == "\n\n"@,
            texts(out@) + pack(views(paras@).skip(i as int), buf@) == pieces(text@),
        decreases n - i,
    {
        let para = paras[i];
        let ghost rest = views(paras@).skip(i as int);
        let ghost done = out@;
        let ghost held = buf@;
        proof {
            assert(rest[0] == para@);
            assert(rest.skip(1) =~= views(paras@).skip(i + 1));
        }
        let have: usize = size_of(&buf);
        let more: usize = size_of(para);
        let full = buf.len() > 0 && (have > MAX_CHUNK - 2 || more > MAX_CHUNK - 2 - have);
        if full {
            out.push(string_of(&buf));
            buf = Vec::new();
            proof {
                assert(texts(out@) =~= texts(done).push(held));
            }
        }
        let ghost opened = buf@;
        if buf.len() > 0 {
            extend(&mut buf, &gap);
        }
        extend(&mut buf, para);
        proof {
            assert(buf@ =~= joined(opened, para@));
            let after = pack(rest.skip(1), buf@);
            if full {
                assert(texts(out@) + after =~= texts(done) + (seq![held] + after));
            }
        }
        i = i + 1;
    }
    proof {
        assert(views(paras@).skip(n as int).len() == 0);
    }
    if !blank(&buf) {
        let ghost done = out@;
        out.push(string_of(&buf));
        proof {
            assert(texts(out@) =~= texts(done) + seq![buf@]);
        }
    } else {
        proof {
            assert(texts(out@) + Seq::<Seq<char>>::empty() =~= texts(out@));
        }
    }
    out
}

/// The line in front of a chunk.
fn context_line(name: &str, description: &str, heading: &str) -> (s: String)
    ensures
        s@ == context(name@, description@, heading@),
{
    let mut s = "[".to_owned();
    s.append(name);
    s.append("] ");
    if !description.is_empty() {
        s.append(description);
        s.append(" — ");
    }
    s.append(heading);
    s.append("\n");
    s
}

/// The two parts of a file.
fn parts_of<'a>(raw: &'a [char]) -> (r: (&'a [char], &'a [char]))
    ensures
        (r.0@, r.1@) == split_frontmatter(raw@),
{
    let open = chars_of("---\n");
    let close = chars_of("\n---\n");
    proof {
        reveal_strlit("\n---\n");
    }
    let mut front: &'a [char] = head(raw, 0);
    let mut body: &'a [char] = tail(raw, 0);
    proof {
        assert(front@ =~= Seq::empty());
        assert(body@ =~= raw@);
    }
    match strip(raw, &open) {
        Some(rest) => match find_in(rest, &close) {
            Some(end) => {
                let left: usize = rest.len() - end - 5;
                front = head(rest, end);
                body = tail(rest, rest.len() - left);
            },
            None => {},
        },
        None => {},
    }
    (front, body)
}

/// The passages of a file, before they are hashed.
pub fn passages(name: &str, raw: &str) -> (out: Vec<Passage>)
    ensures
        passage_views(out@) == file_passages(name@, raw@),
{
    let all = chars_of(raw);
    let (front, body) = parts_of(&all);
    let description = description_in(front);
    let blocks = sections_of(body);
    let n: usize = blocks.len();
    let ghost ss = sections(body@);
    let mut out: Vec<Passage> = Vec::new();
    let mut i: usize = 0;
    while i < n
        invariant
            n == blocks@.len(),
            i <= n,
            block_views(blocks@) == ss,
            passage_views(out@) == all_passages(name@, description@, ss.take(i as int)),
        decreases n - i,
    {
        let ghost done = out@;
        let heading = string_of(&blocks[i].heading);
        let ctx = context_line(name, description.as_str(), heading.as_str());
        let ps = pieces_of(&blocks[i].text);
        let m: usize = ps.len();
        let ghost s = ss[i as int];
        let ghost added = section_passages(name@, description@, s);
        let mut j: usize = 0;
        proof {
            assert(s == blocks@[i as int].section());
            assert(passage_views(out@) =~= passage_views(done) + added.take(0));
        }
        while j < m
            invariant
                m == ps@.len(),
                j <= m,
                texts(ps@) == pieces(s.text),
                heading@ == s.heading,
                ctx@ == context(name@, description@, s.heading),
                added == section_passages(name@, description@, s),
                passage_views(out@) == passage_views(done) + added.take(j as int),
            decreases m - j,
        {
            let ghost before = out@;
            let mut text = ctx.as_str().to_owned();
            text.append(ps[j].as_str());
            let p = Passage { heading: heading.as_str().to_owned(), text };
            let ghost pv = p@;
            out.push(p);
            proof {
                assert(texts(ps@)[j as int] == ps@[j as int]@);
                assert(pv == added[j as int]);
                assert(added.take(j + 1) =~= added.take(j as int).push(added[j as int]));
                assert(passage_views(out@) =~= passage_views(before).push(pv));
                assert(passage_views(out@) =~= passage_views(done) + added.take(j + 1));
            }
            j = j + 1;
        }
        proof {
            assert(texts(ps@).len() == m);
            assert(added.take(m as int) =~= added);
            assert(ss.take(i + 1).drop_last() =~= ss.take(i as int));
            assert(ss.take(i + 1).last() == s);
        }
        i = i + 1;
    }
    proof {
        assert(block_views(blocks@).len() == n);
        assert(ss.take(n as int) =~= ss);
    }
    out
}

/// The chunk of a passage whose content hash is `hash`.
pub fn seal(name: &str, passage: Passage, hash: String) -> (c: Chunk)
    ensures
        c@ == (ChunkView {
            file: name@,
            heading: passage.heading@,
            text: passage.text@,
            hash: hash@,
        }),
{
    Chunk { file: name.to_owned(), heading: passage.heading, text: passage.text, hash }
}

/// The text of a chunk without the context line that was put in front of it.
pub fn without_context(text: &str) -> (body: String)
    ensures
        body@ == body_of(text@),
{
    let all = chars_of(text);
    let newline: Vec<char> = vec!['\n'];
    proof {
        assert(newline@ =~= seq!['\n']);
    }
    let n: usize = all.len();
    match find_in(&all, &newline) {
        Some(i) => string_of(tail(&all, i + 1)),
        None => text.to_owned(),
    }
}

/// Cuts one memory file into chunks.
pub fn chunk_file(name: &str, raw: &str) -> (out: Vec<Chunk>)
    ensures
        chunk_views(out@) == file_chunks(name@, raw@),
{
    let ps = passages(name, raw);
    let n: usize = ps.len();
    let mut out: Vec<Chunk> = Vec::new();
    let mut i: usize = 0;
    let ghost all = file_chunks(name@, raw@);
    while i < n
        invariant
            n == ps@.len(),
            i <= n,
            passage_views(ps@) == file_passages(name@, raw@),
            all == file_chunks(name@, raw@),
            chunk_views(out@) == all.take(i as int),
        decreases n - i,
    {
        let ghost before = out@;
        let hash = hash_hex(ps[i].text.as_str().as_bytes());
        let p = Passage {
            heading: ps[i].heading.as_str().to_owned(),
            text: ps[i].text.as_str().to_owned(),
        };
        let c = seal(name, p, hash);
        let ghost cv = c@;
        out.push(c);
        proof {
            assert(passage_views(ps@)[i as int] == ps@[i as int]@);
            assert(cv == all[i as int]);
            assert(all.take(i + 1) =~= all.take(i as int).push(all[i as int]));
            assert(chunk_views(out@) =~= chunk_views(before).push(cv));
        }
        i = i + 1;
    }
    proof {
        assert(passage_views(ps@).len() == n);
        assert(all.take(n as int) =~= all);
    }
    out
}

} // verus!
