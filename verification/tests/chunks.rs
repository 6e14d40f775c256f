use memory_search::chunk::{chunk_file, passages, seal, without_context, Passage, MAX_CHUNK};

const NOTE: &str = "---\nname: bridge\ndescription: \"The bridge\"\n---\nIntro line.\n\n## Setup\nUse the bridge.\n## Teardown\nPut it away.\n";

#[test]
fn a_file_is_cut_at_its_headings() {
    let chunks = chunk_file("108-bridge.md", NOTE);
    let seen: Vec<(&str, &str)> = chunks
        .iter()
        .map(|c| (c.heading.as_str(), c.text.as_str()))
        .collect();
    assert_eq!(
        seen,
        vec![
            ("", "[108-bridge.md] The bridge — \nIntro line.\n\n"),
            (
                "Setup",
                "[108-bridge.md] The bridge — Setup\n## Setup\nUse the bridge.\n"
            ),
            (
                "Teardown",
                "[108-bridge.md] The bridge — Teardown\n## Teardown\nPut it away.\n"
            ),
        ]
    );
    assert!(chunks.iter().all(|c| c.file == "108-bridge.md"));
}

#[test]
fn hashes_are_those_of_the_texts() {
    let chunks = chunk_file("a.md", "x\n");
    assert_eq!(chunks.len(), 1);
    assert_eq!(chunks[0].text, "[a.md] \nx\n");
    assert_eq!(
        chunks[0].hash,
        blake3::hash("[a.md] \nx\n".as_bytes()).to_hex().to_string()
    );
    assert_eq!(chunks[0].hash.len(), 64);
    assert_ne!(chunks[0].hash, chunks[0].text);
    for c in chunk_file("108-bridge.md", NOTE) {
        assert_eq!(c.hash, blake3::hash(c.text.as_bytes()).to_hex().to_string());
    }
}

#[test]
fn equal_texts_have_equal_hashes_and_others_do_not() {
    let a = chunk_file("a.md", "x\n");
    let again = chunk_file("a.md", "x\n");
    let renamed = chunk_file("b.md", "x\n");
    assert_eq!(a[0].hash, again[0].hash);
    assert_ne!(a[0].hash, renamed[0].hash);
}

#[test]
fn the_last_description_counts() {
    let raw = "---\ndescription: one\ndescription: two\n---\nbody\n";
    assert_eq!(chunk_file("a.md", raw)[0].text, "[a.md] two — \nbody\n");
}

#[test]
fn a_description_without_its_space_does_not_count() {
    let raw = "---\ndescription:one\n---\nbody\n";
    assert_eq!(chunk_file("a.md", raw)[0].text, "[a.md] \nbody\n");
}

#[test]
fn quotation_marks_come_off_at_both_ends_only() {
    let raw = "---\ndescription: \"\"say \"hi\" twice\"\n---\nbody\n";
    assert_eq!(
        chunk_file("a.md", raw)[0].text,
        "[a.md] say \"hi\" twice — \nbody\n"
    );
}

#[test]
fn an_open_frontmatter_is_body() {
    let raw = "---\ndescription: one\nbody\n";
    assert_eq!(
        chunk_file("a.md", raw)[0].text,
        "[a.md] \n---\ndescription: one\nbody\n"
    );
}

#[test]
fn a_frontmatter_needs_a_line_in_front_of_its_end() {
    let raw = "---\n---\nbody\n";
    assert_eq!(chunk_file("a.md", raw)[0].text, "[a.md] \n---\n---\nbody\n");
}

#[test]
fn blank_files_have_no_chunks() {
    assert!(chunk_file("a.md", "").is_empty());
    assert!(chunk_file("a.md", " \n\t\n").is_empty());
    assert!(chunk_file("a.md", "---\ndescription: one\n---\n\n").is_empty());
}

#[test]
fn blank_lines_lead_the_first_heading() {
    let chunks = chunk_file("a.md", "\n\n## One\nx\n");
    assert_eq!(chunks.len(), 1);
    assert_eq!(chunks[0].heading, "One");
    assert_eq!(chunks[0].text, "[a.md] One\n\n\n## One\nx\n");
}

#[test]
fn other_headings_do_not_cut() {
    let chunks = chunk_file("a.md", "# Top\n### Deep\n ## not at the start\n##none\n");
    assert_eq!(chunks.len(), 1);
    assert_eq!(chunks[0].heading, "");
}

#[test]
fn carriage_returns_end_lines() {
    let chunks = chunk_file("a.md", "## One\r\nx\r\n");
    assert_eq!(chunks[0].heading, "One");
    assert_eq!(chunks[0].text, "[a.md] One\n## One\nx\n");
}

#[test]
fn large_sections_are_packed_by_paragraph() {
    let para = "p".repeat(900);
    let raw = format!("{para}\n\n{para}\n\n{para}\n");
    let chunks = chunk_file("a.md", &raw);
    let bodies: Vec<String> = chunks.iter().map(|c| without_context(&c.text)).collect();
    assert_eq!(
        bodies,
        vec![format!("{para}\n\n{para}"), format!("{para}\n")]
    );
    assert!(bodies.iter().all(|b| b.len() <= MAX_CHUNK));
}

#[test]
fn one_large_paragraph_stays_whole() {
    let para = "p".repeat(MAX_CHUNK + 500);
    let chunks = chunk_file("a.md", &para);
    assert_eq!(chunks.len(), 1);
    assert_eq!(without_context(&chunks[0].text), format!("{para}\n"));
}

#[test]
fn sections_of_the_largest_size_are_not_split() {
    let text = format!("{}\n\n{}\n", "a".repeat(1000), "b".repeat(997));
    assert_eq!(text.len(), MAX_CHUNK);
    assert_eq!(chunk_file("a.md", &text).len(), 1);
    let longer = format!("{}\n\n{}\n", "a".repeat(1000), "b".repeat(998));
    assert_eq!(chunk_file("a.md", &longer).len(), 2);
}

#[test]
fn sizes_count_bytes() {
    let thai = "ก".repeat(400);
    assert_eq!(thai.len(), 1200);
    let text = format!("{thai}\n\n{thai}\n");
    assert_eq!(chunk_file("a.md", &text).len(), 2);
}

#[test]
fn packed_pieces_join_to_the_section() {
    let paras: Vec<String> = (0..9).map(|i| format!("{i}").repeat(700)).collect();
    let raw = format!("{}\n", paras.join("\n\n"));
    let bodies: Vec<String> = chunk_file("a.md", &raw)
        .iter()
        .map(|c| without_context(&c.text))
        .collect();
    assert!(bodies.len() > 1);
    assert_eq!(bodies.join("\n\n"), raw);
}

#[test]
fn the_context_line_comes_off() {
    assert_eq!(without_context("[a.md] x\nbody\nmore"), "body\nmore");
    assert_eq!(without_context("no line end"), "no line end");
    assert_eq!(without_context("\n"), "");
    assert_eq!(without_context(""), "");
}

#[test]
fn a_passage_is_sealed_with_its_hash() {
    let p = Passage {
        heading: "H".to_owned(),
        text: "T".to_owned(),
    };
    let c = seal("a.md", p, "hash".to_owned());
    assert_eq!(
        (c.file.as_str(), c.heading.as_str(), c.text.as_str(), c.hash.as_str()),
        ("a.md", "H", "T", "hash")
    );
    let ps = passages("a.md", "one\n## Two\ntwo\n");
    let headings: Vec<&str> = ps.iter().map(|p| p.heading.as_str()).collect();
    assert_eq!(headings, vec!["", "Two"]);
}
