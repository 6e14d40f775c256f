use memory_search::links::{links_in, LinkGraph};
use memory_search::store::{StoreEntry, Unreadable};

fn found(name: &[u8], raw: &str) -> StoreEntry {
    StoreEntry::Found {
        name: name.to_vec(),
        raw: Some(raw.to_owned()),
    }
}

fn built(entries: Vec<StoreEntry>) -> LinkGraph {
    match LinkGraph::build(&entries) {
        Ok(g) => g,
        Err(u) => panic!("entry {} spoils the graph", u.entry),
    }
}

fn pair(name: &str, desc: &str) -> (String, String) {
    (name.to_owned(), desc.to_owned())
}

fn sample() -> LinkGraph {
    built(vec![
        found(b"a.md", "---\ndescription: \"about a\"\n---\nsee [[b]] and [[ c ]], [[b]] again\n"),
        found(b"b.md", "---\nname: b\ndescription: about b\n---\n[[a]] [[c]] [[gone]]\n"),
        found(b"c.md", "---\n  description:about c\ndescription: other\n---\n[[c]] [[]] [[open\n"),
        found(b"d.md", "[[a]]\n"),
    ])
}

#[test]
fn links_are_trimmed_and_count_once() {
    assert_eq!(links_in("[[b]] [[ b ]] [[c]] [[a]] [[]] [[d", "a"), vec!["b", "c"]);
    assert_eq!(links_in("]] [[x]]", "a"), vec!["x"]);
    assert_eq!(links_in("[[[x]]]", "a"), vec!["[x"]);
    assert!(links_in("none", "a").is_empty());
}

#[test]
fn links_go_both_ways() {
    let g = sample();
    let names = |v: Option<&Vec<String>>| v.map(|l| l.clone()).unwrap_or_default();
    assert_eq!(names(g.out.get("a")), vec!["b", "c"]);
    assert_eq!(names(g.out.get("b")), vec!["a", "c", "gone"]);
    assert_eq!(names(g.out.get("c")), Vec::<String>::new());
    assert_eq!(names(g.back.get("a")), vec!["b", "d"]);
    assert_eq!(names(g.back.get("c")), vec!["a", "b"]);
    assert_eq!(names(g.back.get("gone")), vec!["b"]);
}

#[test]
fn descriptions_are_taken_from_their_first_line() {
    let g = sample();
    assert_eq!(g.descriptions.get("a").map(|s| s.as_str()), Some("about a"));
    assert_eq!(g.descriptions.get("b").map(|s| s.as_str()), Some("about b"));
    assert_eq!(g.descriptions.get("c").map(|s| s.as_str()), Some("about c"));
    assert_eq!(g.descriptions.get("d").map(|s| s.as_str()), Some(""));
    assert_eq!(g.descriptions.get("gone"), None);
}

#[test]
fn only_the_frontmatter_describes_a_file() {
    let g = built(vec![
        found(b"a.md", "# Title\ndescription: from the body\n"),
        found(b"b.md", "---\nname: b\n---\ndescription: from the body\n"),
        found(b"c.md", "---\ndescription: never closed\n"),
    ]);
    for stem in ["a", "b", "c"] {
        assert_eq!(g.descriptions.get(stem).map(|s| s.as_str()), Some(""));
    }
}

#[test]
fn how_lines_end_does_not_matter_to_a_description() {
    let g = built(vec![
        found(b"a.md", "---\r\nname: a\r\ndescription: \"about a\"\r\n---\r\nbody\r\n"),
        found(b"b.md", "---\ndescription: about b\n---"),
        found(b"c.md", "---\ndescription: about c\r\n---\n"),
        found(b"d.md", "---\n---\nname: d\ndescription: about d\n---\nbody\n"),
        found(b"e.md", "\n---\ndescription: about e\n---\n"),
    ]);
    let of = |stem: &str| g.descriptions.get(stem).map(|s| s.clone());
    assert_eq!(of("a"), Some("about a".to_owned()));
    assert_eq!(of("b"), Some("about b".to_owned()));
    assert_eq!(of("c"), Some("about c".to_owned()));
    assert_eq!(of("d"), Some("about d".to_owned()));
    assert_eq!(of("e"), Some("".to_owned()));
}

#[test]
fn a_neighbour_need_not_be_described() {
    let g = built(vec![found(b"a.md", "[[b]] [[gone]]"), found(b"b.md", "text")]);
    assert_eq!(g.neighbours(&["a.md".to_owned()], 5), vec![pair("b", "")]);
}

#[test]
fn the_closest_neighbours_come_first() {
    let g = sample();
    // From a: b twice (out and back), c and d once.
    assert_eq!(
        g.neighbours(&["a.md".to_owned()], 5),
        vec![pair("b", "about b"), pair("c", "about c"), pair("d", "")]
    );
    assert_eq!(g.neighbours(&["a.md".to_owned()], 1), vec![pair("b", "about b")]);
    assert_eq!(g.neighbours(&["a.md".to_owned()], 0), vec![]);
}

#[test]
fn seeds_are_no_neighbours() {
    let g = sample();
    assert_eq!(
        g.neighbours(&["a.md".to_owned(), "b.md".to_owned()], 5),
        vec![pair("c", "about c"), pair("d", "")]
    );
    assert_eq!(g.neighbours(&[], 5), vec![]);
    assert_eq!(g.neighbours(&["unknown.md".to_owned()], 5), vec![]);
}

#[test]
fn equal_neighbours_go_by_name() {
    let g = built(vec![
        found(b"hub.md", "[[y]] [[x]] [[z]]\n"),
        found(b"x.md", "x\n"),
        found(b"y.md", "y\n"),
        found(b"z.md", "z\n"),
    ]);
    let got: Vec<String> = g
        .neighbours(&["hub.md".to_owned()], 5)
        .into_iter()
        .map(|p| p.0)
        .collect();
    assert_eq!(got, vec!["x", "y", "z"]);
}

#[test]
fn how_seeds_are_given_does_not_matter() {
    let g = sample();
    let names = |seeds: &[&str]| -> Vec<(String, String)> {
        let owned: Vec<String> = seeds.iter().map(|s| (*s).to_owned()).collect();
        g.neighbours(&owned, 5)
    };
    assert_eq!(names(&["a.md", "c.md"]), names(&["c.md", "a.md"]));
    assert_eq!(names(&["a.md", "c.md"]), names(&["a", "c.md.md"]));
    assert_eq!(names(&["a.md", "c.md"]), names(&["a", "c.md"]));
}

#[test]
fn both_directions_count_alike() {
    let there = built(vec![found(b"a.md", "[[b]] [[c]]"), found(b"b.md", "x"), found(b"c.md", "x")]);
    let back = built(vec![found(b"a.md", "x"), found(b"b.md", "[[a]]"), found(b"c.md", "[[a]]")]);
    let seeds = ["a.md".to_owned()];
    assert_eq!(there.neighbours(&seeds, 5), vec![pair("b", ""), pair("c", "")]);
    assert_eq!(back.neighbours(&seeds, 5), there.neighbours(&seeds, 5));
}

#[test]
fn the_index_file_and_odd_names_are_no_notes() {
    let g = built(vec![
        found(b"MEMORY.md", "---\ndescription: all\n---\n[[a]]\n"),
        found(b"\xff.md", "---\ndescription: odd\n---\n[[a]]\n"),
        found(b"a.txt", "---\ndescription: text\n---\n[[b]]\n"),
        StoreEntry::Found {
            name: b"MEMORY.md".to_vec(),
            raw: None,
        },
    ]);
    assert_eq!(g.descriptions.len(), 0);
    assert_eq!(g.out.len(), 0);
    assert_eq!(g.back.len(), 0);
}

#[test]
fn the_first_spoiler_is_reported() {
    let lost = vec![found(b"a.md", "x\n"), StoreEntry::Lost];
    assert_eq!(LinkGraph::build(&lost).err(), Some(Unreadable { entry: 1 }));
    let unread = vec![
        StoreEntry::Found {
            name: b"b.md".to_vec(),
            raw: None,
        },
        StoreEntry::Lost,
    ];
    assert_eq!(LinkGraph::build(&unread).err(), Some(Unreadable { entry: 0 }));
}
